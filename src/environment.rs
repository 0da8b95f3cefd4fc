use vstd::prelude::*;

use crate::error::RunTimeError;
use crate::token::Token;
use crate::value::{Val, Value};

verus! {

/// The bindings of one scope, a later binding of a name hiding an earlier one.
pub open spec fn scope_map(b: Seq<(String, Value)>) -> Map<Seq<char>, Val>
    decreases b.len(),
{
    if b.len() == 0 {
        Map::empty()
    } else {
        scope_map(b.drop_last()).insert(b.last().0@, b.last().1@)
    }
}

/// A scope chain, innermost scope first.
pub type Chain = Seq<Map<Seq<char>, Val>>;

/// The value bound to `name` in the first scope of the chain that binds it.
pub open spec fn chain_get(c: Chain, name: Seq<char>) -> Option<Val>
    decreases c.len(),
{
    if c.len() == 0 {
        None
    } else if c[0].contains_key(name) {
        Some(c[0][name])
    } else {
        chain_get(c.drop_first(), name)
    }
}

/// The chain with the binding of `name` in the first scope that binds it
/// replaced by `v`; `None` where no scope binds `name`.
pub open spec fn chain_assign(c: Chain, name: Seq<char>, v: Val) -> Option<Chain>
    decreases c.len(),
{
    if c.len() == 0 {
        None
    } else if c[0].contains_key(name) {
        Some(c.update(0, c[0].insert(name, v)))
    } else {
        match chain_assign(c.drop_first(), name, v) {
            Some(rest) => Some(seq![c[0]] + rest),
            None => None,
        }
    }
}

/// The chain with `name` bound to `v` in its innermost scope.
pub open spec fn chain_define(c: Chain, name: Seq<char>, v: Val) -> Chain {
    c.update(0, c[0].insert(name, v))
}

/// Assignment finds exactly the names that lookup finds: it succeeds where
/// some scope of the chain binds the name, never creates a binding, and a
/// later lookup gives the assigned value.
pub proof fn lemma_assign_then_get(c: Chain, name: Seq<char>, v: Val)
    ensures
        chain_assign(c, name, v) is Some <==> chain_get(c, name) is Some,
        chain_assign(c, name, v) matches Some(d) ==> d.len() == c.len() && chain_get(d, name)
            == Some(v),
    decreases c.len(),
{
    if c.len() > 0 && !c[0].contains_key(name) {
        lemma_assign_then_get(c.drop_first(), name, v);
        if let Some(rest) = chain_assign(c.drop_first(), name, v) {
            let d = seq![c[0]] + rest;
            assert(d.drop_first() =~= rest);
        }
    }
}

/// A declaration binds the name in the innermost scope: lookup then gives
/// the declared value, whatever outer scopes hold.
pub proof fn lemma_define_then_get(c: Chain, name: Seq<char>, v: Val)
    requires
        c.len() >= 1,
    ensures
        chain_get(chain_define(c, name, v), name) == Some(v),
        chain_define(c, name, v).drop_first() == c.drop_first(),
{
    assert(chain_define(c, name, v).drop_first() =~= c.drop_first());
}

/// A binding in a scope entered on top of `c` hides the outer one, and
/// discarding that scope makes the outer binding visible again.
pub proof fn lemma_shadow_then_restore(c: Chain, name: Seq<char>, v: Val)
    ensures
        chain_get(chain_define(seq![Map::empty()] + c, name, v), name) == Some(v),
        chain_define(seq![Map::empty()] + c, name, v).drop_first() == c,
{
    let inner = seq![Map::<Seq<char>, Val>::empty()] + c;
    lemma_define_then_get(inner, name, v);
    assert(inner.drop_first() =~= c);
}

proof fn lemma_scope_last_match(b: Seq<(String, Value)>, i: int, k: Seq<char>)
    requires
        0 <= i < b.len(),
        b[i].0@ == k,
        forall|j: int| i < j < b.len() ==> (#[trigger] b[j]).0@ != k,
    ensures
        scope_map(b).contains_key(k),
        scope_map(b)[k] == b[i].1@,
    decreases b.len(),
{
    if i < b.len() - 1 {
        lemma_scope_last_match(b.drop_last(), i, k);
    }
}

proof fn lemma_scope_no_match(b: Seq<(String, Value)>, k: Seq<char>)
    requires
        forall|j: int| 0 <= j < b.len() ==> (#[trigger] b[j]).0@ != k,
    ensures
        !scope_map(b).contains_key(k),
    decreases b.len(),
{
    if b.len() > 0 {
        lemma_scope_no_match(b.drop_last(), k);
    }
}

proof fn lemma_scope_update(b: Seq<(String, Value)>, i: int, v: Value)
    requires
        0 <= i < b.len(),
        forall|j: int| i < j < b.len() ==> (#[trigger] b[j]).0@ != b[i].0@,
    ensures
        scope_map(b.update(i, (b[i].0, v))) =~= scope_map(b).insert(b[i].0@, v@),
    decreases b.len(),
{
    let u = b.update(i, (b[i].0, v));
    if i == b.len() - 1 {
        assert(u.drop_last() =~= b.drop_last());
    } else {
        lemma_scope_update(b.drop_last(), i, v);
        assert(u.drop_last() =~= b.drop_last().update(i, (b[i].0, v)));
    }
}

/// A scope: name-to-value bindings and the enclosing scope, if any.
#[derive(Debug)]
pub struct Environment {
    values: Vec<(String, Value)>,
    enclosing: Option<Box<Environment>>,
}

impl View for Environment {
    type V = Chain;

    closed spec fn view(&self) -> Chain {
        self.chain()
    }
}

impl Environment {
    closed spec fn chain(&self) -> Chain
        decreases self,
    {
        seq![scope_map(self.values@)] + match self.enclosing {
            Some(e) => e.chain(),
            None => Seq::empty(),
        }
    }

    /// Every chain holds at least the scope itself.
    proof fn lemma_view_len(&self)
        ensures
            self@.len() >= 1,
            self@.len() >= 2 <==> self.enclosing is Some,
        decreases self,
    {
        match self.enclosing {
            Some(e) => {
                e.lemma_view_len();
            },
            None => {},
        }
    }

    /// A chain holds at least the scope itself.
    pub proof fn lemma_nonempty(&self)
        ensures
            self@.len() >= 1,
    {
        self.lemma_view_len();
    }

    /// A root scope with no bindings.
    pub fn new() -> (r: Environment)
        ensures
            r@ == seq![Map::<Seq<char>, Val>::empty()],
    {
        let r = Environment { values: Vec::new(), enclosing: None };
        proof {
            assert(r@ =~= seq![Map::<Seq<char>, Val>::empty()]);
        }
        r
    }

    /// A new empty scope whose parent is `enclosing`.
    pub fn enclosing(enclosing: Environment) -> (r: Environment)
        ensures
            r@ == seq![Map::<Seq<char>, Val>::empty()] + enclosing@,
    {
        let r = Environment { values: Vec::new(), enclosing: Some(Box::new(enclosing)) };
        proof {
            assert(r@ =~= seq![Map::<Seq<char>, Val>::empty()] + enclosing@);
        }
        r
    }

    /// The enclosing scope, if any.
    pub fn parent(&self) -> (r: Option<&Box<Environment>>)
        ensures
            self@.len() == 1 <==> r is None,
            r matches Some(p) ==> p@ == self@.drop_first(),
    {
        proof {
            self.lemma_view_len();
        }
        match &self.enclosing {
            Some(e) => {
                proof {
                    assert(self@.drop_first() =~= e@);
                }
                Some(e)
            },
            None => None,
        }
    }

    /// Takes the scope apart: the enclosing scope, if any.
    pub fn into_parent(self) -> (r: Option<Environment>)
        ensures
            self@.len() == 1 <==> r is None,
            r matches Some(p) ==> p@ == self@.drop_first(),
    {
        proof {
            self.lemma_view_len();
        }
        match self.enclosing {
            Some(e) => {
                proof {
                    assert(self@.drop_first() =~= e@);
                }
                Some(*e)
            },
            None => None,
        }
    }

    /// The index of the last binding of `name` in this scope.
    fn find(&self, name: &String) -> (r: Option<usize>)
        ensures
            match r {
                Some(i) => i < self.values@.len() && self.values@[i as int].0@ == name@ && forall|
                    j: int,
                | i < j < self.values@.len() ==> (#[trigger] self.values@[j]).0@ != name@,
                None => forall|j: int|
                    0 <= j < self.values@.len() ==> (#[trigger] self.values@[j]).0@ != name@,
            },
    {
        let mut i = self.values.len();
        while i > 0
            invariant
                i <= self.values@.len(),
                forall|j: int| i <= j < self.values@.len() ==> (#[trigger] self.values@[j]).0@
                    != name@,
            decreases i,
        {
            i = i - 1;
            if self.values[i].0 == *name {
                return Some(i);
            }
        }
        None
    }

    /// Binds `name` to `value` in this scope, replacing a binding it has.
    pub fn put(&mut self, name: String, value: Value)
        ensures
            final(self)@ == chain_define(old(self)@, name@, value@),
    {
        proof {
            self.lemma_view_len();
        }
        match self.find(&name) {
            Some(i) => {
                let ghost old_values = self.values@;
                let key = self.values[i].0.clone();
                let ghost v = value;
                self.values.set(i, (key, value));
                proof {
                    lemma_scope_update(old_values, i as int, v);
                    assert(self.values@ =~= old_values.update(i as int, (old_values[i as int].0, v)));
                }
            },
            None => {
                self.values.push((name, value));
                proof {
                    assert(self.values@.drop_last() =~= old(self).values@);
                }
            },
        }
        proof {
            assert(self@ =~= chain_define(old(self)@, name@, value@));
        }
    }

    /// The value of `token`'s name, from the nearest scope that binds it.
    pub fn get(&self, token: &Token) -> (r: Result<Value, RunTimeError>)
        ensures
            match chain_get(self@, token.lexeme@) {
                Some(v) => r matches Ok(x) && x@ == v,
                None => r == Err::<Value, RunTimeError>(RunTimeError::UndefinedVariable(*token)),
            },
        decreases self,
    {
        proof {
            self.lemma_view_len();
        }
        match self.find(&token.lexeme) {
            Some(i) => {
                proof {
                    lemma_scope_last_match(self.values@, i as int, token.lexeme@);
                    assert(self@[0] == scope_map(self.values@));
                    assert(self@[0].contains_key(token.lexeme@));
                }
                Ok(self.values[i].1.duplicate())
            },
            None => {
                proof {
                    lemma_scope_no_match(self.values@, token.lexeme@);
                    assert(self@[0] == scope_map(self.values@));
                }
                match &self.enclosing {
                    Some(env) => {
                        proof {
                            assert(self@.drop_first() =~= env@);
                        }
                        env.get(token)
                    },
                    None => {
                        proof {
                            assert(self@.drop_first() =~= Seq::<Map<Seq<char>, Val>>::empty());
                        }
                        Err(RunTimeError::UndefinedVariable(token.duplicate()))
                    },
                }
            },
        }
    }

    /// Replaces the value of `token`'s name in the nearest scope that binds
    /// it; never creates a binding.
    pub fn assign(&mut self, token: &Token, value: Value) -> (r: Result<(), RunTimeError>)
        ensures
            match chain_assign(old(self)@, token.lexeme@, value@) {
                Some(c) => r is Ok && final(self)@ == c,
                None => r == Err::<(), RunTimeError>(RunTimeError::UndefinedVariable(*token))
                    && final(self)@ == old(self)@,
            },
        decreases old(self)@.len(),
    {
        proof {
            self.lemma_view_len();
        }
        match self.find(&token.lexeme) {
            Some(i) => {
                let ghost old_values = self.values@;
                let key = self.values[i].0.clone();
                self.values.set(i, (key, value));
                proof {
                    lemma_scope_last_match(old_values, i as int, token.lexeme@);
                    lemma_scope_update(old_values, i as int, value);
                    assert(self.values@ =~= old_values.update(i as int, (old_values[i as int].0, value)));
                    assert(self@ =~= old(self)@.update(0, old(self)@[0].insert(token.lexeme@, value@)));
                }
                Ok(())
            },
            None => {
                proof {
                    lemma_scope_no_match(self.values@, token.lexeme@);
                }
                let mut parent = None;
                std::mem::swap(&mut parent, &mut self.enclosing);
                match parent {
                    Some(mut env) => {
                        proof {
                            assert(old(self)@.drop_first() =~= env@);
                        }
                        let r = env.assign(token, value);
                        self.enclosing = Some(env);
                        proof {
                            assert(self@ =~= seq![old(self)@[0]] + env@);
                        }
                        r
                    },
                    None => {
                        proof {
                            assert(old(self)@.drop_first() =~= Seq::<Map<Seq<char>, Val>>::empty());
                        }
                        Err(RunTimeError::UndefinedVariable(token.duplicate()))
                    },
                }
            },
        }
    }
}

} // verus!
