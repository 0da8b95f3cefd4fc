use vstd::prelude::*;

use crate::ast::{
    binary_operator_of, unary_operator_of, BinaryOperators, BlockNode, ExprNode, GroupingNode,
    LiteralNode, StmtNode, UnaryOperators, WhileNode,
};
use crate::environment::{chain_assign, chain_define, chain_get, Chain, Environment};
use crate::error::{OperandRule, RunTimeError};
use crate::number::{arith_result, ratio_add, ratio_div, ratio_lt, ratio_mul, ratio_neg, ratio_sub, Ratio};
use crate::token::{Token, TokenType};
use crate::value::{truthy, val_eq, val_text, Val, Value};

verus! {

/// How many times one loop may run its body; a budget on nested loops is
/// one less at each level.
pub const STEP_BUDGET: u64 = 0xffff_ffff_ffff_ffff;

pub open spec fn literal_val(l: LiteralNode) -> Val {
    match l {
        LiteralNode::String(s) => Val::Str(s@),
        LiteralNode::Number(n) => Val::Num(n@),
        LiteralNode::True => Val::Bool(true),
        LiteralNode::False => Val::Bool(false),
        LiteralNode::Nil => Val::Nil,
    }
}

/// The number result of operator `op` whose exact value is `r`, in lowest
/// terms, or the error that it does not fit.
pub open spec fn number_result(op: Token, r: Ratio) -> Result<Val, RunTimeError> {
    match arith_result(r) {
        Some(v) => Ok(Val::Num(v)),
        None => Err(RunTimeError::NumberOutOfRange(op)),
    }
}

/// The value of unary operator `op` applied to `v`.
pub open spec fn unary_value(op: Token, v: Val) -> Result<Val, RunTimeError> {
    match unary_operator_of(op.t_type) {
        Some(UnaryOperators::Bang) => Ok(Val::Bool(!truthy(v))),
        Some(UnaryOperators::Minus) => match v {
            Val::Num(a) => number_result(op, ratio_neg(a)),
            _ => Err(RunTimeError::InvalidOperand(op, OperandRule::Numbers)),
        },
        None => Err(RunTimeError::InvalidOperand(op, OperandRule::Numbers)),
    }
}

/// The value of an operator that takes two numbers.
pub open spec fn numeric_value(op: Token, o: BinaryOperators, a: Ratio, b: Ratio) -> Result<Val, RunTimeError> {
    match o {
        BinaryOperators::Minus => number_result(op, ratio_sub(a, b)),
        BinaryOperators::Star => number_result(op, ratio_mul(a, b)),
        BinaryOperators::Slash => if b.num == 0 {
            Err(RunTimeError::DivisionByZero(op))
        } else {
            number_result(op, ratio_div(a, b))
        },
        BinaryOperators::Less => Ok(Val::Bool(ratio_lt(a, b))),
        BinaryOperators::LessEqual => Ok(Val::Bool(!ratio_lt(b, a))),
        BinaryOperators::Greater => Ok(Val::Bool(ratio_lt(b, a))),
        BinaryOperators::GreaterEqual => Ok(Val::Bool(!ratio_lt(a, b))),
        _ => Err(RunTimeError::InvalidOperand(op, OperandRule::Numbers)),
    }
}

/// The value of binary operator `op` applied to `l` and `r`.
pub open spec fn binary_value(op: Token, l: Val, r: Val) -> Result<Val, RunTimeError> {
    match binary_operator_of(op.t_type) {
        Some(BinaryOperators::Plus) => match (l, r) {
            (Val::Num(a), Val::Num(b)) => number_result(op, ratio_add(a, b)),
            (Val::Str(a), Val::Str(b)) => Ok(Val::Str(a + b)),
            _ => Err(RunTimeError::InvalidOperand(op, OperandRule::NumbersOrStrings)),
        },
        Some(BinaryOperators::EqualEqual) => Ok(Val::Bool(val_eq(l, r))),
        Some(BinaryOperators::BangEqual) => Ok(Val::Bool(!val_eq(l, r))),
        Some(o) => match (l, r) {
            (Val::Num(a), Val::Num(b)) => numeric_value(op, o, a, b),
            _ => Err(RunTimeError::InvalidOperand(op, OperandRule::Numbers)),
        },
        None => Err(RunTimeError::InvalidOperand(op, OperandRule::Numbers)),
    }
}

/// Whether a logical operator returns its left operand `v` without
/// evaluating its right one.
pub open spec fn short_circuits(op: Token, v: Val) -> bool {
    if op.t_type == TokenType::Or {
        truthy(v)
    } else {
        !truthy(v)
    }
}

/// Evaluates `e` against the scope chain `c`: its value or error, and the
/// chain after its assignments.
pub open spec fn eval(c: Chain, e: ExprNode) -> (Result<Val, RunTimeError>, Chain)
    decreases e,
{
    match e {
        ExprNode::Variable(t) => match chain_get(c, t.lexeme@) {
            Some(v) => (Ok(v), c),
            None => (Err(RunTimeError::UndefinedVariable(t)), c),
        },
        ExprNode::Assign(a) => {
            let (r, c1) = eval(c, *a.value);
            match r {
                Err(x) => (Err(x), c1),
                Ok(v) => match chain_assign(c1, a.name.lexeme@, v) {
                    Some(c2) => (Ok(v), c2),
                    None => (Err(RunTimeError::UndefinedVariable(a.name)), c1),
                },
            }
        },
        ExprNode::Literal(l) => (Ok(literal_val(l)), c),
        ExprNode::Unary(u) => {
            let (r, c1) = eval(c, *u.right);
            match r {
                Err(x) => (Err(x), c1),
                Ok(v) => (unary_value(u.operator, v), c1),
            }
        },
        ExprNode::Binary(b) => {
            let (r1, c1) = eval(c, *b.left);
            match r1 {
                Err(x) => (Err(x), c1),
                Ok(l) => {
                    let (r2, c2) = eval(c1, *b.right);
                    match r2 {
                        Err(x) => (Err(x), c2),
                        Ok(r) => (binary_value(b.operator, l, r), c2),
                    }
                },
            }
        },
        ExprNode::Grouping(g) => eval(c, *g.inner),
        ExprNode::Logical(l) => {
            let (r1, c1) = eval(c, *l.left);
            match r1 {
                Err(x) => (Err(x), c1),
                Ok(v) => if short_circuits(l.operator, v) {
                    (Ok(v), c1)
                } else {
                    eval(c1, *l.right)
                },
            }
        },
    }
}

/// Grouping is transparent: in every scope chain, `( e )` gives the same
/// value or error as `e` alone, and leaves the same chain behind.
pub proof fn lemma_grouping_transparent(c: Chain, e: ExprNode)
    ensures
        eval(c, ExprNode::Grouping(GroupingNode { inner: Box::new(e) })) == eval(c, e),
{
}

/// The outcome of running statements: the result, the scope chain after,
/// and the lines printed, in order.
pub struct Run {
    pub result: Result<(), RunTimeError>,
    pub chain: Chain,
    pub out: Seq<Seq<char>>,
}

/// `run` preceded by the printed lines `out`.
pub open spec fn after_output(out: Seq<Seq<char>>, run: Run) -> Run {
    Run { result: run.result, chain: run.chain, out: out + run.out }
}

/// Runs one statement; a loop runs its body at most `fuel` times.
pub open spec fn exec_stmt(fuel: nat, c: Chain, s: StmtNode) -> Run
    decreases fuel, s, 0nat,
{
    match s {
        StmtNode::Print(e) => {
            let (r, c1) = eval(c, e);
            match r {
                Ok(v) => Run { result: Ok(()), chain: c1, out: seq![val_text(v)] },
                Err(x) => Run { result: Err(x), chain: c1, out: Seq::empty() },
            }
        },
        StmtNode::Expr(e) => {
            let (r, c1) = eval(c, e);
            match r {
                Ok(_) => Run { result: Ok(()), chain: c1, out: Seq::empty() },
                Err(x) => Run { result: Err(x), chain: c1, out: Seq::empty() },
            }
        },
        StmtNode::VarDec(v) => {
            let (r, c1) = eval(c, v.value_expr);
            match r {
                Ok(x) => Run {
                    result: Ok(()),
                    chain: chain_define(c1, v.name.lexeme@, x),
                    out: Seq::empty(),
                },
                Err(x) => Run { result: Err(x), chain: c1, out: Seq::empty() },
            }
        },
        StmtNode::Block(b) => {
            let inner = exec_block(fuel, seq![Map::empty()] + c, b, 0);
            Run { result: inner.result, chain: inner.chain.drop_first(), out: inner.out }
        },
        StmtNode::IfStmt(n) => {
            let (r, c1) = eval(c, n.condition);
            match r {
                Err(x) => Run { result: Err(x), chain: c1, out: Seq::empty() },
                Ok(v) => if truthy(v) {
                    exec_stmt(fuel, c1, *n.then_branch)
                } else {
                    match n.else_branch {
                        Some(e) => exec_stmt(fuel, c1, *e),
                        None => Run { result: Ok(()), chain: c1, out: Seq::empty() },
                    }
                },
            }
        },
        StmtNode::While(w) => exec_loop(fuel, c, w),
    }
}

/// Runs the statements of `b` from index `i` on, stopping at the first error.
pub open spec fn exec_block(fuel: nat, c: Chain, b: BlockNode, i: int) -> Run
    decreases fuel, b, b.0@.len() - i,
{
    if i < 0 || i >= b.0@.len() {
        Run { result: Ok(()), chain: c, out: Seq::empty() }
    } else {
        let r = exec_stmt(fuel, c, b.0@[i]);
        if r.result is Err {
            r
        } else {
            after_output(r.out, exec_block(fuel, r.chain, b, i + 1))
        }
    }
}

/// Runs a loop with at most `fuel` runs of its body left.
pub open spec fn exec_loop(fuel: nat, c: Chain, w: WhileNode) -> Run
    decreases fuel, w, 0nat,
{
    if fuel == 0 {
        Run { result: Err(RunTimeError::StepLimit), chain: c, out: Seq::empty() }
    } else {
        let (r, c1) = eval(c, w.condition);
        match r {
            Err(x) => Run { result: Err(x), chain: c1, out: Seq::empty() },
            Ok(v) => if !truthy(v) {
                Run { result: Ok(()), chain: c1, out: Seq::empty() }
            } else {
                let body = exec_stmt((fuel - 1) as nat, c1, *w.body);
                if body.result is Err {
                    body
                } else {
                    after_output(body.out, exec_loop((fuel - 1) as nat, body.chain, w))
                }
            },
        }
    }
}

/// Runs a program: its statements in order in the scope chain `c`, stopping
/// at the first error.
pub open spec fn exec_program(fuel: nat, c: Chain, stmts: Seq<StmtNode>) -> Run
    decreases stmts.len(),
{
    if stmts.len() == 0 {
        Run { result: Ok(()), chain: c, out: Seq::empty() }
    } else {
        let r = exec_stmt(fuel, c, stmts[0]);
        if r.result is Err {
            r
        } else {
            after_output(r.out, exec_program(fuel, r.chain, stmts.drop_first()))
        }
    }
}

proof fn lemma_eval_depth(c: Chain, e: ExprNode)
    ensures
        eval(c, e).1.len() == c.len(),
    decreases e,
{
    match e {
        ExprNode::Assign(a) => {
            lemma_eval_depth(c, *a.value);
            let (r, c1) = eval(c, *a.value);
            if let Ok(v) = r {
                lemma_assign_len(c1, a.name.lexeme@, v);
            }
        },
        ExprNode::Unary(u) => lemma_eval_depth(c, *u.right),
        ExprNode::Binary(b) => {
            lemma_eval_depth(c, *b.left);
            lemma_eval_depth(eval(c, *b.left).1, *b.right);
        },
        ExprNode::Grouping(g) => lemma_eval_depth(c, *g.inner),
        ExprNode::Logical(l) => {
            lemma_eval_depth(c, *l.left);
            lemma_eval_depth(eval(c, *l.left).1, *l.right);
        },
        _ => {},
    }
}

/// Running a statement leaves the scope chain as deep as it found it: the
/// scope a block enters is discarded when the block ends, on an error too.
pub proof fn lemma_stmt_keeps_depth(fuel: nat, c: Chain, s: StmtNode)
    requires
        c.len() >= 1,
    ensures
        exec_stmt(fuel, c, s).chain.len() == c.len(),
    decreases fuel, s, 0nat,
{
    match s {
        StmtNode::Print(e) => lemma_eval_depth(c, e),
        StmtNode::Expr(e) => lemma_eval_depth(c, e),
        StmtNode::VarDec(v) => lemma_eval_depth(c, v.value_expr),
        StmtNode::Block(b) => {
            lemma_block_keeps_depth(fuel, seq![Map::empty()] + c, b, 0);
        },
        StmtNode::IfStmt(n) => {
            lemma_eval_depth(c, n.condition);
            let c1 = eval(c, n.condition).1;
            lemma_stmt_keeps_depth(fuel, c1, *n.then_branch);
            if let Some(e) = n.else_branch {
                lemma_stmt_keeps_depth(fuel, c1, *e);
            }
        },
        StmtNode::While(w) => lemma_loop_keeps_depth(fuel, c, w),
    }
}

proof fn lemma_block_keeps_depth(fuel: nat, c: Chain, b: BlockNode, i: int)
    requires
        c.len() >= 1,
    ensures
        exec_block(fuel, c, b, i).chain.len() == c.len(),
    decreases fuel, b, b.0@.len() - i,
{
    if 0 <= i < b.0@.len() {
        lemma_stmt_keeps_depth(fuel, c, b.0@[i]);
        let r = exec_stmt(fuel, c, b.0@[i]);
        lemma_block_keeps_depth(fuel, r.chain, b, i + 1);
    }
}

proof fn lemma_loop_keeps_depth(fuel: nat, c: Chain, w: WhileNode)
    requires
        c.len() >= 1,
    ensures
        exec_loop(fuel, c, w).chain.len() == c.len(),
    decreases fuel, w, 0nat,
{
    if fuel > 0 {
        lemma_eval_depth(c, w.condition);
        let c1 = eval(c, w.condition).1;
        lemma_stmt_keeps_depth((fuel - 1) as nat, c1, *w.body);
        let body = exec_stmt((fuel - 1) as nat, c1, *w.body);
        lemma_loop_keeps_depth((fuel - 1) as nat, body.chain, w);
    }
}

pub open spec fn result_view(r: Result<Value, RunTimeError>) -> Result<Val, RunTimeError> {
    match r {
        Ok(v) => Ok(v@),
        Err(e) => Err(e),
    }
}

pub open spec fn texts(v: Seq<String>) -> Seq<Seq<char>> {
    v.map_values(|s: String| s@)
}

proof fn lemma_assign_len(c: Chain, name: Seq<char>, v: Val)
    ensures
        chain_assign(c, name, v) matches Some(d) ==> d.len() == c.len(),
    decreases c.len(),
{
    if c.len() > 0 && !c[0].contains_key(name) {
        lemma_assign_len(c.drop_first(), name, v);
    }
}

/// The value a unary operator gives.
fn unary_op(op: &Token, v: Value) -> (r: Result<Value, RunTimeError>)
    ensures
        result_view(r) == unary_value(*op, v@),
{
    match UnaryOperators::from_token_type(op.t_type) {
        Some(UnaryOperators::Bang) => Ok(Value::Bool(!v.is_truthy())),
        Some(UnaryOperators::Minus) => match v {
            Value::Number(n) => number_or_error(op, n.neg(), Ghost(ratio_neg(n@))),
            _ => Err(RunTimeError::InvalidOperand(op.duplicate(), OperandRule::Numbers)),
        },
        None => Err(RunTimeError::InvalidOperand(op.duplicate(), OperandRule::Numbers)),
    }
}

/// A number result, or the error that it does not fit.
fn number_or_error(op: &Token, r: Option<crate::number::Number>, ghost_r: Ghost<Ratio>) -> (res: Result<Value, RunTimeError>)
    requires
        r is None <==> arith_result(ghost_r@) is None,
        r matches Some(x) ==> arith_result(ghost_r@) == Some(x@),
    ensures
        result_view(res) == number_result(*op, ghost_r@),
{
    match r {
        Some(x) => Ok(Value::Number(x)),
        None => Err(RunTimeError::NumberOutOfRange(op.duplicate())),
    }
}

/// The value a binary operator gives.
fn binary_op(op: &Token, l: Value, r: Value) -> (res: Result<Value, RunTimeError>)
    ensures
        result_view(res) == binary_value(*op, l@, r@),
{
    match BinaryOperators::from_token_type(op.t_type) {
        Some(BinaryOperators::Plus) => match (l, r) {
            (Value::Number(a), Value::Number(b)) => number_or_error(
                op,
                a.add(&b),
                Ghost(ratio_add(a@, b@)),
            ),
            (Value::String(a), Value::String(b)) => {
                let s = a.concat(b.as_str());
                Ok(Value::String(s))
            },
            _ => Err(RunTimeError::InvalidOperand(op.duplicate(), OperandRule::NumbersOrStrings)),
        },
        Some(BinaryOperators::EqualEqual) => Ok(Value::Bool(l.is_equal(&r))),
        Some(BinaryOperators::BangEqual) => Ok(Value::Bool(!l.is_equal(&r))),
        Some(o) => match (l, r) {
            (Value::Number(a), Value::Number(b)) => match o {
                BinaryOperators::Minus => number_or_error(op, a.sub(&b), Ghost(ratio_sub(a@, b@))),
                BinaryOperators::Star => number_or_error(op, a.mul(&b), Ghost(ratio_mul(a@, b@))),
                BinaryOperators::Slash => {
                    if b.numerator() == 0 {
                        Err(RunTimeError::DivisionByZero(op.duplicate()))
                    } else {
                        number_or_error(op, a.div(&b), Ghost(ratio_div(a@, b@)))
                    }
                },
                BinaryOperators::Less => Ok(Value::Bool(a.less_than(&b))),
                BinaryOperators::LessEqual => Ok(Value::Bool(!b.less_than(&a))),
                BinaryOperators::Greater => Ok(Value::Bool(b.less_than(&a))),
                BinaryOperators::GreaterEqual => Ok(Value::Bool(!a.less_than(&b))),
                _ => Err(RunTimeError::InvalidOperand(op.duplicate(), OperandRule::Numbers)),
            },
            _ => Err(RunTimeError::InvalidOperand(op.duplicate(), OperandRule::Numbers)),
        },
        None => Err(RunTimeError::InvalidOperand(op.duplicate(), OperandRule::Numbers)),
    }
}

fn literal_value(l: &LiteralNode) -> (r: Value)
    ensures
        r@ == literal_val(*l),
{
    match l {
        LiteralNode::String(s) => Value::String(s.clone()),
        LiteralNode::Number(n) => Value::Number(*n),
        LiteralNode::True => Value::Bool(true),
        LiteralNode::False => Value::Bool(false),
        LiteralNode::Nil => Value::Nil,
    }
}

/// A tree-walking evaluator with one scope chain that lives as long as the
/// interpreter, so that declarations persist from one program to the next.
#[derive(Debug)]
pub struct Interpreter {
    environment: Environment,
    output: Vec<String>,
}

impl Interpreter {
    /// The scope chain, innermost scope first.
    pub closed spec fn chain(&self) -> Chain {
        self.environment@
    }

    /// The lines printed and not yet taken.
    pub closed spec fn printed(&self) -> Seq<Seq<char>> {
        texts(self.output@)
    }

    /// An interpreter with one empty root scope and nothing printed.
    pub fn new() -> (r: Interpreter)
        ensures
            r.chain() == seq![Map::<Seq<char>, Val>::empty()],
            r.printed() == Seq::<Seq<char>>::empty(),
    {
        let r = Interpreter { environment: Environment::new(), output: Vec::new() };
        proof {
            assert(r.printed() =~= Seq::<Seq<char>>::empty());
        }
        r
    }

    /// Hands over the printed lines, oldest first.
    pub fn take_output(&mut self) -> (r: Vec<String>)
        ensures
            texts(r@) == old(self).printed(),
            final(self).printed() == Seq::<Seq<char>>::empty(),
            final(self).chain() == old(self).chain(),
    {
        let mut r: Vec<String> = Vec::new();
        std::mem::swap(&mut r, &mut self.output);
        proof {
            assert(self.printed() =~= Seq::<Seq<char>>::empty());
        }
        r
    }

    /// Runs `stmts` in order against the persistent scope chain, stopping at
    /// the first runtime error, which is returned.
    pub fn interpret(&mut self, stmts: Vec<StmtNode>) -> (r: Result<(), RunTimeError>)
        ensures
            ({
                let run = exec_program(STEP_BUDGET as nat, old(self).chain(), stmts@);
                &&& r == run.result
                &&& final(self).chain() == run.chain
                &&& final(self).printed() == old(self).printed() + run.out
            }),
    {
        let ghost start_out = self.printed();
        proof {
            let whole = exec_program(STEP_BUDGET as nat, old(self).chain(), stmts@);
            assert(stmts@.skip(0) =~= stmts@);
            assert(self.printed().skip(start_out.len() as int) + whole.out =~= whole.out);
            assert(self.printed().subrange(0, start_out.len() as int) =~= start_out);
        }
        let mut i: usize = 0;
        while i < stmts.len()
            invariant
                i <= stmts@.len(),
                start_out == old(self).printed(),
                self.chain().len() == old(self).chain().len(),
                ({
                    let whole = exec_program(STEP_BUDGET as nat, old(self).chain(), stmts@);
                    let rest = exec_program(STEP_BUDGET as nat, self.chain(), stmts@.skip(i as int));
                    &&& self.printed().len() >= start_out.len()
                    &&& self.printed().subrange(0, start_out.len() as int) == start_out
                    &&& whole.result == rest.result
                    &&& whole.chain == rest.chain
                    &&& whole.out == self.printed().skip(start_out.len() as int) + rest.out
                }),
            decreases stmts@.len() - i,
        {
            let ghost before = self.printed();
            let ghost c = self.chain();
            proof {
                assert(stmts@.skip(i as int).drop_first() =~= stmts@.skip(i + 1));
                assert(stmts@.skip(i as int)[0] == stmts@[i as int]);
            }
            let r = self.execute(STEP_BUDGET, &stmts[i]);
            proof {
                let step = exec_stmt(STEP_BUDGET as nat, c, stmts@[i as int]);
                assert(self.printed().skip(start_out.len() as int) =~= before.skip(start_out.len() as int)
                    + step.out);
                assert(self.printed().subrange(0, start_out.len() as int) =~= before.subrange(0, start_out.len() as int));
            }
            match r {
                Err(e) => {
                    proof {
                        let whole = exec_program(STEP_BUDGET as nat, old(self).chain(), stmts@);
                        assert(whole.out =~= self.printed().skip(start_out.len() as int));
                        assert(self.printed() =~= start_out + whole.out);
                    }
                    return Err(e);
                },
                Ok(()) => {},
            }
            i = i + 1;
            proof {
                let whole = exec_program(STEP_BUDGET as nat, old(self).chain(), stmts@);
                let rest = exec_program(STEP_BUDGET as nat, self.chain(), stmts@.skip(i as int));
                assert(whole.out =~= self.printed().skip(start_out.len() as int) + rest.out);
            }
        }
        proof {
            assert(stmts@.skip(i as int).len() == 0);
            let whole = exec_program(STEP_BUDGET as nat, old(self).chain(), stmts@);
            assert(whole.out =~= self.printed().skip(start_out.len() as int));
            assert(self.printed() =~= start_out + whole.out);
        }
        Ok(())
    }

    /// Evaluates an expression.
    fn evaluate(&mut self, e: &ExprNode) -> (r: Result<Value, RunTimeError>)
        ensures
            eval(old(self).chain(), *e) == (result_view(r), final(self).chain()),
            final(self).printed() == old(self).printed(),
            final(self).chain().len() == old(self).chain().len(),
        decreases e,
    {
        match e {
            ExprNode::Variable(t) => self.environment.get(t),
            ExprNode::Assign(a) => {
                let v = match self.evaluate(&a.value) {
                    Ok(v) => v,
                    Err(x) => return Err(x),
                };
                let ghost c1 = self.chain();
                proof {
                    lemma_assign_len(c1, a.name.lexeme@, v@);
                }
                match self.environment.assign(&a.name, v.duplicate()) {
                    Ok(()) => Ok(v),
                    Err(x) => Err(x),
                }
            },
            ExprNode::Literal(l) => Ok(literal_value(l)),
            ExprNode::Unary(u) => {
                let v = match self.evaluate(&u.right) {
                    Ok(v) => v,
                    Err(x) => return Err(x),
                };
                unary_op(&u.operator, v)
            },
            ExprNode::Binary(b) => {
                let l = match self.evaluate(&b.left) {
                    Ok(v) => v,
                    Err(x) => return Err(x),
                };
                let r = match self.evaluate(&b.right) {
                    Ok(v) => v,
                    Err(x) => return Err(x),
                };
                binary_op(&b.operator, l, r)
            },
            ExprNode::Grouping(g) => self.evaluate(&g.inner),
            ExprNode::Logical(l) => {
                let v = match self.evaluate(&l.left) {
                    Ok(v) => v,
                    Err(x) => return Err(x),
                };
                let truthy_left = v.is_truthy();
                let stop = if l.operator.t_type == TokenType::Or {
                    truthy_left
                } else {
                    !truthy_left
                };
                if stop {
                    Ok(v)
                } else {
                    self.evaluate(&l.right)
                }
            },
        }
    }

    /// Executes one statement; a loop may run its body at most `fuel` times.
    fn execute(&mut self, fuel: u64, s: &StmtNode) -> (r: Result<(), RunTimeError>)
        ensures
            ({
                let run = exec_stmt(fuel as nat, old(self).chain(), *s);
                &&& r == run.result
                &&& final(self).chain() == run.chain
                &&& final(self).printed() == old(self).printed() + run.out
            }),
            final(self).chain().len() == old(self).chain().len(),
        decreases fuel, s, 0nat,
    {
        match s {
            StmtNode::Print(e) => {
                let v = match self.evaluate(e) {
                    Ok(v) => v,
                    Err(x) => {
                        proof {
                            assert(self.printed() =~= old(self).printed() + Seq::<Seq<char>>::empty());
                        }
                        return Err(x);
                    },
                };
                let text = v.to_text();
                let ghost before = self.output@;
                self.output.push(text);
                proof {
                    assert(self.printed() =~= texts(before) + seq![val_text(v@)]);
                }
                Ok(())
            },
            StmtNode::Expr(e) => {
                let r = self.evaluate(e);
                proof {
                    assert(self.printed() =~= old(self).printed() + Seq::<Seq<char>>::empty());
                }
                match r {
                    Ok(_) => Ok(()),
                    Err(x) => Err(x),
                }
            },
            StmtNode::VarDec(v) => {
                let value = match self.evaluate(&v.value_expr) {
                    Ok(x) => x,
                    Err(x) => {
                        proof {
                            assert(self.printed() =~= old(self).printed() + Seq::<Seq<char>>::empty());
                        }
                        return Err(x);
                    },
                };
                proof {
                    self.environment.lemma_nonempty();
                }
                self.environment.put(v.name.lexeme.clone(), value);
                proof {
                    assert(self.printed() =~= old(self).printed() + Seq::<Seq<char>>::empty());
                }
                Ok(())
            },
            StmtNode::Block(b) => self.execute_block(fuel, b),
            StmtNode::IfStmt(n) => {
                let v = match self.evaluate(&n.condition) {
                    Ok(x) => x,
                    Err(x) => {
                        proof {
                            assert(self.printed() =~= old(self).printed() + Seq::<Seq<char>>::empty());
                        }
                        return Err(x);
                    },
                };
                if v.is_truthy() {
                    self.execute(fuel, &n.then_branch)
                } else {
                    match &n.else_branch {
                        Some(e) => self.execute(fuel, e),
                        None => {
                            proof {
                                assert(self.printed() =~= old(self).printed() + Seq::<Seq<char>>::empty());
                            }
                            Ok(())
                        },
                    }
                }
            },
            StmtNode::While(w) => self.execute_loop(fuel, w),
        }
    }

    /// Executes a block in a new scope, which is discarded afterwards, on
    /// an error too.
    fn execute_block(&mut self, fuel: u64, b: &BlockNode) -> (r: Result<(), RunTimeError>)
        ensures
            ({
                let inner = exec_block(fuel as nat, seq![Map::empty()] + old(self).chain(), *b, 0);
                &&& r == inner.result
                &&& final(self).chain() == inner.chain.drop_first()
                &&& final(self).printed() == old(self).printed() + inner.out
            }),
            final(self).chain().len() == old(self).chain().len(),
        decreases fuel, b, b.0@.len() + 1,
    {
        let ghost start_out = self.printed();
        let ghost c0 = seq![Map::<Seq<char>, Val>::empty()] + self.chain();
        proof {
            self.environment.lemma_nonempty();
        }
        let mut outer = Environment::new();
        std::mem::swap(&mut outer, &mut self.environment);
        self.environment = Environment::enclosing(outer);
        let mut i: usize = 0;
        proof {
            let whole = exec_block(fuel as nat, c0, *b, 0);
            assert(self.printed().skip(start_out.len() as int) + whole.out =~= whole.out);
            assert(self.printed().subrange(0, start_out.len() as int) =~= start_out);
        }
        while i < b.0.len()
            invariant
                i <= b.0@.len(),
                start_out == old(self).printed(),
                c0 == seq![Map::<Seq<char>, Val>::empty()] + old(self).chain(),
                old(self).chain().len() >= 1,
                self.chain().len() == c0.len(),
                ({
                    let whole = exec_block(fuel as nat, c0, *b, 0);
                    let rest = exec_block(fuel as nat, self.chain(), *b, i as int);
                    &&& self.printed().len() >= start_out.len()
                    &&& self.printed().subrange(0, start_out.len() as int) == start_out
                    &&& whole.result == rest.result
                    &&& whole.chain == rest.chain
                    &&& whole.out == self.printed().skip(start_out.len() as int) + rest.out
                }),
            decreases b.0@.len() - i,
        {
            let ghost before = self.printed();
            let ghost c = self.chain();
            let r = self.execute(fuel, &b.0[i]);
            proof {
                let step = exec_stmt(fuel as nat, c, b.0@[i as int]);
                assert(self.printed().skip(start_out.len() as int) =~= before.skip(start_out.len() as int)
                    + step.out);
                assert(self.printed().subrange(0, start_out.len() as int) =~= before.subrange(0, start_out.len() as int));
            }
            if r.is_err() {
                self.leave_scope();
                proof {
                    let whole = exec_block(fuel as nat, c0, *b, 0);
                    assert(whole.out =~= self.printed().skip(start_out.len() as int));
                    assert(self.printed() =~= start_out + whole.out);
                }
                return r;
            }
            i = i + 1;
            proof {
                let whole = exec_block(fuel as nat, c0, *b, 0);
                let rest = exec_block(fuel as nat, self.chain(), *b, i as int);
                assert(whole.out =~= self.printed().skip(start_out.len() as int) + rest.out);
            }
        }
        self.leave_scope();
        proof {
            let whole = exec_block(fuel as nat, c0, *b, 0);
            assert(whole.out =~= self.printed().skip(start_out.len() as int));
            assert(self.printed() =~= start_out + whole.out);
        }
        Ok(())
    }

    /// Discards the innermost scope, making its parent current.
    fn leave_scope(&mut self)
        requires
            old(self).chain().len() >= 2,
        ensures
            final(self).chain() == old(self).chain().drop_first(),
            final(self).printed() == old(self).printed(),
    {
        let mut inner = Environment::new();
        std::mem::swap(&mut inner, &mut self.environment);
        match inner.into_parent() {
            Some(parent) => {
                self.environment = parent;
            },
            None => {},
        }
    }

    /// Executes a loop, running its body at most `fuel` times.
    fn execute_loop(&mut self, fuel: u64, w: &WhileNode) -> (r: Result<(), RunTimeError>)
        ensures
            ({
                let run = exec_loop(fuel as nat, old(self).chain(), *w);
                &&& r == run.result
                &&& final(self).chain() == run.chain
                &&& final(self).printed() == old(self).printed() + run.out
            }),
            final(self).chain().len() == old(self).chain().len(),
        decreases fuel, w, 0nat,
    {
        let ghost start_out = self.printed();
        proof {
            let whole = exec_loop(fuel as nat, old(self).chain(), *w);
            assert(self.printed().skip(start_out.len() as int) + whole.out =~= whole.out);
            assert(self.printed().subrange(0, start_out.len() as int) =~= start_out);
        }
        let mut left = fuel;
        loop
            invariant
                left <= fuel,
                start_out == old(self).printed(),
                self.chain().len() == old(self).chain().len(),
                ({
                    let whole = exec_loop(fuel as nat, old(self).chain(), *w);
                    let rest = exec_loop(left as nat, self.chain(), *w);
                    &&& self.printed().len() >= start_out.len()
                    &&& self.printed().subrange(0, start_out.len() as int) == start_out
                    &&& whole.result == rest.result
                    &&& whole.chain == rest.chain
                    &&& whole.out == self.printed().skip(start_out.len() as int) + rest.out
                }),
            decreases left,
        {
            let ghost before = self.printed();
            let ghost c = self.chain();
            let ghost rest0 = exec_loop(left as nat, c, *w);
            if left == 0 {
                proof {
                    let whole = exec_loop(fuel as nat, old(self).chain(), *w);
                    assert(whole.out =~= self.printed().skip(start_out.len() as int));
                    assert(self.printed() =~= start_out + whole.out);
                }
                return Err(RunTimeError::StepLimit);
            }
            let v = match self.evaluate(&w.condition) {
                Ok(x) => x,
                Err(x) => {
                    proof {
                        let whole = exec_loop(fuel as nat, old(self).chain(), *w);
                        assert(whole.out =~= self.printed().skip(start_out.len() as int));
                        assert(self.printed() =~= start_out + whole.out);
                    }
                    return Err(x);
                },
            };
            if !v.is_truthy() {
                proof {
                    let whole = exec_loop(fuel as nat, old(self).chain(), *w);
                    assert(whole.out =~= self.printed().skip(start_out.len() as int));
                    assert(self.printed() =~= start_out + whole.out);
                }
                return Ok(());
            }
            left = left - 1;
            let ghost c1 = self.chain();
            let r = self.execute(left, &w.body);
            proof {
                let step = exec_stmt(left as nat, c1, *w.body);
                assert(self.printed().skip(start_out.len() as int) =~= before.skip(start_out.len() as int)
                    + step.out);
                assert(self.printed().subrange(0, start_out.len() as int) =~= before.subrange(0, start_out.len() as int));
            }
            if r.is_err() {
                proof {
                    let whole = exec_loop(fuel as nat, old(self).chain(), *w);
                    assert(whole.out =~= self.printed().skip(start_out.len() as int));
                    assert(self.printed() =~= start_out + whole.out);
                }
                return r;
            }
            proof {
                let whole = exec_loop(fuel as nat, old(self).chain(), *w);
                let rest = exec_loop(left as nat, self.chain(), *w);
                assert(whole.out =~= self.printed().skip(start_out.len() as int) + rest.out);
            }
        }
    }
}

} // verus!
