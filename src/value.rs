use vstd::prelude::*;

use crate::number::{ratio_eq, ratio_text, Number, Ratio};
use crate::text::string_from_chars;

verus! {

/// The mathematical value of a runtime [`Value`].
pub enum Val {
    Num(Ratio),
    Bool(bool),
    Str(Seq<char>),
    Nil,
}

/// A runtime value.
#[derive(Clone, Debug)]
pub enum Value {
    Number(Number),
    Bool(bool),
    String(String),
    Nil,
}

impl View for Value {
    type V = Val;

    open spec fn view(&self) -> Val {
        match self {
            Value::Number(n) => Val::Num(n@),
            Value::Bool(b) => Val::Bool(*b),
            Value::String(s) => Val::Str(s@),
            Value::Nil => Val::Nil,
        }
    }
}

/// `nil` and `false` are falsy; every other value is truthy.
pub open spec fn truthy(v: Val) -> bool {
    match v {
        Val::Nil => false,
        Val::Bool(b) => b,
        _ => true,
    }
}

/// Equality between values of the same variant; values of different
/// variants are never equal.
pub open spec fn val_eq(a: Val, b: Val) -> bool {
    match (a, b) {
        (Val::Num(x), Val::Num(y)) => ratio_eq(x, y),
        (Val::Str(x), Val::Str(y)) => x == y,
        (Val::Bool(x), Val::Bool(y)) => x == y,
        (Val::Nil, Val::Nil) => true,
        _ => false,
    }
}

/// The text `print` writes for a value.
pub open spec fn val_text(v: Val) -> Seq<char> {
    match v {
        Val::Num(r) => ratio_text(r),
        Val::Bool(b) => if b { seq!['t', 'r', 'u', 'e'] } else { seq!['f', 'a', 'l', 's', 'e'] },
        Val::Str(s) => s,
        Val::Nil => seq!['n', 'i', 'l'],
    }
}

impl Value {
    /// A copy with the same value.
    pub fn duplicate(&self) -> (r: Value)
        ensures
            r@ == self@,
    {
        match self {
            Value::Number(n) => Value::Number(*n),
            Value::Bool(b) => Value::Bool(*b),
            Value::String(s) => Value::String(s.clone()),
            Value::Nil => Value::Nil,
        }
    }

    pub fn is_truthy(&self) -> (r: bool)
        ensures
            r == truthy(self@),
    {
        match self {
            Value::Nil => false,
            Value::Bool(b) => *b,
            _ => true,
        }
    }

    pub fn is_equal(&self, other: &Value) -> (r: bool)
        ensures
            r == val_eq(self@, other@),
    {
        match (self, other) {
            (Value::Number(l), Value::Number(r)) => l.equals(r),
            (Value::String(l), Value::String(r)) => *l == *r,
            (Value::Bool(l), Value::Bool(r)) => *l == *r,
            (Value::Nil, Value::Nil) => true,
            _ => false,
        }
    }

    /// The text `print` writes for the value.
    pub fn to_text(&self) -> (r: String)
        ensures
            r@ == val_text(self@),
    {
        match self {
            Value::Number(n) => string_from_chars(&n.to_text()),
            Value::Bool(b) => {
                if *b {
                    string_from_chars(&vec!['t', 'r', 'u', 'e'])
                } else {
                    string_from_chars(&vec!['f', 'a', 'l', 's', 'e'])
                }
            },
            Value::String(s) => s.clone(),
            Value::Nil => string_from_chars(&vec!['n', 'i', 'l']),
        }
    }
}

} // verus!
