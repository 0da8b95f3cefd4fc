use vstd::prelude::*;

use crate::ast::{ExprNode, LiteralNode};
use crate::number::ratio_text;
use crate::text::{chars_of, string_from_chars};

verus! {

/// How a literal is written.
pub open spec fn literal_text(l: LiteralNode) -> Seq<char> {
    match l {
        LiteralNode::String(s) => s@,
        LiteralNode::Number(n) => ratio_text(n@),
        LiteralNode::True => seq!['t', 'r', 'u', 'e'],
        LiteralNode::False => seq!['f', 'a', 'l', 's', 'e'],
        LiteralNode::Nil => seq!['n', 'i', 'l'],
    }
}

/// `(head first second)`, or `(head first)` where `second` is absent.
pub open spec fn parenthesized(head: Seq<char>, first: Seq<char>, second: Option<Seq<char>>) -> Seq<char> {
    match second {
        Some(s) => seq!['('] + head + seq![' '] + first + seq![' '] + s + seq![')'],
        None => seq!['('] + head + seq![' '] + first + seq![')'],
    }
}

/// An expression in fully parenthesized prefix form, such as `(+ 1 (* 2 3))`.
pub open spec fn expr_text(e: ExprNode) -> Seq<char>
    decreases e,
{
    match e {
        ExprNode::Variable(t) => t.lexeme@,
        ExprNode::Assign(a) => parenthesized(seq!['='], a.name.lexeme@, Some(expr_text(*a.value))),
        ExprNode::Literal(l) => literal_text(l),
        ExprNode::Unary(u) => parenthesized(u.operator.lexeme@, expr_text(*u.right), None),
        ExprNode::Binary(b) => parenthesized(
            b.operator.lexeme@,
            expr_text(*b.left),
            Some(expr_text(*b.right)),
        ),
        ExprNode::Grouping(g) => parenthesized(
            seq!['g', 'r', 'o', 'u', 'p'],
            expr_text(*g.inner),
            None,
        ),
        ExprNode::Logical(l) => parenthesized(
            l.operator.lexeme@,
            expr_text(*l.left),
            Some(expr_text(*l.right)),
        ),
    }
}

/// An arithmetic expression in reverse Polish notation, such as `1 2 3 * +`;
/// empty for an expression that is not made of number literals, unary and
/// binary operators and groupings.
pub open spec fn rpn_text(e: ExprNode) -> Seq<char>
    decreases e,
{
    match e {
        ExprNode::Literal(LiteralNode::Number(n)) => ratio_text(n@),
        ExprNode::Unary(u) => {
            let r = rpn_text(*u.right);
            if r.len() == 0 {
                Seq::empty()
            } else {
                r + seq![' '] + u.operator.lexeme@
            }
        },
        ExprNode::Binary(b) => {
            let l = rpn_text(*b.left);
            let r = rpn_text(*b.right);
            if l.len() == 0 || r.len() == 0 {
                Seq::empty()
            } else {
                l + seq![' '] + r + seq![' '] + b.operator.lexeme@
            }
        },
        ExprNode::Grouping(g) => rpn_text(*g.inner),
        _ => Seq::empty(),
    }
}

fn push_text(v: &mut Vec<char>, s: &String)
    ensures
        final(v)@ == old(v)@ + s@,
{
    let mut c = chars_of(s.as_str());
    v.append(&mut c);
}

fn literal_chars(l: &LiteralNode) -> (r: Vec<char>)
    ensures
        r@ == literal_text(*l),
{
    match l {
        LiteralNode::String(s) => chars_of(s.as_str()),
        LiteralNode::Number(n) => n.to_text(),
        LiteralNode::True => vec!['t', 'r', 'u', 'e'],
        LiteralNode::False => vec!['f', 'a', 'l', 's', 'e'],
        LiteralNode::Nil => vec!['n', 'i', 'l'],
    }
}

fn parenthesize(head: Vec<char>, first: Vec<char>, second: Option<Vec<char>>) -> (r: Vec<char>)
    ensures
        r@ == parenthesized(
            head@,
            first@,
            match second {
                Some(s) => Some(s@),
                None => None,
            },
        ),
{
    let ghost (hv, fv) = (head@, first@);
    let mut r: Vec<char> = vec!['('];
    let mut head = head;
    let mut first = first;
    r.append(&mut head);
    r.push(' ');
    r.append(&mut first);
    match second {
        Some(s) => {
            let ghost sv = s@;
            let mut s = s;
            r.push(' ');
            r.append(&mut s);
            r.push(')');
            proof {
                assert(r@ =~= seq!['('] + hv + seq![' '] + fv + seq![' '] + sv + seq![')']);
            }
        },
        None => {
            r.push(')');
            proof {
                assert(r@ =~= seq!['('] + hv + seq![' '] + fv + seq![')']);
            }
        },
    }
    r
}

fn expr_chars(e: &ExprNode) -> (r: Vec<char>)
    ensures
        r@ == expr_text(*e),
    decreases e,
{
    match e {
        ExprNode::Variable(t) => chars_of(t.lexeme.as_str()),
        ExprNode::Assign(a) => parenthesize(
            vec!['='],
            chars_of(a.name.lexeme.as_str()),
            Some(expr_chars(&a.value)),
        ),
        ExprNode::Literal(l) => literal_chars(l),
        ExprNode::Unary(u) => parenthesize(
            chars_of(u.operator.lexeme.as_str()),
            expr_chars(&u.right),
            None,
        ),
        ExprNode::Binary(b) => parenthesize(
            chars_of(b.operator.lexeme.as_str()),
            expr_chars(&b.left),
            Some(expr_chars(&b.right)),
        ),
        ExprNode::Grouping(g) => parenthesize(
            vec!['g', 'r', 'o', 'u', 'p'],
            expr_chars(&g.inner),
            None,
        ),
        ExprNode::Logical(l) => parenthesize(
            chars_of(l.operator.lexeme.as_str()),
            expr_chars(&l.left),
            Some(expr_chars(&l.right)),
        ),
    }
}

fn rpn_chars(e: &ExprNode) -> (r: Vec<char>)
    ensures
        r@ == rpn_text(*e),
    decreases e,
{
    match e {
        ExprNode::Literal(LiteralNode::Number(n)) => n.to_text(),
        ExprNode::Unary(u) => {
            let mut r = rpn_chars(&u.right);
            if r.len() == 0 {
                return Vec::new();
            }
            r.push(' ');
            push_text(&mut r, &u.operator.lexeme);
            r
        },
        ExprNode::Binary(b) => {
            let mut l = rpn_chars(&b.left);
            let mut r = rpn_chars(&b.right);
            if l.len() == 0 || r.len() == 0 {
                return Vec::new();
            }
            let ghost (lv, rv) = (l@, r@);
            l.push(' ');
            l.append(&mut r);
            l.push(' ');
            push_text(&mut l, &b.operator.lexeme);
            proof {
                assert(l@ =~= lv + seq![' '] + rv + seq![' '] + b.operator.lexeme@);
            }
            l
        },
        ExprNode::Grouping(g) => rpn_chars(&g.inner),
        _ => Vec::new(),
    }
}

/// Writes expressions in fully parenthesized prefix form.
#[derive(Clone, Copy, Debug)]
pub struct PrettyPrinter {}

impl PrettyPrinter {
    pub fn render(&self, e: &ExprNode) -> (r: String)
        ensures
            r@ == expr_text(*e),
    {
        string_from_chars(&expr_chars(e))
    }
}

/// Writes arithmetic expressions in reverse Polish notation.
#[derive(Clone, Copy, Debug)]
pub struct Rpn {}

impl Rpn {
    pub fn render(&self, e: &ExprNode) -> (r: String)
        ensures
            r@ == rpn_text(*e),
    {
        string_from_chars(&rpn_chars(e))
    }
}

} // verus!
