use vstd::prelude::*;

use crate::ast::{
    AssignNode, BinaryNode, ExprNode, GroupingNode, LiteralNode, LogicalNode, StmtNode, UnaryNode,
};
use crate::error::SyntaxError;
use crate::token::{Token, TokenLiteral, TokenType};

verus! {

/// The mathematical value of a [`SyntaxError`].
pub enum SyntaxErrorView {
    UnmatchedToken(Token, Seq<char>),
    ExpectedToken(TokenType, Token, Seq<char>),
    InvalidAssignment(Token),
}

pub open spec fn error_view(e: SyntaxError) -> SyntaxErrorView {
    match e {
        SyntaxError::UnmatchedToken(t, m) => SyntaxErrorView::UnmatchedToken(t, m@),
        SyntaxError::ExpectedToken(k, t, m) => SyntaxErrorView::ExpectedToken(k, t, m@),
        SyntaxError::InvalidAssignment(t) => SyntaxErrorView::InvalidAssignment(t),
    }
}

/// The mathematical value of a [`StmtNode`]: a block holds a sequence.
pub enum StmtView {
    Print(ExprNode),
    Expr(ExprNode),
    VarDec(Token, ExprNode),
    Block(Seq<StmtView>),
    IfStmt(ExprNode, Box<StmtView>, Option<Box<StmtView>>),
    While(ExprNode, Box<StmtView>),
}

pub open spec fn stmt_view(s: StmtNode) -> StmtView
    decreases s, 0nat,
{
    match s {
        StmtNode::Print(e) => StmtView::Print(e),
        StmtNode::Expr(e) => StmtView::Expr(e),
        StmtNode::VarDec(v) => StmtView::VarDec(v.name, v.value_expr),
        StmtNode::Block(b) => StmtView::Block(stmts_view(b.0@, 0)),
        StmtNode::IfStmt(n) => StmtView::IfStmt(
            n.condition,
            Box::new(stmt_view(*n.then_branch)),
            match n.else_branch {
                Some(e) => Some(Box::new(stmt_view(*e))),
                None => None,
            },
        ),
        StmtNode::While(w) => StmtView::While(w.condition, Box::new(stmt_view(*w.body))),
    }
}

/// The views of the statements of `v` from index `i` on.
pub open spec fn stmts_view(v: Seq<StmtNode>, i: int) -> Seq<StmtView>
    decreases v, v.len() - i,
{
    if i < 0 || i >= v.len() {
        Seq::empty()
    } else {
        seq![stmt_view(v[i])] + stmts_view(v, i + 1)
    }
}

pub open spec fn expr_result(r: Result<ExprNode, SyntaxError>) -> Result<ExprNode, SyntaxErrorView> {
    match r {
        Ok(e) => Ok(e),
        Err(x) => Err(error_view(x)),
    }
}

pub open spec fn stmt_result(r: Result<StmtNode, SyntaxError>) -> Result<StmtView, SyntaxErrorView> {
    match r {
        Ok(s) => Ok(stmt_view(s)),
        Err(x) => Err(error_view(x)),
    }
}

pub open spec fn errors_view(v: Seq<SyntaxError>) -> Seq<SyntaxErrorView> {
    v.map_values(|e: SyntaxError| error_view(e))
}

/// Appending a statement appends its view.
pub proof fn lemma_stmts_view_push(v: Seq<StmtNode>, i: int, s: StmtNode)
    requires
        0 <= i <= v.len(),
    ensures
        stmts_view(v.push(s), i) == stmts_view(v, i).push(stmt_view(s)),
    decreases v.len() - i,
{
    if i < v.len() {
        lemma_stmts_view_push(v, i + 1, s);
        assert(v.push(s)[i] == v[i]);
        assert(stmts_view(v.push(s), i) =~= stmts_view(v, i).push(stmt_view(s)));
    } else {
        assert(stmts_view(v.push(s), i + 1) =~= Seq::<StmtView>::empty());
        assert(stmts_view(v.push(s), i) =~= stmts_view(v, i).push(stmt_view(s)));
    }
}

/// What parsing from a position gives: a value or the first error, and the
/// position reached.
pub type Parsed<T> = (Result<T, SyntaxErrorView>, int);

pub open spec fn kind_at(ts: Seq<Token>, p: int) -> TokenType {
    if 0 <= p < ts.len() {
        ts[p].t_type
    } else {
        TokenType::Eof
    }
}

/// The token at `p` has kind `k`, and is not the end of input.
pub open spec fn at(ts: Seq<Token>, p: int, k: TokenType) -> bool {
    kind_at(ts, p) != TokenType::Eof && kind_at(ts, p) == k
}

/// A position past `p` that no well-formed parse reaches; a guard only.
pub open spec fn stuck(ts: Seq<Token>, p: int, q: int) -> bool {
    q <= p || q > ts.len()
}

/// The error for a missing token of kind `k` at `p`.
pub open spec fn expected(ts: Seq<Token>, p: int, k: TokenType, msg: Seq<char>) -> SyntaxErrorView {
    SyntaxErrorView::ExpectedToken(k, ts[p], msg)
}

/// Operator tokens of a binary precedence level: `or` 2, `and` 3,
/// equality 4, comparison 5, terms 6, factors 7.
pub open spec fn level_op(lvl: int, k: TokenType) -> bool {
    if lvl == 2 {
        k == TokenType::Or
    } else if lvl == 3 {
        k == TokenType::And
    } else if lvl == 4 {
        k == TokenType::BangEqual || k == TokenType::EqualEqual
    } else if lvl == 5 {
        k == TokenType::Greater || k == TokenType::GreaterEqual || k == TokenType::Less || k
            == TokenType::LessEqual
    } else if lvl == 6 {
        k == TokenType::Plus || k == TokenType::Minus
    } else {
        k == TokenType::Slash || k == TokenType::Star
    }
}

/// The node for `left op right` at level `lvl`: logical for `or` and `and`.
pub open spec fn level_node(lvl: int, left: ExprNode, op: Token, right: ExprNode) -> ExprNode {
    if lvl <= 3 {
        ExprNode::Logical(LogicalNode { left: Box::new(left), operator: op, right: Box::new(right) })
    } else {
        ExprNode::Binary(BinaryNode { left: Box::new(left), operator: op, right: Box::new(right) })
    }
}

/// `expression (, expression)*` from `p`: only the last expression is kept.
pub open spec fn p_comma(ts: Seq<Token>, p: int) -> Parsed<ExprNode>
    decreases ts.len() - p, 13nat,
{
    let (r, p1) = p_expression(ts, p);
    match r {
        Err(e) => (Err(e), p1),
        Ok(e) => if stuck(ts, p, p1) {
            (Ok(e), p1)
        } else {
            p_comma_rest(ts, p1, e)
        },
    }
}

pub open spec fn p_comma_rest(ts: Seq<Token>, q: int, e: ExprNode) -> Parsed<ExprNode>
    decreases ts.len() - q, 14nat,
{
    if q < ts.len() && at(ts, q, TokenType::Comma) {
        let (r, q1) = p_expression(ts, q + 1);
        match r {
            Err(x) => (Err(x), q1),
            Ok(e2) => if stuck(ts, q, q1) {
                (Ok(e2), q1)
            } else {
                p_comma_rest(ts, q1, e2)
            },
        }
    } else {
        (Ok(e), q)
    }
}

pub open spec fn p_expression(ts: Seq<Token>, p: int) -> Parsed<ExprNode>
    decreases ts.len() - p, 12nat,
{
    p_assignment(ts, p)
}

/// Right-associative assignment; its target must be a variable.
pub open spec fn p_assignment(ts: Seq<Token>, p: int) -> Parsed<ExprNode>
    decreases ts.len() - p, 11nat,
{
    let (r, p1) = p_level(ts, p, 2);
    match r {
        Err(x) => (Err(x), p1),
        Ok(e) => if p1 < ts.len() && at(ts, p1, TokenType::Equal) && !stuck(ts, p, p1) {
            let (r2, p2) = p_assignment(ts, p1 + 1);
            match r2 {
                Err(x) => (Err(x), p2),
                Ok(v) => match e {
                    ExprNode::Variable(name) => (
                        Ok(ExprNode::Assign(AssignNode { name, value: Box::new(v) })),
                        p2,
                    ),
                    _ => (Err(SyntaxErrorView::InvalidAssignment(ts[p1])), p2),
                },
            }
        } else {
            (Ok(e), p1)
        },
    }
}

/// A left-associative binary level `lvl` (2 to 7) from `p`.
pub open spec fn p_level(ts: Seq<Token>, p: int, lvl: int) -> Parsed<ExprNode>
    decreases ts.len() - p, (if 2 <= lvl <= 7 { 12 - lvl } else { 0int }) as nat,
{
    if !(2 <= lvl <= 7) {
        (Ok(ExprNode::Literal(LiteralNode::Nil)), p)
    } else {
        let (r, p1) = if lvl == 7 {
            p_unary(ts, p)
        } else {
            p_level(ts, p, lvl + 1)
        };
        match r {
            Err(x) => (Err(x), p1),
            Ok(e) => if stuck(ts, p, p1) {
                (Ok(e), p1)
            } else {
                p_level_rest(ts, p1, lvl, e)
            },
        }
    }
}

pub open spec fn p_level_rest(ts: Seq<Token>, q: int, lvl: int, left: ExprNode) -> Parsed<ExprNode>
    decreases ts.len() - q, 15nat,
{
    if 2 <= lvl <= 7 && q < ts.len() && kind_at(ts, q) != TokenType::Eof && level_op(
        lvl,
        kind_at(ts, q),
    ) {
        let (r, q1) = if lvl == 7 {
            p_unary(ts, q + 1)
        } else {
            p_level(ts, q + 1, lvl + 1)
        };
        match r {
            Err(x) => (Err(x), q1),
            Ok(right) => if stuck(ts, q, q1) {
                (Ok(right), q1)
            } else {
                p_level_rest(ts, q1, lvl, level_node(lvl, left, ts[q], right))
            },
        }
    } else {
        (Ok(left), q)
    }
}

/// `!` and `-`, right-associative, then a primary.
pub open spec fn p_unary(ts: Seq<Token>, p: int) -> Parsed<ExprNode>
    decreases ts.len() - p, 4nat,
{
    if p < ts.len() && (at(ts, p, TokenType::Bang) || at(ts, p, TokenType::Minus)) {
        let (r, p1) = p_unary(ts, p + 1);
        match r {
            Err(x) => (Err(x), p1),
            Ok(e) => (Ok(ExprNode::Unary(UnaryNode { operator: ts[p], right: Box::new(e) })), p1),
        }
    } else {
        p_primary(ts, p)
    }
}

pub open spec fn p_primary(ts: Seq<Token>, p: int) -> Parsed<ExprNode>
    decreases ts.len() - p, 3nat,
{
    if at(ts, p, TokenType::False) {
        (Ok(ExprNode::Literal(LiteralNode::False)), p + 1)
    } else if at(ts, p, TokenType::True) {
        (Ok(ExprNode::Literal(LiteralNode::True)), p + 1)
    } else if at(ts, p, TokenType::Nil) {
        (Ok(ExprNode::Literal(LiteralNode::Nil)), p + 1)
    } else if at(ts, p, TokenType::Number) {
        match ts[p].literal {
            TokenLiteral::Number(n) => (Ok(ExprNode::Literal(LiteralNode::Number(n))), p + 1),
            _ => (Err(SyntaxErrorView::UnmatchedToken(ts[p], "Expected a number value"@)), p + 1),
        }
    } else if at(ts, p, TokenType::String) {
        match ts[p].literal {
            TokenLiteral::String(s) => (Ok(ExprNode::Literal(LiteralNode::String(s))), p + 1),
            _ => (Err(SyntaxErrorView::UnmatchedToken(ts[p], "Expected a string value"@)), p + 1),
        }
    } else if at(ts, p, TokenType::Identifier) {
        (Ok(ExprNode::Variable(ts[p])), p + 1)
    } else if at(ts, p, TokenType::LeftParen) {
        let (r, p1) = p_expression(ts, p + 1);
        match r {
            Err(x) => (Err(x), p1),
            Ok(e) => if at(ts, p1, TokenType::RightParen) {
                (Ok(ExprNode::Grouping(GroupingNode { inner: Box::new(e) })), p1 + 1)
            } else {
                (Err(expected(ts, p1, TokenType::RightParen, "Expect ')' after expression"@)), p1)
            },
        }
    } else {
        (Err(SyntaxErrorView::UnmatchedToken(ts[p], "Expected expression"@)), p)
    }
}

/// A declaration from `p`: `var ...` or a statement.
pub open spec fn p_declaration(ts: Seq<Token>, p: int) -> Parsed<StmtView>
    decreases ts.len() - p, 30nat,
{
    if p < ts.len() && at(ts, p, TokenType::Var) {
        p_var(ts, p + 1)
    } else {
        p_statement(ts, p)
    }
}

/// `identifier (= expression)? ;`, after `var`; no initializer means `nil`.
pub open spec fn p_var(ts: Seq<Token>, p: int) -> Parsed<StmtView>
    decreases ts.len() - p, 25nat,
{
    if !at(ts, p, TokenType::Identifier) {
        (Err(expected(ts, p, TokenType::Identifier, "Expected identifier"@)), p)
    } else {
        let (r, q) = if at(ts, p + 1, TokenType::Equal) && p + 2 <= ts.len() {
            p_expression(ts, p + 2)
        } else {
            (Ok(ExprNode::Literal(LiteralNode::Nil)), p + 1)
        };
        match r {
            Err(x) => (Err(x), q),
            Ok(init) => if at(ts, q, TokenType::Semicolon) {
                (Ok(StmtView::VarDec(ts[p], init)), q + 1)
            } else {
                (Err(expected(ts, q, TokenType::Semicolon, "Expected ';'"@)), q)
            },
        }
    }
}

pub open spec fn p_statement(ts: Seq<Token>, p: int) -> Parsed<StmtView>
    decreases ts.len() - p, 29nat,
{
    if p < ts.len() && at(ts, p, TokenType::LeftBrace) {
        p_block(ts, p + 1)
    } else if p < ts.len() && at(ts, p, TokenType::If) {
        p_if(ts, p + 1)
    } else if p < ts.len() && at(ts, p, TokenType::Print) {
        p_print(ts, p + 1)
    } else if p < ts.len() && at(ts, p, TokenType::While) {
        p_while(ts, p + 1)
    } else if p < ts.len() && at(ts, p, TokenType::For) {
        p_for(ts, p + 1)
    } else {
        p_expression_statement(ts, p)
    }
}

/// Declarations up to `}`, after `{`.
pub open spec fn p_block(ts: Seq<Token>, p: int) -> Parsed<StmtView>
    decreases ts.len() - p, 33nat,
{
    p_block_rest(ts, p, Seq::empty())
}

pub open spec fn p_block_rest(ts: Seq<Token>, p: int, acc: Seq<StmtView>) -> Parsed<StmtView>
    decreases ts.len() - p, 32nat,
{
    if !at(ts, p, TokenType::RightBrace) && kind_at(ts, p) != TokenType::Eof {
        let (r, p1) = p_declaration(ts, p);
        match r {
            Err(x) => (Err(x), p1),
            Ok(s) => if stuck(ts, p, p1) {
                (Ok(StmtView::Block(acc.push(s))), p1)
            } else {
                p_block_rest(ts, p1, acc.push(s))
            },
        }
    } else if at(ts, p, TokenType::RightBrace) {
        (Ok(StmtView::Block(acc)), p + 1)
    } else {
        (Err(expected(ts, p, TokenType::RightBrace, "Expected closing brace '}'"@)), p)
    }
}

/// `comma-expression ;` after `print`.
pub open spec fn p_print(ts: Seq<Token>, p: int) -> Parsed<StmtView>
    decreases ts.len() - p, 26nat,
{
    let (r, p1) = p_comma(ts, p);
    match r {
        Err(x) => (Err(x), p1),
        Ok(e) => if at(ts, p1, TokenType::Semicolon) {
            (Ok(StmtView::Print(e)), p1 + 1)
        } else {
            (Err(expected(ts, p1, TokenType::Semicolon, "Expected ';'"@)), p1)
        },
    }
}

pub open spec fn p_expression_statement(ts: Seq<Token>, p: int) -> Parsed<StmtView>
    decreases ts.len() - p, 28nat,
{
    let (r, p1) = p_comma(ts, p);
    match r {
        Err(x) => (Err(x), p1),
        Ok(e) => if at(ts, p1, TokenType::Semicolon) {
            (Ok(StmtView::Expr(e)), p1 + 1)
        } else {
            (Err(expected(ts, p1, TokenType::Semicolon, "Expected ';'"@)), p1)
        },
    }
}

/// `( expression ) statement` after `while`.
pub open spec fn p_while(ts: Seq<Token>, p: int) -> Parsed<StmtView>
    decreases ts.len() - p, 26nat,
{
    if !at(ts, p, TokenType::LeftParen) {
        (Err(expected(ts, p, TokenType::LeftParen, "While condition must start with left paren '('"@)), p)
    } else {
        let (r, p1) = p_expression(ts, p + 1);
        match r {
            Err(x) => (Err(x), p1),
            Ok(c) => if !at(ts, p1, TokenType::RightParen) {
                (Err(expected(ts, p1, TokenType::RightParen, "While condition must end with right paren ')'"@)), p1)
            } else if stuck(ts, p, p1 + 1) {
                (Err(expected(ts, p1, TokenType::RightParen, Seq::empty())), p1)
            } else {
                let (rb, p2) = p_statement(ts, p1 + 1);
                match rb {
                    Err(x) => (Err(x), p2),
                    Ok(b) => (Ok(StmtView::While(c, Box::new(b))), p2),
                }
            },
        }
    }
}

/// `( comma-expression ) statement (else statement)?` after `if`.
pub open spec fn p_if(ts: Seq<Token>, p: int) -> Parsed<StmtView>
    decreases ts.len() - p, 26nat,
{
    if !at(ts, p, TokenType::LeftParen) {
        (Err(expected(ts, p, TokenType::LeftParen, "If statements require '(' before condition."@)), p)
    } else {
        let (r, p1) = p_comma(ts, p + 1);
        match r {
            Err(x) => (Err(x), p1),
            Ok(c) => if !at(ts, p1, TokenType::RightParen) {
                (Err(expected(ts, p1, TokenType::RightParen, "If statements require ')' after condition."@)), p1)
            } else if stuck(ts, p, p1 + 1) {
                (Err(expected(ts, p1, TokenType::RightParen, Seq::empty())), p1)
            } else {
                let (rt, p2) = p_statement(ts, p1 + 1);
                match rt {
                    Err(x) => (Err(x), p2),
                    Ok(t) => if at(ts, p2, TokenType::Else) && !stuck(ts, p, p2 + 1) {
                        let (re, p3) = p_statement(ts, p2 + 1);
                        match re {
                            Err(x) => (Err(x), p3),
                            Ok(e) => (Ok(StmtView::IfStmt(c, Box::new(t), Some(Box::new(e)))), p3),
                        }
                    } else {
                        (Ok(StmtView::IfStmt(c, Box::new(t), None)), p2)
                    },
                }
            },
        }
    }
}

/// The initializer of a `for`, from `q`: a declaration, an expression
/// statement, or a lone `;` standing for `nil;`.
pub open spec fn p_for_init(ts: Seq<Token>, q: int) -> Parsed<StmtView>
    decreases ts.len() - q, 31nat,
{
    if q < ts.len() && at(ts, q, TokenType::Var) {
        p_var(ts, q + 1)
    } else if !at(ts, q, TokenType::Semicolon) {
        p_expression_statement(ts, q)
    } else {
        (Ok(StmtView::Expr(ExprNode::Literal(LiteralNode::Nil))), q + 1)
    }
}

/// `( init cond? ; incr? ) body` after `for`, desugared into a block of the
/// initializer and a loop whose body is a block of `body` and `incr`; a
/// missing condition stands as `true` and a missing increment as `nil`.
pub open spec fn p_for(ts: Seq<Token>, p: int) -> Parsed<StmtView>
    decreases ts.len() - p, 26nat,
{
    if !at(ts, p, TokenType::LeftParen) {
        (Err(expected(ts, p, TokenType::LeftParen, "For initializer must start with left paren '('"@)), p)
    } else {
        let (ri, a) = p_for_init(ts, p + 1);
        match ri {
            Err(x) => (Err(x), a),
            Ok(init) => {
                let (rc, b) = if !at(ts, a, TokenType::Semicolon) && !stuck(ts, p, a) {
                    p_expression(ts, a)
                } else {
                    (Ok(ExprNode::Literal(LiteralNode::True)), a)
                };
                match rc {
                    Err(x) => (Err(x), b),
                    Ok(cond) => if !at(ts, b, TokenType::Semicolon) {
                        (Err(expected(ts, b, TokenType::Semicolon, "For condition and increment must be separated by a semicolon ';'"@)), b)
                    } else if stuck(ts, p, b + 1) {
                        (Err(expected(ts, b, TokenType::Semicolon, Seq::empty())), b)
                    } else {
                        let (rn, c) = if !at(ts, b + 1, TokenType::RightParen) {
                            p_expression(ts, b + 1)
                        } else {
                            (Ok(ExprNode::Literal(LiteralNode::Nil)), b + 1)
                        };
                        match rn {
                            Err(x) => (Err(x), c),
                            Ok(incr) => if !at(ts, c, TokenType::RightParen) {
                                (Err(expected(ts, c, TokenType::RightParen, "For increment must be followed by a right paren ')'"@)), c)
                            } else if stuck(ts, p, c + 1) {
                                (Err(expected(ts, c, TokenType::RightParen, Seq::empty())), c)
                            } else {
                                let (rb, d) = p_statement(ts, c + 1);
                                match rb {
                                    Err(x) => (Err(x), d),
                                    Ok(body) => (
                                        Ok(
                                            StmtView::Block(
                                                seq![
                                                    init,
                                                    StmtView::While(
                                                        cond,
                                                        Box::new(
                                                            StmtView::Block(
                                                                seq![body, StmtView::Expr(incr)],
                                                            ),
                                                        ),
                                                    ),
                                                ],
                                            ),
                                        ),
                                        d,
                                    ),
                                }
                            },
                        }
                    },
                }
            },
        }
    }
}

/// Where recovery after an error that stopped at `p` resumes: one token on
/// (unless at the end), then the next statement boundary.
pub open spec fn recover(ts: Seq<Token>, p: int) -> int {
    boundary_from(ts, if kind_at(ts, p) == TokenType::Eof { p } else { p + 1 })
}

/// Where error recovery starting at `j` stops: the first position from `j`
/// on that holds the end of input or a keyword that starts a statement, or
/// that follows a semicolon.
pub open spec fn boundary_from(ts: Seq<Token>, j: int) -> int
    decreases ts.len() - j,
{
    if j < 1 || j >= ts.len() {
        j
    } else if ts[j].t_type == TokenType::Eof || ts[j - 1].t_type == TokenType::Semicolon
        || starts_statement(ts[j].t_type) {
        j
    } else {
        boundary_from(ts, j + 1)
    }
}

/// The kinds of token that begin a statement, where recovery resumes.
pub open spec fn starts_statement(t: TokenType) -> bool {
    ||| t == TokenType::Class
    ||| t == TokenType::For
    ||| t == TokenType::Fun
    ||| t == TokenType::If
    ||| t == TokenType::Print
    ||| t == TokenType::Return
    ||| t == TokenType::Var
    ||| t == TokenType::While
}

/// The whole parse from `p`: the statements parsed and the errors met, in
/// input order. After an error the parse resumes where [`recover`] says.
pub open spec fn p_program(ts: Seq<Token>, p: int) -> (Seq<StmtView>, Seq<SyntaxErrorView>)
    decreases ts.len() - p,
{
    if p < 0 || p >= ts.len() || kind_at(ts, p) == TokenType::Eof {
        (Seq::empty(), Seq::empty())
    } else {
        let (r, p1) = p_declaration(ts, p);
        match r {
            Ok(s) => if stuck(ts, p, p1) {
                (seq![s], Seq::empty())
            } else {
                let rest = p_program(ts, p1);
                (seq![s] + rest.0, rest.1)
            },
            Err(x) => {
                let q = recover(ts, p1);
                if stuck(ts, p, q) {
                    (Seq::empty(), seq![x])
                } else {
                    let rest = p_program(ts, q);
                    (rest.0, seq![x] + rest.1)
                }
            },
        }
    }
}

} // verus!
