use vstd::prelude::*;

use crate::ast::{expr_kinds, kind_sig, sig, TokSig, expr_level, expr_wf, stmt_wf, BlockNode, ExprNode, IfNode, LiteralNode, StmtNode, VarNode};
use crate::error::SyntaxError;
use crate::grammar::{stuck, stmt_view, SyntaxErrorView, StmtView, error_view, expected, at, boundary_from, errors_view, expr_result, lemma_stmts_view_push, p_assignment, p_block, p_block_rest, p_comma, p_comma_rest, p_declaration, p_expression, p_expression_statement, p_for, p_for_init, p_if, p_level, p_level_rest, p_primary, p_print, p_program, p_statement, p_unary, p_var, p_while, recover, starts_statement, stmt_result, stmts_view, level_node};
use crate::token::{Token, TokenLiteral, TokenType};

verus! {

/// A recursive-descent parser with one token of lookahead over a token
/// sequence that ends with the end-of-input token.
pub struct Parser {
    tokens: Vec<Token>,
    current: usize,
}

/// A token sequence the parser accepts: it ends with the end-of-input token.
pub open spec fn tokens_end_with_eof(tokens: Seq<Token>) -> bool {
    tokens.len() >= 1 && tokens.last().t_type == TokenType::Eof
}

/// The kinds of token that can begin a primary expression.
pub open spec fn starts_primary(t: TokenType) -> bool {
    ||| t == TokenType::False
    ||| t == TokenType::True
    ||| t == TokenType::Nil
    ||| t == TokenType::Number
    ||| t == TokenType::String
    ||| t == TokenType::Identifier
    ||| t == TokenType::LeftParen
}

/// The signatures of a sequence of tokens.
pub open spec fn token_kinds(ts: Seq<Token>) -> Seq<TokSig> {
    ts.map_values(|t: Token| sig(t))
}

/// `ks` ends with the expression `e`, preceded by a comma or by nothing: a
/// comma sequence keeps only its last expression.
pub open spec fn comma_written(e: ExprNode, ks: Seq<TokSig>) -> bool {
    let k = expr_kinds(e);
    &&& ks.len() >= k.len()
    &&& ks.subrange(ks.len() - k.len(), ks.len() as int) == k
    &&& (ks.len() == k.len() || ks[ks.len() - k.len() - 1] == kind_sig(TokenType::Comma))
}

/// The statement `s` is a derivation of the token kinds `ks`.
pub open spec fn written(s: StmtNode, ks: Seq<TokSig>) -> bool
    decreases s, 0nat,
{
    match s {
        StmtNode::Print(e) => ks.len() >= 2 && ks[0] == kind_sig(TokenType::Print) && ks.last()
            == kind_sig(TokenType::Semicolon) && comma_written(e, ks.subrange(1, ks.len() - 1)),
        StmtNode::Expr(e) => ks.len() >= 1 && ks.last() == kind_sig(TokenType::Semicolon) && comma_written(
            e,
            ks.drop_last(),
        ),
        StmtNode::VarDec(v) => v.name.t_type == TokenType::Identifier && ((ks == seq![
            kind_sig(TokenType::Var),
            sig(v.name),
            kind_sig(TokenType::Semicolon),
        ] && v.value_expr matches ExprNode::Literal(LiteralNode::Nil)) || ks == seq![
            kind_sig(TokenType::Var),
            sig(v.name),
            kind_sig(TokenType::Equal),
        ] + expr_kinds(v.value_expr) + seq![kind_sig(TokenType::Semicolon)]),
        StmtNode::Block(b) => (ks.len() >= 2 && ks[0] == kind_sig(TokenType::LeftBrace) && ks.last()
            == kind_sig(TokenType::RightBrace) && seq_written(b.0@, 0, ks.subrange(1, ks.len() - 1)))
            || for_written(b, ks),
        StmtNode::IfStmt(n) => exists|i: int, j: int|
            {
                &&& 2 <= i < j <= ks.len()
                &&& ks[0] == kind_sig(TokenType::If)
                &&& ks[1] == kind_sig(TokenType::LeftParen)
                &&& comma_written(n.condition, ks.subrange(2, i))
                &&& ks[i] == kind_sig(TokenType::RightParen)
                &&& written(*n.then_branch, #[trigger] ks.subrange(i + 1, j))
                &&& match n.else_branch {
                    None => j == ks.len(),
                    Some(e) => j < ks.len() && ks[j] == kind_sig(TokenType::Else) && written(
                        *e,
                        ks.subrange(j + 1, ks.len() as int),
                    ),
                }
            },
        StmtNode::While(w) => {
            let i = 2 + expr_kinds(w.condition).len() as int;
            &&& i < ks.len()
            &&& ks[0] == kind_sig(TokenType::While)
            &&& ks[1] == kind_sig(TokenType::LeftParen)
            &&& ks.subrange(2, i) == expr_kinds(w.condition)
            &&& ks[i] == kind_sig(TokenType::RightParen)
            &&& written(*w.body, ks.subrange(i + 1, ks.len() as int))
        },
    }
}

/// The statements of `stmts` from index `i` on are derivations of
/// consecutive parts of `ks`, in order.
pub open spec fn seq_written(stmts: Seq<StmtNode>, i: int, ks: Seq<TokSig>) -> bool
    decreases stmts, stmts.len() - i,
{
    if i < 0 || i >= stmts.len() {
        ks.len() == 0
    } else {
        exists|k: int|
            0 <= k <= ks.len() && written(stmts[i], #[trigger] ks.subrange(0, k)) && seq_written(
                stmts,
                i + 1,
                ks.subrange(k, ks.len() as int),
            )
    }
}

/// The block `b` is the desugaring of a `for` loop written as `ks`:
/// `for ( init cond ; incr ) body`, where a missing initializer stands as
/// `nil;`, a missing condition as `true` and a missing increment as `nil`.
pub open spec fn for_written(b: BlockNode, ks: Seq<TokSig>) -> bool
    decreases b, 0nat,
{
    &&& b.0@.len() == 2
    &&& b.0@[1] matches StmtNode::While(w)
    &&& (*w.body) matches StmtNode::Block(inner)
    &&& inner.0@.len() == 2
    &&& inner.0@[1] matches StmtNode::Expr(incr)
    &&& exists|i: int, j: int, k: int|
        #![trigger ks.subrange(2, i), ks[j], ks[k]]
        {
            &&& 2 <= i <= j < k < ks.len()
            &&& ks[0] == kind_sig(TokenType::For)
            &&& ks[1] == kind_sig(TokenType::LeftParen)
            &&& ((b.0@[0] matches StmtNode::Expr(ExprNode::Literal(LiteralNode::Nil)) && ks.subrange(
                2,
                i,
            ) == seq![kind_sig(TokenType::Semicolon)]) || written(b.0@[0], ks.subrange(2, i)))
            &&& ((w.condition matches ExprNode::Literal(LiteralNode::True) && i == j)
                || ks.subrange(i, j) == expr_kinds(w.condition))
            &&& ks[j] == kind_sig(TokenType::Semicolon)
            &&& ((incr matches ExprNode::Literal(LiteralNode::Nil) && j + 1 == k) || ks.subrange(
                j + 1,
                k,
            ) == expr_kinds(incr))
            &&& ks[k] == kind_sig(TokenType::RightParen)
            &&& written(inner.0@[0], ks.subrange(k + 1, ks.len() as int))
        }
}

proof fn lemma_kinds_last(ts: Seq<Token>, a: int, b: int)
    requires
        0 <= a <= b < ts.len(),
    ensures
        token_kinds(ts.subrange(a, b + 1)) == token_kinds(ts.subrange(a, b)).push(sig(ts[b])),
{
    assert(token_kinds(ts.subrange(a, b + 1)) =~= token_kinds(ts.subrange(a, b)).push(sig(ts[b])));
}

proof fn lemma_kinds_first(ts: Seq<Token>, a: int, b: int)
    requires
        0 <= a < b <= ts.len(),
    ensures
        token_kinds(ts.subrange(a, b)) == seq![sig(ts[a])] + token_kinds(ts.subrange(a + 1, b)),
{
    assert(token_kinds(ts.subrange(a, b)) =~= seq![sig(ts[a])] + token_kinds(ts.subrange(a + 1, b)));
}

proof fn lemma_kinds_sub(ts: Seq<Token>, a: int, b: int, x: int, y: int)
    requires
        0 <= a <= b <= ts.len(),
        0 <= x <= y <= b - a,
    ensures
        token_kinds(ts.subrange(a, b)).subrange(x, y) == token_kinds(ts.subrange(a + x, a + y)),
        x < b - a ==> token_kinds(ts.subrange(a, b))[x] == sig(ts[a + x]),
{
    assert(token_kinds(ts.subrange(a, b)).subrange(x, y) =~= token_kinds(ts.subrange(a + x, a + y)));
}

proof fn lemma_seq_written_push(
    stmts: Seq<StmtNode>,
    i: int,
    ks: Seq<TokSig>,
    s: StmtNode,
    more: Seq<TokSig>,
)
    requires
        0 <= i <= stmts.len(),
        seq_written(stmts, i, ks),
        written(s, more),
    ensures
        seq_written(stmts.push(s), i, ks + more),
    decreases stmts.len() - i,
{
    reveal_with_fuel(seq_written, 2);
    let pushed = stmts.push(s);
    let all = ks + more;
    if i == stmts.len() {
        assert(all.subrange(0, more.len() as int) =~= more);
        assert(all.subrange(more.len() as int, all.len() as int) =~= Seq::<TokSig>::empty());
        assert(written(pushed[i], all.subrange(0, more.len() as int)));
    } else {
        let k = choose|k: int|
            0 <= k <= ks.len() && written(stmts[i], #[trigger] ks.subrange(0, k)) && seq_written(
                stmts,
                i + 1,
                ks.subrange(k, ks.len() as int),
            );
        lemma_seq_written_push(stmts, i + 1, ks.subrange(k, ks.len() as int), s, more);
        assert(all.subrange(0, k) =~= ks.subrange(0, k));
        assert(all.subrange(k, all.len() as int) =~= ks.subrange(k, ks.len() as int) + more);
        assert(pushed[i] == stmts[i]);
        assert(written(pushed[i], all.subrange(0, k)));
    }
}

proof fn lemma_if_written(ts: Seq<Token>, start: int, close_at: int, then_end: int, end: int, n: IfNode)
    requires
        0 <= start,
        start + 2 <= close_at < then_end <= end <= ts.len(),
        ts[start].t_type == TokenType::If,
        ts[start + 1].t_type == TokenType::LeftParen,
        comma_written(n.condition, token_kinds(ts.subrange(start + 2, close_at))),
        ts[close_at].t_type == TokenType::RightParen,
        written(*n.then_branch, token_kinds(ts.subrange(close_at + 1, then_end))),
        match n.else_branch {
            None => then_end == end,
            Some(e) => then_end < end && ts[then_end].t_type == TokenType::Else && written(
                *e,
                token_kinds(ts.subrange(then_end + 1, end)),
            ),
        },
    ensures
        written(StmtNode::IfStmt(n), token_kinds(ts.subrange(start, end))),
{
    let len = end - start;
    let i = close_at - start;
    let j = then_end - start;
    let ks = token_kinds(ts.subrange(start, end));
    lemma_kinds_sub(ts, start, end, 0, len);
    lemma_kinds_sub(ts, start, end, 1, len);
    lemma_kinds_sub(ts, start, end, 2, i);
    lemma_kinds_sub(ts, start, end, i, len);
    lemma_kinds_sub(ts, start, end, i + 1, j);
    if j < len {
        lemma_kinds_sub(ts, start, end, j, len);
        lemma_kinds_sub(ts, start, end, j + 1, len);
    }
    assert(written(*n.then_branch, ks.subrange(i + 1, j)));
}

proof fn lemma_for_written(
    ts: Seq<Token>,
    start: int,
    a: int,
    b: int,
    c: int,
    end: int,
    blk: BlockNode,
    incr: ExprNode,
)
    requires
        0 <= start,
        start + 2 < a <= b < c < end <= ts.len(),
        ts[start].t_type == TokenType::For,
        ts[start + 1].t_type == TokenType::LeftParen,
        ts[b].t_type == TokenType::Semicolon,
        ts[c].t_type == TokenType::RightParen,
        blk.0@.len() == 2,
        (blk.0@[0] matches StmtNode::Expr(ExprNode::Literal(LiteralNode::Nil)) && token_kinds(
            ts.subrange(start + 2, a),
        ) == seq![kind_sig(TokenType::Semicolon)]) || written(blk.0@[0], token_kinds(ts.subrange(start + 2, a))),
        blk.0@[1] matches StmtNode::While(w) && ((w.condition matches ExprNode::Literal(
            LiteralNode::True,
        ) && a == b) || token_kinds(ts.subrange(a, b)) == expr_kinds(w.condition)) && (
        *w.body matches StmtNode::Block(inner) && inner.0@.len() == 2 && inner.0@[1]
            == StmtNode::Expr(incr) && written(inner.0@[0], token_kinds(ts.subrange(c + 1, end)))),
        (incr matches ExprNode::Literal(LiteralNode::Nil) && b + 1 == c) || token_kinds(
            ts.subrange(b + 1, c),
        ) == expr_kinds(incr),
    ensures
        written(StmtNode::Block(blk), token_kinds(ts.subrange(start, end))),
{
    let len = end - start;
    let (i, j, k) = (a - start, b - start, c - start);
    let ks = token_kinds(ts.subrange(start, end));
    lemma_kinds_sub(ts, start, end, 0, len);
    lemma_kinds_sub(ts, start, end, 1, len);
    lemma_kinds_sub(ts, start, end, 2, i);
    lemma_kinds_sub(ts, start, end, i, j);
    lemma_kinds_sub(ts, start, end, j, len);
    lemma_kinds_sub(ts, start, end, j + 1, k);
    lemma_kinds_sub(ts, start, end, k, len);
    lemma_kinds_sub(ts, start, end, k + 1, len);
    assert(for_written(blk, ks));
}

proof fn lemma_kinds_around(ts: Seq<Token>, a: int, b: int, c: int)
    requires
        0 <= a <= b < c <= ts.len(),
    ensures
        token_kinds(ts.subrange(a, c)) == token_kinds(ts.subrange(a, b)) + seq![sig(ts[b])]
            + token_kinds(ts.subrange(b + 1, c)),
{
    assert(token_kinds(ts.subrange(a, c)) =~= token_kinds(ts.subrange(a, b)) + seq![sig(ts[b])]
        + token_kinds(ts.subrange(b + 1, c)));
}

fn message(text: &str) -> (r: String)
    ensures
        r@ == text@,
{
    String::from_str(text)
}

impl Parser {
    pub closed spec fn wf(&self) -> bool {
        &&& tokens_end_with_eof(self.tokens@)
        &&& self.current < self.tokens@.len()
    }

    /// The tokens the parser reads.
    pub closed spec fn token_seq(&self) -> Seq<Token> {
        self.tokens@
    }

    /// The index of the current token.
    pub closed spec fn position(&self) -> int {
        self.current as int
    }

    /// The tokens not consumed yet, the current one first.
    pub closed spec fn remaining(&self) -> int {
        self.tokens@.len() - self.current
    }

    /// `self` is a well-formed later state of `before`, over the same tokens.
    pub closed spec fn moved_on(&self, before: Parser) -> bool {
        &&& self.wf()
        &&& self.tokens@ == before.tokens@
        &&& self.current >= before.current
    }

    /// The expression `e` is written with exactly the tokens consumed since `before`.
    pub closed spec fn spans(&self, before: Parser, e: ExprNode) -> bool {
        expr_kinds(e) == token_kinds(self.tokens@.subrange(before.current as int, self.current as int))
    }

    /// The kinds of the tokens consumed from index `start` on.
    pub closed spec fn consumed_from(&self, start: int) -> Seq<TokSig> {
        token_kinds(self.tokens@.subrange(start, self.current as int))
    }

    closed spec fn previous_is(&self, t: TokenType) -> bool {
        self.current >= 1 && self.tokens@[self.current - 1].t_type == t
    }

    /// The current token is the end of input.
    pub closed spec fn at_end(&self) -> bool {
        self.tokens@[self.current as int].t_type == TokenType::Eof
    }

    pub fn new(tokens: Vec<Token>) -> (r: Parser)
        requires
            tokens_end_with_eof(tokens@),
        ensures
            r.wf(),
            r.token_seq() == tokens@,
            r.position() == 0,
    {
        Parser { tokens, current: 0 }
    }

    /// Parses declarations and statements up to the end of input. A
    /// statement that fails to parse is reported in the errors and skipped
    /// up to the next statement boundary; parsing then goes on.
    ///
    /// The statements and errors are exactly those of [`p_program`], the
    /// grammar's parse of the tokens: each error in input order, recovery
    /// where [`recover`] says. Every statement returned is well formed, its
    /// expressions shaped by precedence and associativity; where there was
    /// no error, the statements are derivations of all the tokens read.
    pub fn parse(&mut self) -> (r: (Vec<StmtNode>, Vec<SyntaxError>))
        requires
            old(self).wf(),
        ensures
            final(self).moved_on(*old(self)),
            final(self).token_seq() == old(self).token_seq(),
            old(self).position() <= final(self).position() < final(self).token_seq().len(),
            final(self).token_seq()[final(self).position()].t_type == TokenType::Eof,
            forall|i: int| 0 <= i < r.0@.len() ==> stmt_wf(#[trigger] r.0@[i]),
            r.1@.len() == 0 ==> seq_written(
                r.0@,
                0,
                token_kinds(final(self).token_seq().subrange(old(self).position(), final(self).position())),
            ),
            (stmts_view(r.0@, 0), errors_view(r.1@)) == p_program(
                old(self).token_seq(),
                old(self).position(),
            ),
    {
        let mut stmts: Vec<StmtNode> = Vec::new();
        let mut errors: Vec<SyntaxError> = Vec::new();
        proof {
            assert(self.consumed_from(old(self).current as int) =~= Seq::<TokSig>::empty());
            assert(stmts_view(stmts@, 0) =~= Seq::<StmtView>::empty());
            assert(errors_view(errors@) =~= Seq::<SyntaxErrorView>::empty());
            let whole = p_program(self.tokens@, self.current as int);
            assert(whole.0 =~= Seq::<StmtView>::empty() + whole.0);
            assert(whole.1 =~= Seq::<SyntaxErrorView>::empty() + whole.1);
        }
        while !self.is_at_end()
            invariant
                self.moved_on(*old(self)),
                forall|i: int| 0 <= i < stmts@.len() ==> stmt_wf(#[trigger] stmts@[i]),
                errors@.len() == 0 ==> seq_written(
                    stmts@,
                    0,
                    self.consumed_from(old(self).current as int),
                ),
                p_program(old(self).tokens@, old(self).current as int).0 == stmts_view(stmts@, 0)
                    + p_program(self.tokens@, self.current as int).0,
                p_program(old(self).tokens@, old(self).current as int).1 == errors_view(errors@)
                    + p_program(self.tokens@, self.current as int).1,
            decreases self.remaining(),
        {
            let ghost start = self.current;
            match self.declaration() {
                Ok(stmt) => {
                    proof {
                        let ts = self.tokens@;
                        let o = old(self).current as int;
                        if errors@.len() == 0 {
                            lemma_seq_written_push(
                                stmts@,
                                0,
                                token_kinds(ts.subrange(o, start as int)),
                                stmt,
                                token_kinds(ts.subrange(start as int, self.current as int)),
                            );
                        }
                        assert(token_kinds(ts.subrange(o, self.current as int)) =~= token_kinds(
                            ts.subrange(o, start as int),
                        ) + token_kinds(ts.subrange(start as int, self.current as int)));
                    }
                    proof {
                        lemma_stmts_view_push(stmts@, 0, stmt);
                        let ts = self.tokens@;
                        let rest = p_program(ts, self.current as int);
                        assert(p_program(ts, start as int).0 == seq![stmt_view(stmt)] + rest.0);
                        assert(p_program(ts, start as int).1 == rest.1);
                        assert(stmts_view(stmts@, 0).push(stmt_view(stmt)) + rest.0 =~= stmts_view(
                            stmts@,
                            0,
                        ) + (seq![stmt_view(stmt)] + rest.0));
                    }
                    stmts.push(stmt);
                },
                Err(e) => {
                    let ghost failed_at = self.current as int;
                    let ghost old_errors = errors@;
                    errors.push(e);
                    self.synchronize(Ghost(start));
                    proof {
                        let ts = self.tokens@;
                        let rest = p_program(ts, self.current as int);
                        assert(self.current as int == recover(ts, failed_at));
                        assert(p_program(ts, start as int).1 == seq![error_view(e)] + rest.1);
                        assert(p_program(ts, start as int).0 == rest.0);
                        assert(errors_view(errors@) =~= errors_view(old_errors).push(error_view(e)));
                        assert(errors_view(errors@) + rest.1 =~= errors_view(old_errors) + (seq![
                            error_view(e),
                        ] + rest.1));
                    }
                },
            }
        }
        proof {
            let whole = p_program(self.tokens@, self.current as int);
            assert(whole.0 =~= Seq::<StmtView>::empty());
            assert(whole.1 =~= Seq::<SyntaxErrorView>::empty());
            assert(stmts_view(stmts@, 0) + whole.0 =~= stmts_view(stmts@, 0));
            assert(errors_view(errors@) + whole.1 =~= errors_view(errors@));
        }
        (stmts, errors)
    }

    /// Skips tokens up to a probable statement boundary: just after a
    /// semicolon, or before a keyword that starts a statement.
    fn synchronize(&mut self, start: Ghost<usize>)
        requires
            old(self).wf(),
            start@ <= old(self).current,
            old(self).tokens@[start@ as int].t_type != TokenType::Eof,
        ensures
            final(self).moved_on(*old(self)),
            final(self).current > start@,
            final(self).current == boundary_from(
                old(self).tokens@,
                old(self).current + if old(self).at_end() { 0int } else { 1int },
            ),
    {
        self.advance();
        while !self.is_at_end()
            invariant
                self.moved_on(*old(self)),
                self.current > start@,
                boundary_from(self.tokens@, self.current as int) == boundary_from(
                    old(self).tokens@,
                    old(self).current + if old(self).at_end() { 0int } else { 1int },
                ),
            decreases self.remaining(),
        {
            if self.previous().t_type == TokenType::Semicolon {
                return;
            }
            if self.starts_statement_here() {
                return;
            }
            self.advance();
        }
    }

    fn starts_statement_here(&self) -> (r: bool)
        requires
            self.wf(),
        ensures
            r == starts_statement(self.tokens@[self.current as int].t_type),
    {
        let t = self.peek().t_type;
        t == TokenType::Class || t == TokenType::For || t == TokenType::Fun || t == TokenType::If
            || t == TokenType::Print || t == TokenType::Return || t == TokenType::Var || t
            == TokenType::While
    }

    fn declaration(&mut self) -> (r: Result<StmtNode, SyntaxError>)
        requires
            old(self).wf(),
        ensures
            (stmt_result(r), final(self).current as int) == p_declaration(old(self).tokens@, old(self).current as int),
            final(self).moved_on(*old(self)),
            r is Ok ==> final(self).current > old(self).current,
            r matches Ok(s) ==> stmt_wf(s),
            r matches Ok(s) ==> written(s, final(self).consumed_from(old(self).current as int)),
        decreases old(self).remaining(), 20nat,
    {
        if self.match_one(TokenType::Var) {
            return self.var_declaration();
        }
        self.statement()
    }

    fn var_declaration(&mut self) -> (r: Result<StmtNode, SyntaxError>)
        requires
            old(self).wf(),
            old(self).previous_is(TokenType::Var),
        ensures
            (stmt_result(r), final(self).current as int) == p_var(old(self).tokens@, old(self).current as int),
            final(self).moved_on(*old(self)),
            r is Ok ==> final(self).current > old(self).current,
            r matches Ok(s) ==> stmt_wf(s),
            r matches Ok(s) ==> written(s, final(self).consumed_from(old(self).current - 1)),
        decreases old(self).remaining(), 30nat,
    {
        let ghost start = self.current - 1;
        let name = match self.consume(TokenType::Identifier, "Expected identifier") {
            Ok(t) => t,
            Err(e) => return Err(e),
        };
        let mut initializer = ExprNode::Literal(LiteralNode::Nil);
        let ghost mut expr_from: int = -1;
        if self.match_one(TokenType::Equal) {
            proof {
                expr_from = self.current as int;
            }
            initializer = match self.expression() {
                Ok(e) => e,
                Err(e) => return Err(e),
            };
        }
        let ghost semi_at = self.current as int;
        match self.consume(TokenType::Semicolon, "Expected ';'") {
            Ok(_) => {},
            Err(e) => return Err(e),
        }
        proof {
            let ts = self.tokens@;
            lemma_kinds_last(ts, start, semi_at);
            if expr_from >= 0 {
                lemma_kinds_first(ts, start, semi_at);
                lemma_kinds_first(ts, start + 1, semi_at);
                lemma_kinds_first(ts, start + 2, semi_at);
                assert(token_kinds(ts.subrange(start, semi_at)) =~= seq![
                    kind_sig(TokenType::Var),
                    sig(name),
                    kind_sig(TokenType::Equal),
                ] + expr_kinds(initializer));
                assert(self.consumed_from(start) =~= seq![
                    kind_sig(TokenType::Var),
                    sig(name),
                    kind_sig(TokenType::Equal),
                ] + expr_kinds(initializer) + seq![kind_sig(TokenType::Semicolon)]);
            } else {
                assert(token_kinds(ts.subrange(start, semi_at + 1)) =~= seq![
                    kind_sig(TokenType::Var),
                    sig(name),
                    kind_sig(TokenType::Semicolon),
                ]);
            }
        }
        Ok(StmtNode::VarDec(VarNode::new(name, initializer)))
    }

    fn statement(&mut self) -> (r: Result<StmtNode, SyntaxError>)
        requires
            old(self).wf(),
        ensures
            (stmt_result(r), final(self).current as int) == p_statement(old(self).tokens@, old(self).current as int),
            final(self).moved_on(*old(self)),
            r is Ok ==> final(self).current > old(self).current,
            r matches Ok(s) ==> stmt_wf(s),
            r matches Ok(s) ==> written(s, final(self).consumed_from(old(self).current as int)),
        decreases old(self).remaining(), 19nat,
    {
        if self.match_one(TokenType::LeftBrace) {
            return self.block_statement();
        }
        if self.match_one(TokenType::If) {
            return self.if_statement();
        }
        if self.match_one(TokenType::Print) {
            return self.print_statement();
        }
        if self.match_one(TokenType::While) {
            return self.while_statement();
        }
        if self.match_one(TokenType::For) {
            return self.for_statement();
        }
        self.expression_statement()
    }

    /// `for ( (var-decl | expr-stmt | ;) expr? ; expr? ) statement`, the
    /// `for` consumed; desugared into a block holding the initializer and a
    /// loop whose body is a block of the statement after `)` and the increment.
#[verifier::rlimit(80)]
    fn for_statement(&mut self) -> (r: Result<StmtNode, SyntaxError>)
        requires
            old(self).wf(),
            old(self).previous_is(TokenType::For),
        ensures
            (stmt_result(r), final(self).current as int) == p_for(old(self).tokens@, old(self).current as int),
            final(self).moved_on(*old(self)),
            r is Ok ==> final(self).current > old(self).current,
            r matches Ok(s) ==> stmt_wf(s),
            r matches Ok(s) ==> written(s, final(self).consumed_from(old(self).current - 1)),
        decreases old(self).remaining(), 30nat,
    {
        let ghost start = self.current - 1;
        match self.consume(TokenType::LeftParen, "For initializer must start with left paren '('") {
            Ok(_) => {},
            Err(e) => return Err(e),
        }
        let initializer;
        if self.match_one(TokenType::Var) {
            initializer = match self.var_declaration() {
                Ok(s) => s,
                Err(e) => return Err(e),
            };
        } else if !self.check(TokenType::Semicolon) {
            initializer = match self.expression_statement() {
                Ok(s) => s,
                Err(e) => return Err(e),
            };
        } else {
            match self.consume(
                TokenType::Semicolon,
                "For initializer and condition must be separated by a semicolon ';'",
            ) {
                Ok(_) => {},
                Err(e) => return Err(e),
            }
            initializer = StmtNode::Expr(ExprNode::Literal(LiteralNode::Nil));
            proof {
                lemma_kinds_last(self.tokens@, start + 2, start + 2);
                assert(self.consumed_from(start + 2) =~= seq![kind_sig(TokenType::Semicolon)]);
            }
        }
        let ghost init_end = self.current as int;
        proof {
            assert((Ok::<StmtView, SyntaxErrorView>(stmt_view(initializer)), init_end) == p_for_init(
                self.tokens@,
                old(self).current + 1,
            ));
        }
        let mut condition = ExprNode::Literal(LiteralNode::True);
        if !self.check(TokenType::Semicolon) {
            condition = match self.expression() {
                Ok(e) => e,
                Err(e) => return Err(e),
            };
        }
        let ghost semi_at = self.current as int;
        let ghost cond_snapshot = condition;
        proof {
            let ts = self.tokens@;
            let pp = old(self).current as int;
            assert((Ok::<ExprNode, SyntaxErrorView>(condition), semi_at) == (if !at(ts, init_end, TokenType::Semicolon) && !stuck(ts, pp, init_end) {
                p_expression(ts, init_end)
            } else {
                (Ok(ExprNode::Literal(LiteralNode::True)), init_end)
            }));
        }
        match self.consume(
            TokenType::Semicolon,
            "For condition and increment must be separated by a semicolon ';'",
        ) {
            Ok(_) => {},
            Err(e) => return Err(e),
        }
        let mut increment_expr = ExprNode::Literal(LiteralNode::Nil);
        if !self.check(TokenType::RightParen) {
            increment_expr = match self.expression() {
                Ok(e) => e,
                Err(e) => return Err(e),
            };
        }
        let ghost close_at = self.current as int;
        proof {
            let ts = self.tokens@;
            assert((Ok::<ExprNode, SyntaxErrorView>(increment_expr), close_at) == (if !at(ts, semi_at + 1, TokenType::RightParen) {
                p_expression(ts, semi_at + 1)
            } else {
                (Ok(ExprNode::Literal(LiteralNode::Nil)), semi_at + 1)
            }));
        }
        match self.consume(TokenType::RightParen, "For increment must be followed by a right paren ')'") {
            Ok(_) => {},
            Err(e) => return Err(e),
        }
        let body = match self.statement() {
            Ok(s) => s,
            Err(e) => return Err(e),
        };
        let ghost incr_snapshot = increment_expr;
        let increment = StmtNode::Expr(increment_expr);
        let ghost (body_snapshot, increment_snapshot) = (body, increment);
        let body_stmts = vec![body, increment];
        proof {
            assert(body_stmts@.len() == 2);
            assert(body_stmts@[0] == body_snapshot && body_stmts@[1] == increment_snapshot);
            assert(stmt_wf(body_stmts@[0]) && stmt_wf(body_stmts@[1]));
            assert(stmt_wf(StmtNode::Block(BlockNode(body_stmts))));
        }
        let while_stmt = StmtNode::new_while(condition, StmtNode::Block(BlockNode(body_stmts)));
        let ghost (init_snapshot, loop_snapshot) = (initializer, while_stmt);
        let loop_stmts = vec![initializer, while_stmt];
        proof {
            assert(loop_stmts@.len() == 2);
            assert(loop_stmts@[0] == init_snapshot && loop_stmts@[1] == loop_snapshot);
            assert(stmt_wf(loop_stmts@[0]) && stmt_wf(loop_stmts@[1]));
        }
        let blk = BlockNode(loop_stmts);
        proof {
            reveal_with_fuel(stmts_view, 3);
            assert(stmts_view(body_stmts@, 0) =~= seq![
                stmt_view(body_snapshot),
                StmtView::Expr(incr_snapshot),
            ]);
            assert(stmts_view(blk.0@, 0) =~= seq![
                stmt_view(init_snapshot),
                stmt_view(loop_snapshot),
            ]);
            assert(stmt_view(StmtNode::Block(BlockNode(body_stmts))) == StmtView::Block(stmts_view(body_stmts@, 0)));
            assert(stmt_view(loop_snapshot) == StmtView::While(
                cond_snapshot,
                Box::new(StmtView::Block(seq![stmt_view(body_snapshot), StmtView::Expr(incr_snapshot)])),
            ));
            let ts = self.tokens@;
            let pp = old(self).current as int;
            assert(p_statement(ts, close_at + 1) == (Ok::<StmtView, SyntaxErrorView>(stmt_view(body_snapshot)), self.current as int));
            assert(p_for(ts, pp) == (Ok::<StmtView, SyntaxErrorView>(StmtView::Block(seq![
                stmt_view(init_snapshot),
                StmtView::While(
                    cond_snapshot,
                    Box::new(StmtView::Block(seq![stmt_view(body_snapshot), StmtView::Expr(incr_snapshot)])),
                ),
            ])), self.current as int));
            lemma_for_written(
                self.tokens@,
                start,
                init_end,
                semi_at,
                close_at,
                self.current as int,
                blk,
                incr_snapshot,
            );
        }
        Ok(StmtNode::Block(blk))
    }

    /// `while ( expression ) statement`, the `while` consumed.
    fn while_statement(&mut self) -> (r: Result<StmtNode, SyntaxError>)
        requires
            old(self).wf(),
            old(self).previous_is(TokenType::While),
        ensures
            (stmt_result(r), final(self).current as int) == p_while(old(self).tokens@, old(self).current as int),
            final(self).moved_on(*old(self)),
            r is Ok ==> final(self).current > old(self).current,
            r matches Ok(s) ==> stmt_wf(s),
            r matches Ok(s) ==> written(s, final(self).consumed_from(old(self).current - 1)),
        decreases old(self).remaining(), 30nat,
    {
        let ghost start = self.current - 1;
        match self.consume(TokenType::LeftParen, "While condition must start with left paren '('") {
            Ok(_) => {},
            Err(e) => return Err(e),
        }
        let condition = match self.expression() {
            Ok(e) => e,
            Err(e) => return Err(e),
        };
        let ghost close_at = self.current as int;
        match self.consume(TokenType::RightParen, "While condition must end with right paren ')'") {
            Ok(_) => {},
            Err(e) => return Err(e),
        }
        let body = match self.statement() {
            Ok(s) => s,
            Err(e) => return Err(e),
        };
        proof {
            let ts = self.tokens@;
            let end = self.current as int;
            let n = end - start;
            let i = close_at - start;
            lemma_kinds_sub(ts, start, end, 0, n);
            lemma_kinds_sub(ts, start, end, 1, n);
            lemma_kinds_sub(ts, start, end, 2, i);
            lemma_kinds_sub(ts, start, end, i, n);
            lemma_kinds_sub(ts, start, end, i + 1, n);
        }
        Ok(StmtNode::new_while(condition, body))
    }

    /// `if ( expression ) statement (else statement)?`, the `if` consumed.
    fn if_statement(&mut self) -> (r: Result<StmtNode, SyntaxError>)
        requires
            old(self).wf(),
            old(self).previous_is(TokenType::If),
        ensures
            (stmt_result(r), final(self).current as int) == p_if(old(self).tokens@, old(self).current as int),
            final(self).moved_on(*old(self)),
            r is Ok ==> final(self).current > old(self).current,
            r matches Ok(s) ==> stmt_wf(s),
            r matches Ok(s) ==> written(s, final(self).consumed_from(old(self).current - 1)),
        decreases old(self).remaining(), 30nat,
    {
        let ghost start = self.current - 1;
        match self.consume(TokenType::LeftParen, "If statements require '(' before condition.") {
            Ok(_) => {},
            Err(e) => return Err(e),
        }
        let condition = match self.comma_expression() {
            Ok(e) => e,
            Err(e) => return Err(e),
        };
        let ghost close_at = self.current as int;
        match self.consume(TokenType::RightParen, "If statements require ')' after condition.") {
            Ok(_) => {},
            Err(e) => return Err(e),
        }
        let then_branch = match self.statement() {
            Ok(s) => s,
            Err(e) => return Err(e),
        };
        let ghost then_end = self.current as int;
        let mut else_branch = None;
        if self.match_one(TokenType::Else) {
            else_branch = match self.statement() {
                Ok(s) => Some(s),
                Err(e) => return Err(e),
            };
        }
        let r = IfNode::new(condition, then_branch, else_branch);
        proof {
            lemma_if_written(self.tokens@, start, close_at, then_end, self.current as int, r);
        }
        Ok(StmtNode::IfStmt(r))
    }

    /// Declarations up to the matching `}`, the `{` consumed.
    fn block_statement(&mut self) -> (r: Result<StmtNode, SyntaxError>)
        requires
            old(self).wf(),
            old(self).previous_is(TokenType::LeftBrace),
        ensures
            (stmt_result(r), final(self).current as int) == p_block(old(self).tokens@, old(self).current as int),
            final(self).moved_on(*old(self)),
            r is Ok ==> final(self).current > old(self).current,
            r matches Ok(s) ==> stmt_wf(s),
            r matches Ok(s) ==> written(s, final(self).consumed_from(old(self).current - 1)),
        decreases old(self).remaining(), 21nat,
    {
        let ghost start = self.current - 1;
        let mut stmts: Vec<StmtNode> = Vec::new();
        proof {
            assert(stmts_view(stmts@, 0) =~= Seq::<StmtView>::empty());
            assert(self.consumed_from(old(self).current as int) =~= Seq::<TokSig>::empty());
        }
        while !self.check(TokenType::RightBrace) && !self.is_at_end()
            invariant
                self.moved_on(*old(self)),
                forall|i: int| 0 <= i < stmts@.len() ==> stmt_wf(#[trigger] stmts@[i]),
                seq_written(stmts@, 0, self.consumed_from(old(self).current as int)),
                p_block(old(self).tokens@, old(self).current as int) == p_block_rest(
                    self.tokens@,
                    self.current as int,
                    stmts_view(stmts@, 0),
                ),
            decreases self.remaining(),
        {
            let ghost before = self.current as int;
            match self.declaration() {
                Ok(s) => {
                    proof {
                        let ts = self.tokens@;
                        lemma_seq_written_push(
                            stmts@,
                            0,
                            token_kinds(ts.subrange(old(self).current as int, before)),
                            s,
                            token_kinds(ts.subrange(before, self.current as int)),
                        );
                        assert(token_kinds(ts.subrange(old(self).current as int, self.current as int))
                            =~= token_kinds(ts.subrange(old(self).current as int, before))
                            + token_kinds(ts.subrange(before, self.current as int)));
                    }
                    proof {
                        lemma_stmts_view_push(stmts@, 0, s);
                    }
                    stmts.push(s);
                },
                Err(e) => return Err(e),
            }
        }
        let ghost close_at = self.current as int;
        match self.consume(TokenType::RightBrace, "Expected closing brace '}'") {
            Ok(_) => {},
            Err(e) => return Err(e),
        }
        proof {
            let ts = self.tokens@;
            let end = self.current as int;
            let n = end - start;
            lemma_kinds_sub(ts, start, end, 0, n);
            lemma_kinds_sub(ts, start, end, 1, n - 1);
            lemma_kinds_sub(ts, start, end, n - 1, n);
        }
        Ok(StmtNode::Block(BlockNode(stmts)))
    }

    /// `print expression ;`, the `print` consumed.
    fn print_statement(&mut self) -> (r: Result<StmtNode, SyntaxError>)
        requires
            old(self).wf(),
            old(self).previous_is(TokenType::Print),
        ensures
            (stmt_result(r), final(self).current as int) == p_print(old(self).tokens@, old(self).current as int),
            final(self).moved_on(*old(self)),
            r is Ok ==> final(self).current > old(self).current,
            r matches Ok(s) ==> stmt_wf(s),
            r matches Ok(s) ==> written(s, final(self).consumed_from(old(self).current - 1)),
        decreases old(self).remaining(), 30nat,
    {
        let ghost start = self.current - 1;
        let expr = match self.comma_expression() {
            Ok(e) => e,
            Err(e) => return Err(e),
        };
        let ghost semi_at = self.current as int;
        match self.consume(TokenType::Semicolon, "Expected ';'") {
            Ok(_) => {},
            Err(e) => return Err(e),
        }
        proof {
            let ts = self.tokens@;
            lemma_kinds_last(ts, start, semi_at);
            lemma_kinds_first(ts, start, semi_at);
            let ks = self.consumed_from(start);
            assert(ks.subrange(1, ks.len() - 1) =~= token_kinds(ts.subrange(start + 1, semi_at)));
        }
        Ok(StmtNode::Print(expr))
    }

    fn expression_statement(&mut self) -> (r: Result<StmtNode, SyntaxError>)
        requires
            old(self).wf(),
        ensures
            (stmt_result(r), final(self).current as int) == p_expression_statement(old(self).tokens@, old(self).current as int),
            final(self).moved_on(*old(self)),
            r is Ok ==> final(self).current > old(self).current,
            r matches Ok(s) ==> stmt_wf(s),
            r matches Ok(s) ==> written(s, final(self).consumed_from(old(self).current as int)),
        decreases old(self).remaining(), 18nat,
    {
        let expr = match self.comma_expression() {
            Ok(e) => e,
            Err(e) => return Err(e),
        };
        let ghost semi_at = self.current as int;
        match self.consume(TokenType::Semicolon, "Expected ';'") {
            Ok(_) => {},
            Err(e) => return Err(e),
        }
        proof {
            lemma_kinds_last(self.tokens@, old(self).current as int, semi_at);
            let ks = self.consumed_from(old(self).current as int);
            assert(ks.drop_last() =~= token_kinds(self.tokens@.subrange(old(self).current as int, semi_at)));
        }
        Ok(StmtNode::Expr(expr))
    }

    /// `expression (, expression)*`: every expression is parsed, and only
    /// the last one is kept.
    fn comma_expression(&mut self) -> (r: Result<ExprNode, SyntaxError>)
        requires
            old(self).wf(),
        ensures
            (expr_result(r), final(self).current as int) == p_comma(old(self).tokens@, old(self).current as int),
            final(self).moved_on(*old(self)),
            r is Ok ==> final(self).current > old(self).current,
            r matches Ok(e) ==> expr_wf(e),
            r matches Ok(e) ==> comma_written(e, final(self).consumed_from(old(self).current as int)),
        decreases old(self).remaining(), 17nat,
    {
        let mut expr = match self.expression() {
            Ok(e) => e,
            Err(e) => return Err(e),
        };
        proof {
            let ks = self.consumed_from(old(self).current as int);
            assert(ks.subrange(0, ks.len() as int) =~= ks);
        }
        while self.match_one(TokenType::Comma)
            invariant
                self.moved_on(*old(self)),
                self.current > old(self).current,
                expr_wf(expr),
                comma_written(expr, self.consumed_from(old(self).current as int)),
                p_comma(old(self).tokens@, old(self).current as int) == p_comma_rest(
                    self.tokens@,
                    self.current as int,
                    expr,
                ),
            decreases self.remaining(),
        {
            let ghost comma_at = self.current - 1;
            expr = match self.expression() {
                Ok(e) => e,
                Err(e) => return Err(e),
            };
            proof {
                let ts = self.tokens@;
                lemma_kinds_around(ts, old(self).current as int, comma_at, self.current as int);
                let ks = self.consumed_from(old(self).current as int);
                let k = expr_kinds(expr);
                assert(ks.subrange(ks.len() - k.len(), ks.len() as int) =~= k);
            }
        }
        Ok(expr)
    }

    fn expression(&mut self) -> (r: Result<ExprNode, SyntaxError>)
        requires
            old(self).wf(),
        ensures
            (expr_result(r), final(self).current as int) == p_expression(old(self).tokens@, old(self).current as int),
            final(self).moved_on(*old(self)),
            r is Ok ==> final(self).current > old(self).current,
            r matches Ok(e) ==> expr_wf(e),
            r matches Ok(e) ==> final(self).spans(*old(self), e),
        decreases old(self).remaining(), 16nat,
    {
        self.assignment()
    }

    /// Right-associative assignment; its target must be a variable.
    fn assignment(&mut self) -> (r: Result<ExprNode, SyntaxError>)
        requires
            old(self).wf(),
        ensures
            (expr_result(r), final(self).current as int) == p_assignment(old(self).tokens@, old(self).current as int),
            r matches Ok(e) ==> expr_level(e) >= 1,
            final(self).moved_on(*old(self)),
            r is Ok ==> final(self).current > old(self).current,
            r matches Ok(e) ==> expr_wf(e),
            r matches Ok(e) ==> final(self).spans(*old(self), e),
        decreases old(self).remaining(), 15nat,
    {
        let expr = match self.logical_or() {
            Ok(e) => e,
            Err(e) => return Err(e),
        };
        let ghost eq_at = self.current;
        if self.match_one(TokenType::Equal) {
            let equals = self.previous().duplicate();
            let value = match self.assignment() {
                Ok(e) => e,
                Err(e) => return Err(e),
            };
            proof {
                lemma_kinds_around(self.tokens@, old(self).current as int, eq_at as int, self.current as int);
            }
            match expr {
                ExprNode::Variable(name) => {
                    proof {
                        assert(seq![sig(name), kind_sig(TokenType::Equal)] + expr_kinds(value) =~= seq![sig(name)]
                            + seq![kind_sig(TokenType::Equal)] + expr_kinds(value));
                    }
                    return Ok(ExprNode::new_assign(name, value));
                },
                _ => {
                    return Err(SyntaxError::InvalidAssignment(equals));
                },
            }
        }
        Ok(expr)
    }

    fn logical_or(&mut self) -> (r: Result<ExprNode, SyntaxError>)
        requires
            old(self).wf(),
        ensures
            (expr_result(r), final(self).current as int) == p_level(old(self).tokens@, old(self).current as int, 2),
            r matches Ok(e) ==> expr_level(e) >= 2,
            final(self).moved_on(*old(self)),
            r is Ok ==> final(self).current > old(self).current,
            r matches Ok(e) ==> expr_wf(e),
            r matches Ok(e) ==> final(self).spans(*old(self), e),
        decreases old(self).remaining(), 14nat,
    {
        let mut expr = match self.logical_and() {
            Ok(e) => e,
            Err(e) => return Err(e),
        };
        while self.match_one(TokenType::Or)
            invariant
                self.moved_on(*old(self)),
                self.current > old(self).current,
                expr_wf(expr),
                self.spans(*old(self), expr),
                expr_level(expr) >= 2,
                p_level(old(self).tokens@, old(self).current as int, 2) == p_level_rest(
                    self.tokens@,
                    self.current as int,
                    2,
                    expr,
                ),
            decreases self.remaining(),
        {
            let ghost op_at = self.current - 1;
            let ghost left = expr;
            let token = self.previous().duplicate();
            let right = match self.logical_and() {
                Ok(e) => e,
                Err(e) => return Err(e),
            };
            proof {
                lemma_kinds_around(self.tokens@, old(self).current as int, op_at as int, self.current as int);
            }
            expr = ExprNode::new_logical(expr, token, right);
            proof {
                assert(expr == level_node(2, left, self.tokens@[op_at as int], right));
            }
        }
        Ok(expr)
    }

    fn logical_and(&mut self) -> (r: Result<ExprNode, SyntaxError>)
        requires
            old(self).wf(),
        ensures
            (expr_result(r), final(self).current as int) == p_level(old(self).tokens@, old(self).current as int, 3),
            r matches Ok(e) ==> expr_level(e) >= 3,
            final(self).moved_on(*old(self)),
            r is Ok ==> final(self).current > old(self).current,
            r matches Ok(e) ==> expr_wf(e),
            r matches Ok(e) ==> final(self).spans(*old(self), e),
        decreases old(self).remaining(), 13nat,
    {
        let mut expr = match self.equality() {
            Ok(e) => e,
            Err(e) => return Err(e),
        };
        while self.match_one(TokenType::And)
            invariant
                self.moved_on(*old(self)),
                self.current > old(self).current,
                expr_wf(expr),
                self.spans(*old(self), expr),
                expr_level(expr) >= 3,
                p_level(old(self).tokens@, old(self).current as int, 3) == p_level_rest(
                    self.tokens@,
                    self.current as int,
                    3,
                    expr,
                ),
            decreases self.remaining(),
        {
            let ghost op_at = self.current - 1;
            let ghost left = expr;
            let token = self.previous().duplicate();
            let right = match self.equality() {
                Ok(e) => e,
                Err(e) => return Err(e),
            };
            proof {
                lemma_kinds_around(self.tokens@, old(self).current as int, op_at as int, self.current as int);
            }
            expr = ExprNode::new_logical(expr, token, right);
            proof {
                assert(expr == level_node(3, left, self.tokens@[op_at as int], right));
            }
        }
        Ok(expr)
    }

    fn equality(&mut self) -> (r: Result<ExprNode, SyntaxError>)
        requires
            old(self).wf(),
        ensures
            (expr_result(r), final(self).current as int) == p_level(old(self).tokens@, old(self).current as int, 4),
            r matches Ok(e) ==> expr_level(e) >= 4,
            final(self).moved_on(*old(self)),
            r is Ok ==> final(self).current > old(self).current,
            r matches Ok(e) ==> expr_wf(e),
            r matches Ok(e) ==> final(self).spans(*old(self), e),
        decreases old(self).remaining(), 12nat,
    {
        let mut expr = match self.comparison() {
            Ok(e) => e,
            Err(e) => return Err(e),
        };
        while self.match_two(TokenType::BangEqual, TokenType::EqualEqual)
            invariant
                self.moved_on(*old(self)),
                self.current > old(self).current,
                expr_wf(expr),
                self.spans(*old(self), expr),
                expr_level(expr) >= 4,
                p_level(old(self).tokens@, old(self).current as int, 4) == p_level_rest(
                    self.tokens@,
                    self.current as int,
                    4,
                    expr,
                ),
            decreases self.remaining(),
        {
            let ghost op_at = self.current - 1;
            let ghost left = expr;
            let operator = self.previous().duplicate();
            let right = match self.comparison() {
                Ok(e) => e,
                Err(e) => return Err(e),
            };
            proof {
                lemma_kinds_around(self.tokens@, old(self).current as int, op_at as int, self.current as int);
            }
            expr = ExprNode::new_binary(expr, operator, right);
            proof {
                assert(expr == level_node(4, left, self.tokens@[op_at as int], right));
            }
        }
        Ok(expr)
    }

    fn comparison(&mut self) -> (r: Result<ExprNode, SyntaxError>)
        requires
            old(self).wf(),
        ensures
            (expr_result(r), final(self).current as int) == p_level(old(self).tokens@, old(self).current as int, 5),
            r matches Ok(e) ==> expr_level(e) >= 5,
            final(self).moved_on(*old(self)),
            r is Ok ==> final(self).current > old(self).current,
            r matches Ok(e) ==> expr_wf(e),
            r matches Ok(e) ==> final(self).spans(*old(self), e),
        decreases old(self).remaining(), 11nat,
    {
        let mut expr = match self.term() {
            Ok(e) => e,
            Err(e) => return Err(e),
        };
        while self.match_two(TokenType::Greater, TokenType::GreaterEqual) || self.match_two(
            TokenType::Less,
            TokenType::LessEqual,
        )
            invariant
                self.moved_on(*old(self)),
                self.current > old(self).current,
                expr_wf(expr),
                self.spans(*old(self), expr),
                expr_level(expr) >= 5,
                p_level(old(self).tokens@, old(self).current as int, 5) == p_level_rest(
                    self.tokens@,
                    self.current as int,
                    5,
                    expr,
                ),
            decreases self.remaining(),
        {
            let ghost op_at = self.current - 1;
            let ghost left = expr;
            let operator = self.previous().duplicate();
            let right = match self.term() {
                Ok(e) => e,
                Err(e) => return Err(e),
            };
            proof {
                lemma_kinds_around(self.tokens@, old(self).current as int, op_at as int, self.current as int);
            }
            expr = ExprNode::new_binary(expr, operator, right);
            proof {
                assert(expr == level_node(5, left, self.tokens@[op_at as int], right));
            }
        }
        Ok(expr)
    }

    fn term(&mut self) -> (r: Result<ExprNode, SyntaxError>)
        requires
            old(self).wf(),
        ensures
            (expr_result(r), final(self).current as int) == p_level(old(self).tokens@, old(self).current as int, 6),
            r matches Ok(e) ==> expr_level(e) >= 6,
            final(self).moved_on(*old(self)),
            r is Ok ==> final(self).current > old(self).current,
            r matches Ok(e) ==> expr_wf(e),
            r matches Ok(e) ==> final(self).spans(*old(self), e),
        decreases old(self).remaining(), 10nat,
    {
        let mut expr = match self.factor() {
            Ok(e) => e,
            Err(e) => return Err(e),
        };
        while self.match_two(TokenType::Plus, TokenType::Minus)
            invariant
                self.moved_on(*old(self)),
                self.current > old(self).current,
                expr_wf(expr),
                self.spans(*old(self), expr),
                expr_level(expr) >= 6,
                p_level(old(self).tokens@, old(self).current as int, 6) == p_level_rest(
                    self.tokens@,
                    self.current as int,
                    6,
                    expr,
                ),
            decreases self.remaining(),
        {
            let ghost op_at = self.current - 1;
            let ghost left = expr;
            let operator = self.previous().duplicate();
            let right = match self.factor() {
                Ok(e) => e,
                Err(e) => return Err(e),
            };
            proof {
                lemma_kinds_around(self.tokens@, old(self).current as int, op_at as int, self.current as int);
            }
            expr = ExprNode::new_binary(expr, operator, right);
            proof {
                assert(expr == level_node(6, left, self.tokens@[op_at as int], right));
            }
        }
        Ok(expr)
    }

    fn factor(&mut self) -> (r: Result<ExprNode, SyntaxError>)
        requires
            old(self).wf(),
        ensures
            (expr_result(r), final(self).current as int) == p_level(old(self).tokens@, old(self).current as int, 7),
            r matches Ok(e) ==> expr_level(e) >= 7,
            final(self).moved_on(*old(self)),
            r is Ok ==> final(self).current > old(self).current,
            r matches Ok(e) ==> expr_wf(e),
            r matches Ok(e) ==> final(self).spans(*old(self), e),
        decreases old(self).remaining(), 9nat,
    {
        let mut expr = match self.unary() {
            Ok(e) => e,
            Err(e) => return Err(e),
        };
        while self.match_two(TokenType::Slash, TokenType::Star)
            invariant
                self.moved_on(*old(self)),
                self.current > old(self).current,
                expr_wf(expr),
                self.spans(*old(self), expr),
                expr_level(expr) >= 7,
                p_level(old(self).tokens@, old(self).current as int, 7) == p_level_rest(
                    self.tokens@,
                    self.current as int,
                    7,
                    expr,
                ),
            decreases self.remaining(),
        {
            let ghost op_at = self.current - 1;
            let ghost left = expr;
            let operator = self.previous().duplicate();
            let right = match self.unary() {
                Ok(e) => e,
                Err(e) => return Err(e),
            };
            proof {
                lemma_kinds_around(self.tokens@, old(self).current as int, op_at as int, self.current as int);
            }
            expr = ExprNode::new_binary(expr, operator, right);
            proof {
                assert(expr == level_node(7, left, self.tokens@[op_at as int], right));
            }
        }
        Ok(expr)
    }

    /// `!` and `-`, right-associative.
    fn unary(&mut self) -> (r: Result<ExprNode, SyntaxError>)
        requires
            old(self).wf(),
        ensures
            (expr_result(r), final(self).current as int) == p_unary(old(self).tokens@, old(self).current as int),
            r matches Ok(e) ==> expr_level(e) >= 8,
            final(self).moved_on(*old(self)),
            r is Ok ==> final(self).current > old(self).current,
            r matches Ok(e) ==> expr_wf(e),
            r matches Ok(e) ==> final(self).spans(*old(self), e),
        decreases old(self).remaining(), 8nat,
    {
        if self.match_two(TokenType::Bang, TokenType::Minus) {
            let operator = self.previous().duplicate();
            let right = match self.unary() {
                Ok(e) => e,
                Err(e) => return Err(e),
            };
            proof {
                lemma_kinds_around(self.tokens@, old(self).current as int, old(self).current as int, self.current as int);
                assert(token_kinds(self.tokens@.subrange(old(self).current as int, old(self).current as int)) =~= Seq::<TokSig>::empty());
            }
            return Ok(ExprNode::new_unary(operator, right));
        }
        self.primary()
    }

    /// Literals, variables and parenthesized groupings.
    fn primary(&mut self) -> (r: Result<ExprNode, SyntaxError>)
        requires
            old(self).wf(),
        ensures
            (expr_result(r), final(self).current as int) == p_primary(old(self).tokens@, old(self).current as int),
            r matches Ok(e) ==> expr_level(e) >= 9,
            final(self).moved_on(*old(self)),
            r is Ok ==> final(self).current > old(self).current,
            r matches Ok(e) ==> expr_wf(e),
            r matches Ok(e) ==> final(self).spans(*old(self), e),
            ({
                let t = old(self).tokens@[old(self).current as int];
                &&& !starts_primary(t.t_type) ==> final(self).current == old(self).current && (
                r matches Err(SyntaxError::UnmatchedToken(u, m)) && u == t && m@
                    == "Expected expression"@)
                &&& t.t_type == TokenType::False ==> r == Ok::<ExprNode, SyntaxError>(
                    ExprNode::Literal(LiteralNode::False),
                )
                &&& t.t_type == TokenType::True ==> r == Ok::<ExprNode, SyntaxError>(
                    ExprNode::Literal(LiteralNode::True),
                )
                &&& t.t_type == TokenType::Nil ==> r == Ok::<ExprNode, SyntaxError>(
                    ExprNode::Literal(LiteralNode::Nil),
                )
                &&& t.t_type == TokenType::Identifier ==> r == Ok::<ExprNode, SyntaxError>(
                    ExprNode::Variable(t),
                )
                &&& t.literal matches TokenLiteral::Number(n) ==> (t.t_type == TokenType::Number
                    ==> r == Ok::<ExprNode, SyntaxError>(ExprNode::Literal(LiteralNode::Number(n))))
                &&& t.literal matches TokenLiteral::String(x) ==> (t.t_type == TokenType::String
                    ==> r == Ok::<ExprNode, SyntaxError>(ExprNode::Literal(LiteralNode::String(x))))
            }),
        decreases old(self).remaining(), 7nat,
    {
        proof {
            lemma_kinds_around(self.tokens@, old(self).current as int, old(self).current as int, old(self).current + 1);
            assert(token_kinds(self.tokens@.subrange(old(self).current as int, old(self).current as int)) =~= Seq::<TokSig>::empty());
            assert(token_kinds(self.tokens@.subrange(old(self).current + 1, old(self).current + 1)) =~= Seq::<TokSig>::empty());
        }
        if self.match_one(TokenType::False) {
            return Ok(ExprNode::Literal(LiteralNode::False));
        }
        if self.match_one(TokenType::True) {
            return Ok(ExprNode::Literal(LiteralNode::True));
        }
        if self.match_one(TokenType::Nil) {
            return Ok(ExprNode::Literal(LiteralNode::Nil));
        }
        if self.match_one(TokenType::Number) {
            return match &self.previous().literal {
                TokenLiteral::Number(n) => Ok(ExprNode::Literal(LiteralNode::Number(*n))),
                _ => Err(
                    SyntaxError::UnmatchedToken(
                        self.previous().duplicate(),
                        message("Expected a number value"),
                    ),
                ),
            };
        }
        if self.match_one(TokenType::String) {
            return match &self.previous().literal {
                TokenLiteral::String(s) => Ok(ExprNode::Literal(LiteralNode::String(s.clone()))),
                _ => Err(
                    SyntaxError::UnmatchedToken(
                        self.previous().duplicate(),
                        message("Expected a string value"),
                    ),
                ),
            };
        }
        if self.match_one(TokenType::Identifier) {
            let token = self.previous().duplicate();
            return Ok(ExprNode::new_variable(token));
        }
        if self.match_one(TokenType::LeftParen) {
            let expr = match self.expression() {
                Ok(e) => e,
                Err(e) => return Err(e),
            };
            let ghost close_at = self.current;
            match self.consume(TokenType::RightParen, "Expect ')' after expression") {
                Ok(_) => {},
                Err(e) => return Err(e),
            }
            proof {
                lemma_kinds_around(self.tokens@, old(self).current as int, old(self).current as int, close_at as int);
                lemma_kinds_around(self.tokens@, old(self).current as int, close_at as int, self.current as int);
                assert(token_kinds(self.tokens@.subrange(close_at + 1, self.current as int)) =~= Seq::<TokSig>::empty());
                assert(token_kinds(self.tokens@.subrange(old(self).current as int, self.current as int))
                    =~= seq![kind_sig(TokenType::LeftParen)] + expr_kinds(expr) + seq![kind_sig(TokenType::RightParen)]);
            }
            return Ok(ExprNode::new_grouping(expr));
        }
        Err(SyntaxError::UnmatchedToken(self.peek().duplicate(), message("Expected expression")))
    }

    /// Consumes the current token where it has kind `tt`.
    fn consume(&mut self, tt: TokenType, err_msg: &str) -> (r: Result<Token, SyntaxError>)
        requires
            old(self).wf(),
        ensures
            final(self).moved_on(*old(self)),
            r is Ok ==> final(self).current == old(self).current + 1,
            r is Ok ==> old(self).tokens@[old(self).current as int].t_type == tt,
            r matches Ok(t) ==> t == old(self).tokens@[old(self).current as int],
            r is Err ==> final(self).current == old(self).current,
            r is Ok <==> at(old(self).tokens@, old(self).current as int, tt),
            r is Err ==> error_view(r->Err_0) == expected(
                old(self).tokens@,
                old(self).current as int,
                tt,
                err_msg@,
            ),
    {
        if self.check(tt) {
            self.advance();
            Ok(self.previous().duplicate())
        } else {
            Err(SyntaxError::ExpectedToken(tt, self.peek().duplicate(), message(err_msg)))
        }
    }

    /// Consumes the current token where it has kind `t`.
    fn match_one(&mut self, t: TokenType) -> (r: bool)
        requires
            old(self).wf(),
        ensures
            final(self).moved_on(*old(self)),
            r == (old(self).tokens@[old(self).current as int].t_type != TokenType::Eof && old(
                self,
            ).tokens@[old(self).current as int].t_type == t),
            final(self).current == old(self).current + if r { 1int } else { 0int },
    {
        if self.check(t) {
            self.advance();
            true
        } else {
            false
        }
    }

    /// Consumes the current token where it has kind `a` or `b`.
    fn match_two(&mut self, a: TokenType, b: TokenType) -> (r: bool)
        requires
            old(self).wf(),
        ensures
            final(self).moved_on(*old(self)),
            r == (old(self).tokens@[old(self).current as int].t_type != TokenType::Eof && (old(
                self,
            ).tokens@[old(self).current as int].t_type == a || old(self).tokens@[old(
                self,
            ).current as int].t_type == b)),
            final(self).current == old(self).current + if r { 1int } else { 0int },
    {
        if self.check(a) || self.check(b) {
            self.advance();
            true
        } else {
            false
        }
    }

    /// Moves past the current token, unless it is the end of input.
    fn advance(&mut self)
        requires
            old(self).wf(),
        ensures
            final(self).moved_on(*old(self)),
            final(self).current == old(self).current + if old(self).at_end() { 0int } else { 1int },
    {
        let n = self.tokens.len();
        if !self.is_at_end() {
            proof {
                assert(self.tokens@.last() == self.tokens@[self.tokens@.len() - 1]);
                assert(self.current < self.tokens@.len() - 1);
            }
            self.current = self.current + 1;
        }
    }

    fn check(&self, tt: TokenType) -> (r: bool)
        requires
            self.wf(),
        ensures
            r == (!self.at_end() && self.tokens@[self.current as int].t_type == tt),
    {
        if self.peek().t_type == TokenType::Eof {
            return false;
        }
        self.peek().t_type == tt
    }

    fn previous(&self) -> (r: &Token)
        requires
            self.wf(),
            self.current >= 1,
        ensures
            *r == self.tokens@[self.current - 1],
    {
        &self.tokens[self.current - 1]
    }

    fn is_at_end(&self) -> (r: bool)
        requires
            self.wf(),
        ensures
            r == self.at_end(),
    {
        self.peek().t_type == TokenType::Eof
    }

    fn peek(&self) -> (r: &Token)
        requires
            self.wf(),
        ensures
            *r == self.tokens@[self.current as int],
    {
        &self.tokens[self.current]
    }
}

} // verus!
