use rlox::{scan, ExprNode, LiteralNode, Parser, PrettyPrinter, Rpn, StmtNode, SyntaxError, TokenType};

fn parse(source: &str) -> (Vec<StmtNode>, Vec<SyntaxError>) {
    let (tokens, errors) = scan(source);
    assert!(errors.is_empty());
    let mut parser = Parser::new(tokens);
    parser.parse()
}

fn number_value(e: &ExprNode) -> (i64, u64) {
    match e {
        ExprNode::Literal(LiteralNode::Number(n)) => (n.numerator(), n.denominator()),
        other => panic!("not a number literal: {:?}", other),
    }
}

fn only_expression(source: &str) -> ExprNode {
    let (mut stmts, errors) = parse(source);
    assert!(errors.is_empty());
    assert_eq!(stmts.len(), 1);
    match stmts.remove(0) {
        StmtNode::Expr(e) => e,
        other => panic!("not an expression statement: {:?}", other),
    }
}

#[test]
fn parse_multiplication_binds_tighter() {
    let e = only_expression("1 + 2 * 3;");
    match &e {
        ExprNode::Binary(b) => {
            assert_eq!(b.operator.t_type, TokenType::Plus);
            assert_eq!(number_value(&b.left), (1, 1));
            match b.right.as_ref() {
                ExprNode::Binary(inner) => {
                    assert_eq!(inner.operator.t_type, TokenType::Star);
                    assert_eq!(number_value(&inner.left), (2, 1));
                    assert_eq!(number_value(&inner.right), (3, 1));
                }
                other => panic!("unexpected right operand {:?}", other),
            }
        }
        other => panic!("unexpected tree {:?}", other),
    }
    assert_eq!(PrettyPrinter {}.render(&e), "(+ 1 (* 2 3))");
    assert_eq!(Rpn {}.render(&e), "1 2 3 * +");
}

#[test]
fn parse_left_associative_subtraction() {
    let e = only_expression("8 - 4 - 2;");
    assert_eq!(PrettyPrinter {}.render(&e), "(- (- 8 4) 2)");
}

#[test]
fn parse_precedence_levels() {
    let e = only_expression("a = !b == c < -d + e / f or g and h;");
    assert_eq!(PrettyPrinter {}.render(&e), "(= a (or (== (! b) (< c (+ (- d) (/ e f)))) (and g h)))");
}

#[test]
fn parse_assignment_is_right_associative() {
    let e = only_expression("a = b = 3;");
    assert_eq!(PrettyPrinter {}.render(&e), "(= a (= b 3))");
}

#[test]
fn parse_grouping() {
    let e = only_expression("(1 + 2) * 3;");
    assert_eq!(PrettyPrinter {}.render(&e), "(* (group (+ 1 2)) 3)");
    assert_eq!(Rpn {}.render(&e), "1 2 + 3 *");
}

#[test]
fn parse_comma_keeps_last_expression() {
    let e = only_expression("1, 2, 3;");
    assert_eq!(number_value(&e), (3, 1));
}

#[test]
fn parse_invalid_assignment_target() {
    let (stmts, errors) = parse("1 = 2; print 3;");
    assert_eq!(errors.len(), 1);
    assert!(matches!(&errors[0], SyntaxError::InvalidAssignment(t) if t.t_type == TokenType::Equal));
    assert_eq!(stmts.len(), 1);
    assert!(matches!(stmts[0], StmtNode::Print(_)));
}

#[test]
fn parse_recovers_after_error() {
    let (stmts, errors) = parse("var = 1; print 2; 1 +; print 3;");
    assert_eq!(errors.len(), 2);
    assert!(matches!(&errors[0], SyntaxError::ExpectedToken(TokenType::Identifier, _, _)));
    assert!(matches!(&errors[1], SyntaxError::UnmatchedToken(t, _) if t.t_type == TokenType::Semicolon));
    assert_eq!(stmts.len(), 2);
}

#[test]
fn parse_missing_semicolon() {
    let (stmts, errors) = parse("print 1");
    assert!(stmts.is_empty());
    assert!(matches!(&errors[0], SyntaxError::ExpectedToken(TokenType::Semicolon, t, _) if t.t_type == TokenType::Eof));
}

#[test]
fn parse_unclosed_block() {
    let (stmts, errors) = parse("{ print 1;");
    assert!(stmts.is_empty());
    assert!(matches!(&errors[0], SyntaxError::ExpectedToken(TokenType::RightBrace, _, _)));
}

#[test]
fn parse_var_without_initializer_is_nil() {
    let (stmts, errors) = parse("var x;");
    assert!(errors.is_empty());
    match &stmts[0] {
        StmtNode::VarDec(v) => {
            assert_eq!(v.name.lexeme, "x");
            assert!(matches!(v.value_expr, ExprNode::Literal(LiteralNode::Nil)));
        }
        other => panic!("unexpected statement {:?}", other),
    }
}

#[test]
fn parse_for_desugars_to_block_and_loop() {
    let (stmts, errors) = parse("for (var i = 0; i < 3; i = i + 1) print i;");
    assert!(errors.is_empty());
    assert_eq!(stmts.len(), 1);
    match &stmts[0] {
        StmtNode::Block(b) => {
            assert_eq!(b.0.len(), 2);
            assert!(matches!(b.0[0], StmtNode::VarDec(_)));
            match &b.0[1] {
                StmtNode::While(w) => match w.body.as_ref() {
                    StmtNode::Block(body) => {
                        assert_eq!(body.0.len(), 2);
                        assert!(matches!(body.0[0], StmtNode::Print(_)));
                        assert!(matches!(body.0[1], StmtNode::Expr(ExprNode::Assign(_))));
                    }
                    other => panic!("unexpected loop body {:?}", other),
                },
                other => panic!("unexpected statement {:?}", other),
            }
        }
        other => panic!("unexpected statement {:?}", other),
    }
}

#[test]
fn parse_if_else_and_while() {
    let (stmts, errors) = parse("if (x) print 1; else print 2; while (false) {}");
    assert!(errors.is_empty());
    assert_eq!(stmts.len(), 2);
    match &stmts[0] {
        StmtNode::IfStmt(n) => assert!(n.else_branch.is_some()),
        other => panic!("unexpected statement {:?}", other),
    }
    assert!(matches!(stmts[1], StmtNode::While(_)));
}

#[test]
fn rpn_of_non_numeric_expression_is_empty() {
    let e = only_expression("a + 1;");
    assert_eq!(Rpn {}.render(&e), "");
    let e = only_expression("-(2);");
    assert_eq!(Rpn {}.render(&e), "2 -");
}

fn parse_any(source: &str) -> (Vec<StmtNode>, Vec<SyntaxError>) {
    let (tokens, _) = scan(source);
    Parser::new(tokens).parse()
}

#[test]
fn parse_invalid_target_then_right_associative_assignment() {
    let (stmts, errors) = parse_any("1 = 2; a = b = 3;");
    assert_eq!(errors.len(), 1);
    assert!(matches!(&errors[0], SyntaxError::InvalidAssignment(t) if t.t_type == TokenType::Equal && t.lexeme == "="));
    assert_eq!(stmts.len(), 1);
    match &stmts[0] {
        StmtNode::Expr(e) => assert_eq!(PrettyPrinter {}.render(e), "(= a (= b 3))"),
        other => panic!("unexpected statement {:?}", other),
    }
}

#[test]
fn parse_missing_expression_recovers_after_semicolon() {
    let (stmts, errors) = parse_any("print ; print 1;");
    assert_eq!(errors.len(), 1);
    assert!(matches!(&errors[0], SyntaxError::UnmatchedToken(t, m) if t.t_type == TokenType::Semicolon && m == "Expected expression"));
    assert_eq!(stmts.len(), 1);
    match &stmts[0] {
        StmtNode::Print(e) => assert_eq!(number_value(e), (1, 1)),
        other => panic!("unexpected statement {:?}", other),
    }
}

#[test]
fn parse_missing_name_recovers() {
    let (stmts, errors) = parse_any("var = 1; print 2;");
    assert_eq!(errors.len(), 1);
    assert!(matches!(&errors[0], SyntaxError::ExpectedToken(TokenType::Identifier, t, _) if t.t_type == TokenType::Equal));
    assert_eq!(stmts.len(), 1);
    assert!(matches!(&stmts[0], StmtNode::Print(e) if number_value(e) == (2, 1)));
}

#[test]
fn parse_associativity_and_logical_levels() {
    let (stmts, errors) = parse_any("1 - 2 - 3; a or b and c == d < e;");
    assert!(errors.is_empty());
    let texts: Vec<String> = stmts
        .iter()
        .map(|s| match s {
            StmtNode::Expr(e) => PrettyPrinter {}.render(e),
            other => panic!("unexpected statement {:?}", other),
        })
        .collect();
    assert_eq!(texts, vec!["(- (- 1 2) 3)", "(or a (and b (== c (< d e))))"]);
}

#[test]
fn parse_comma_in_print_keeps_last() {
    let (stmts, errors) = parse_any("print 1, 2;");
    assert!(errors.is_empty());
    assert!(matches!(&stmts[0], StmtNode::Print(e) if number_value(e) == (2, 1)));
}

#[test]
fn parse_var_default_and_if_else() {
    let (stmts, errors) = parse_any("var a; if (a) { print 1; } else print 2;");
    assert!(errors.is_empty());
    assert_eq!(stmts.len(), 2);
    assert!(matches!(&stmts[0], StmtNode::VarDec(v) if matches!(v.value_expr, ExprNode::Literal(LiteralNode::Nil))));
    match &stmts[1] {
        StmtNode::IfStmt(n) => {
            assert!(matches!(&n.condition, ExprNode::Variable(t) if t.lexeme == "a"));
            assert!(matches!(n.then_branch.as_ref(), StmtNode::Block(b) if b.0.len() == 1));
            assert!(matches!(n.else_branch.as_deref(), Some(StmtNode::Print(_))));
        }
        other => panic!("unexpected statement {:?}", other),
    }
}

#[test]
fn parse_for_with_all_clauses_omitted() {
    let (stmts, errors) = parse_any("for (;;) print 1;");
    assert!(errors.is_empty());
    match &stmts[0] {
        StmtNode::Block(b) => {
            assert!(matches!(b.0[0], StmtNode::Expr(ExprNode::Literal(LiteralNode::Nil))));
            match &b.0[1] {
                StmtNode::While(w) => {
                    assert!(matches!(w.condition, ExprNode::Literal(LiteralNode::True)));
                    assert!(matches!(w.body.as_ref(), StmtNode::Block(inner)
                        if matches!(inner.0[1], StmtNode::Expr(ExprNode::Literal(LiteralNode::Nil)))));
                }
                other => panic!("unexpected statement {:?}", other),
            }
        }
        other => panic!("unexpected statement {:?}", other),
    }
}
