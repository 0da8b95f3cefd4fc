use rlox::{Environment, Interpreter, Lox, Number, OperandRule, RunReport, RunTimeError, ScannerError, Token, TokenLiteral, TokenType, Value};

fn run(source: &str) -> RunReport {
    let mut lox = Lox::new();
    lox.run(source)
}

fn output_of(source: &str) -> Vec<String> {
    let report = run(source);
    assert!(report.scan_errors.is_empty());
    assert!(report.syntax_errors.is_empty());
    assert!(report.runtime_error.is_none(), "{:?}", report.runtime_error);
    report.output
}

fn name(text: &str) -> Token {
    Token::new(TokenType::Identifier, text.to_string(), TokenLiteral::Nothing, 1)
}

#[test]
fn block_shadows_and_restores() {
    assert_eq!(output_of("var a = 1; { var a = 2; print a; } print a;"), vec!["2", "1"]);
}

#[test]
fn assign_to_undeclared_fails() {
    let report = run("a = 5;");
    match report.runtime_error {
        Some(RunTimeError::UndefinedVariable(t)) => assert_eq!(t.lexeme, "a"),
        other => panic!("unexpected result {:?}", other),
    }
}

#[test]
fn for_loop_counts_and_scopes_its_variable() {
    assert_eq!(output_of("for (var i = 0; i < 3; i = i + 1) print i;"), vec!["0", "1", "2"]);
    let report = run("for (var i = 0; i < 3; i = i + 1) print i; print i;");
    assert_eq!(report.output, vec!["0", "1", "2"]);
    assert!(matches!(report.runtime_error, Some(RunTimeError::UndefinedVariable(_))));
}

#[test]
fn plus_concatenates_strings_and_rejects_mixed() {
    assert_eq!(output_of("print \"a\" + \"b\";"), vec!["ab"]);
    let report = run("print 1 + \"b\";");
    assert!(report.output.is_empty());
    match report.runtime_error {
        Some(RunTimeError::InvalidOperand(t, rule)) => {
            assert_eq!(t.t_type, TokenType::Plus);
            assert_eq!(rule, OperandRule::NumbersOrStrings);
        }
        other => panic!("unexpected result {:?}", other),
    }
}

#[test]
fn grouping_is_transparent() {
    assert_eq!(output_of("print (5);"), output_of("print 5;"));
    assert_eq!(output_of("print (1 + 2) * 3;"), vec!["9"]);
    assert_eq!(output_of("var a = 1; print (a = 4); print a;"), vec!["4", "4"]);
}

#[test]
fn arithmetic_and_comparison() {
    assert_eq!(
        output_of("print 7 - 10; print 2 * 3.5; print 1 / 4; print 1 / 3; print -(2); print 3 >= 3; print 2 > 3; print 2 <= 1; print 1 < 2;"),
        vec!["-3", "7", "0.25", "0.3333333333333333", "-2", "true", "false", "false", "true"]
    );
}

#[test]
fn division_by_zero_fails() {
    let report = run("print 1 / 0;");
    assert!(matches!(report.runtime_error, Some(RunTimeError::DivisionByZero(ref t)) if t.t_type == TokenType::Slash));
}

#[test]
fn negating_a_string_fails() {
    let report = run("print -\"x\";");
    assert!(matches!(report.runtime_error, Some(RunTimeError::InvalidOperand(ref t, OperandRule::Numbers)) if t.t_type == TokenType::Minus));
    let report = run("print 1 < \"x\";");
    assert!(matches!(report.runtime_error, Some(RunTimeError::InvalidOperand(_, OperandRule::Numbers))));
}

#[test]
fn bang_negates_truthiness() {
    assert_eq!(
        output_of("print !true; print !nil; print !0; print !\"\";"),
        vec!["false", "true", "false", "false"]
    );
}

#[test]
fn equality_between_variants() {
    assert_eq!(
        output_of("print 1 == 1.0; print \"a\" == \"a\"; print nil == nil; print 1 == \"1\"; print nil != false; print true == true;"),
        vec!["true", "true", "true", "false", "true", "true"]
    );
}

#[test]
fn logical_operators_short_circuit() {
    assert_eq!(
        output_of("print nil or \"x\"; print 1 or undefined; print false and undefined; print 1 and 2;"),
        vec!["x", "1", "false", "2"]
    );
}

#[test]
fn if_else_and_while() {
    assert_eq!(
        output_of("var n = 0; while (n < 3) { if (n == 1) print \"one\"; else print n; n = n + 1; }"),
        vec!["0", "one", "2"]
    );
}

#[test]
fn uninitialized_variable_is_nil() {
    assert_eq!(output_of("var x; print x;"), vec!["nil"]);
}

#[test]
fn error_in_block_restores_scope() {
    let mut lox = Lox::new();
    let report = lox.run("var a = 1; { var a = 2; b = 3; }");
    assert!(matches!(report.runtime_error, Some(RunTimeError::UndefinedVariable(_))));
    let report = lox.run("print a;");
    assert_eq!(report.output, vec!["1"]);
}

#[test]
fn state_persists_between_runs() {
    let mut lox = Lox::new();
    assert!(lox.run("var a = 10;").output.is_empty());
    assert_eq!(lox.run("a = a + 1; print a;").output, vec!["11"]);
    assert!(!lox.had_error());
}

#[test]
fn scan_error_skips_running() {
    let mut lox = Lox::new();
    let report = lox.run("print 1; @");
    assert_eq!(report.scan_errors, vec![ScannerError::UnrecognizedSymbol(1, '@')]);
    assert!(report.output.is_empty());
    assert!(lox.had_error());
    lox.reset_error();
    assert!(!lox.had_error());
}

#[test]
fn syntax_error_skips_running() {
    let report = run("print 1; print ;");
    assert_eq!(report.syntax_errors.len(), 1);
    assert!(report.output.is_empty());
    assert!(report.runtime_error.is_none());
}

#[test]
fn runtime_error_stops_remaining_statements() {
    let report = run("print 1; print x; print 2;");
    assert_eq!(report.output, vec!["1"]);
    assert!(report.runtime_error.is_some());
}

#[test]
fn number_out_of_range() {
    let report = run("print 9000000000000000000 + 1;");
    assert_eq!(report.scan_errors, vec![ScannerError::NumberOutOfRange(1)]);
    let report = run("var a = 900000000000000000; print a * 100;");
    assert!(matches!(report.runtime_error, Some(RunTimeError::NumberOutOfRange(_))));
}

#[test]
fn interpreter_takes_output() {
    let (tokens, _) = rlox::scan("print 1; print \"two\";");
    let mut parser = rlox::Parser::new(tokens);
    let (stmts, errors) = parser.parse();
    assert!(errors.is_empty());
    let mut interpreter = Interpreter::new();
    assert!(interpreter.interpret(stmts).is_ok());
    assert_eq!(interpreter.take_output(), vec!["1", "two"]);
    assert!(interpreter.take_output().is_empty());
}

#[test]
fn environment_define_get_assign() {
    let mut root = Environment::new();
    root.put("a".to_string(), Value::Bool(true));
    assert!(matches!(root.get(&name("a")), Ok(Value::Bool(true))));
    assert!(matches!(root.get(&name("b")), Err(RunTimeError::UndefinedVariable(_))));
    assert!(matches!(root.assign(&name("b"), Value::Nil), Err(RunTimeError::UndefinedVariable(_))));
    let mut inner = Environment::enclosing(root);
    assert!(inner.parent().is_some());
    inner.put("a".to_string(), Value::Nil);
    assert!(matches!(inner.get(&name("a")), Ok(Value::Nil)));
    let mut root = inner.into_parent().unwrap();
    assert!(root.parent().is_none());
    assert!(matches!(root.get(&name("a")), Ok(Value::Bool(true))));
    assert!(root.assign(&name("a"), Value::Bool(false)).is_ok());
    assert!(matches!(root.get(&name("a")), Ok(Value::Bool(false))));
}

#[test]
fn assign_reaches_outer_scope() {
    let mut root = Environment::new();
    root.put("x".to_string(), Value::Nil);
    let mut inner = Environment::enclosing(root);
    assert!(inner.assign(&name("x"), Value::Bool(true)).is_ok());
    let root = inner.into_parent().unwrap();
    assert!(matches!(root.get(&name("x")), Ok(Value::Bool(true))));
}

#[test]
fn number_operations() {
    let half = Number::new(1, 2).unwrap();
    let third = Number::new(1, 3).unwrap();
    let sum = half.add(&third).unwrap();
    assert_eq!((sum.numerator(), sum.denominator()), (5, 6));
    let diff = half.sub(&third).unwrap();
    assert_eq!((diff.numerator(), diff.denominator()), (1, 6));
    let prod = half.mul(&third).unwrap();
    assert_eq!((prod.numerator(), prod.denominator()), (1, 6));
    let quot = half.div(&Number::from_int(-2)).unwrap();
    assert_eq!((quot.numerator(), quot.denominator()), (-1, 4));
    assert!(half.div(&Number::from_int(0)).is_none());
    assert!(Number::from_int(i64::MIN).neg().is_none());
    assert!(Number::new(1, 0).is_none());
    assert!(Number::new(2, 4).unwrap().equals(&half));
    assert!(third.less_than(&half));
    assert_eq!(Number::new(-7, 2).unwrap().to_text().iter().collect::<String>(), "-3.5");
    assert_eq!(Number::from_int(i64::MAX).add(&Number::from_int(1)).map(|n| n.numerator()), None);
}

#[test]
fn value_text_and_truthiness() {
    assert_eq!(Value::Nil.to_text(), "nil");
    assert_eq!(Value::Bool(false).to_text(), "false");
    assert_eq!(Value::Number(Number::new(3, 4).unwrap()).to_text(), "0.75");
    assert!(!Value::Nil.is_truthy());
    assert!(Value::Number(Number::from_int(0)).is_truthy());
    assert!(Value::String(String::new()).is_truthy());
    assert!(Value::String("x".to_string()).is_equal(&Value::String("x".to_string())));
}

#[test]
fn for_loop_clauses_may_be_omitted() {
    assert!(output_of("for (; false;) print 1;").is_empty());
    assert_eq!(output_of("var i = 0; for (; i < 2;) { print i; i = i + 1; }"), vec!["0", "1"]);
    assert_eq!(output_of("var i = 5; for (i = 0; i < 2; i = i + 1) print i; print i;"), vec!["0", "1", "2"]);
}

#[test]
fn nested_blocks_and_assignment_to_outer() {
    assert_eq!(
        output_of("var a = \"outer\"; { var b = 1; { a = \"changed\"; var a = \"inner\"; print a; } print b; } print a;"),
        vec!["inner", "1", "changed"]
    );
}

#[test]
fn diagnostics_carry_line_and_location() {
    let report = run("var x = 1;\nprint x +;");
    assert_eq!(report.syntax_errors.len(), 1);
    let d = report.syntax_errors[0].diagnostic();
    assert_eq!(d.line, 2);
    assert_eq!(d.location, ";");
    assert_eq!(d.message, "Expected expression");
    let report = run("\n\nprint y;");
    let d = report.runtime_error.unwrap().diagnostic();
    assert_eq!((d.line, d.location.as_str(), d.message.as_str()), (3, "y", "Undefined variable"));
    let d = ScannerError::UnrecognizedSymbol(4, '$').diagnostic();
    assert_eq!((d.line, d.location.as_str(), d.message.as_str()), (4, "", "Unrecognized character: $"));
    let mut lox = Lox::new();
    let d = lox.error(7, "custom".to_string());
    assert_eq!((d.line, d.message.as_str()), (7, "custom"));
    assert!(lox.had_error());
}

#[test]
fn arithmetic_results_are_in_lowest_terms() {
    let sixth = Number::new(1, 6).unwrap();
    let third = Number::new(1, 3).unwrap();
    let sum = sixth.add(&third).unwrap();
    assert_eq!((sum.numerator(), sum.denominator()), (1, 2));
    let tenths = Number::new(5, 10).unwrap().mul(&Number::from_int(4)).unwrap();
    assert_eq!((tenths.numerator(), tenths.denominator()), (2, 1));
    assert_eq!(
        output_of("var x = 1; for (var i = 0; i < 60; i = i + 1) x = x / 3 * 3; print x; print 0.5 + 0.25;"),
        vec!["1", "0.75"]
    );
}
