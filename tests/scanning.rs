use rlox::{is_alpha, is_alphanumeric, is_digit, keyword_map, scan, Number, ScannerError, TokenLiteral, TokenType};

fn kinds(source: &str) -> Vec<TokenType> {
    scan(source).0.iter().map(|t| t.t_type).collect()
}

fn number_of(literal: &TokenLiteral) -> Number {
    match literal {
        TokenLiteral::Number(n) => *n,
        other => panic!("not a number literal: {:?}", other),
    }
}

#[test]
fn scan_one_plus_two() {
    let (tokens, errors) = scan("1 + 2");
    assert!(errors.is_empty());
    let types: Vec<TokenType> = tokens.iter().map(|t| t.t_type).collect();
    assert_eq!(types, vec![TokenType::Number, TokenType::Plus, TokenType::Number, TokenType::Eof]);
    let one = number_of(&tokens[0].literal);
    assert_eq!((one.numerator(), one.denominator()), (1, 1));
    let two = number_of(&tokens[2].literal);
    assert_eq!((two.numerator(), two.denominator()), (2, 1));
    assert_eq!(tokens[0].lexeme, "1");
    assert_eq!(tokens[1].lexeme, "+");
    assert_eq!(tokens[3].lexeme, "");
}

#[test]
fn scan_unterminated_string() {
    let (tokens, errors) = scan("\"abc");
    assert_eq!(errors, vec![ScannerError::UnterminatedString(1)]);
    assert!(tokens.iter().all(|t| t.t_type != TokenType::String));
    assert_eq!(kinds("\"abc"), vec![TokenType::Eof]);
}

#[test]
fn scan_string_literal_value() {
    let (tokens, errors) = scan("\"hi there\"");
    assert!(errors.is_empty());
    assert_eq!(tokens[0].t_type, TokenType::String);
    assert_eq!(tokens[0].lexeme, "\"hi there\"");
    match &tokens[0].literal {
        TokenLiteral::String(s) => assert_eq!(s, "hi there"),
        other => panic!("unexpected literal {:?}", other),
    }
}

#[test]
fn scan_multiline_string_counts_lines() {
    let (tokens, errors) = scan("\"a\nb\" x");
    assert!(errors.is_empty());
    assert_eq!(tokens[0].line, 2);
    assert_eq!(tokens[1].t_type, TokenType::Identifier);
    assert_eq!(tokens[1].line, 2);
}

#[test]
fn scan_two_character_operators() {
    assert_eq!(
        kinds("!= == <= >= ! = < >"),
        vec![
            TokenType::BangEqual,
            TokenType::EqualEqual,
            TokenType::LessEqual,
            TokenType::GreaterEqual,
            TokenType::Bang,
            TokenType::Equal,
            TokenType::Less,
            TokenType::Greater,
            TokenType::Eof
        ]
    );
}

#[test]
fn scan_punctuation() {
    assert_eq!(
        kinds("(){},.-+;*/"),
        vec![
            TokenType::LeftParen,
            TokenType::RightParen,
            TokenType::LeftBrace,
            TokenType::RightBrace,
            TokenType::Comma,
            TokenType::Dot,
            TokenType::Minus,
            TokenType::Plus,
            TokenType::Semicolon,
            TokenType::Star,
            TokenType::Slash,
            TokenType::Eof
        ]
    );
}

#[test]
fn scan_keywords_and_identifiers() {
    assert_eq!(
        kinds("and class else false for fun if nil or print return super this true var while"),
        vec![
            TokenType::And,
            TokenType::Class,
            TokenType::Else,
            TokenType::False,
            TokenType::For,
            TokenType::Fun,
            TokenType::If,
            TokenType::Nil,
            TokenType::Or,
            TokenType::Print,
            TokenType::Return,
            TokenType::Super,
            TokenType::This,
            TokenType::True,
            TokenType::Var,
            TokenType::While,
            TokenType::Eof
        ]
    );
    assert_eq!(
        kinds("Var vars _x1 printer"),
        vec![
            TokenType::Identifier,
            TokenType::Identifier,
            TokenType::Identifier,
            TokenType::Identifier,
            TokenType::Eof
        ]
    );
}

#[test]
fn scan_decimal_number() {
    let (tokens, errors) = scan("12.25");
    assert!(errors.is_empty());
    let n = number_of(&tokens[0].literal);
    assert_eq!((n.numerator(), n.denominator()), (1225, 100));
    assert_eq!(n.to_text().iter().collect::<String>(), "12.25");
}

#[test]
fn scan_dot_without_digits_is_not_part_of_number() {
    assert_eq!(kinds("1."), vec![TokenType::Number, TokenType::Dot, TokenType::Eof]);
    assert_eq!(kinds(".5"), vec![TokenType::Dot, TokenType::Number, TokenType::Eof]);
}

#[test]
fn scan_number_with_too_many_digits() {
    let (tokens, errors) = scan("1234567890123456789");
    assert_eq!(errors, vec![ScannerError::NumberOutOfRange(1)]);
    assert_eq!(tokens.len(), 1);
    let (_, errors) = scan("123456789012345678");
    assert!(errors.is_empty());
}

#[test]
fn scan_comments() {
    assert_eq!(kinds("1 // two\n3"), vec![TokenType::Number, TokenType::Number, TokenType::Eof]);
    let (tokens, errors) = scan("/* a\nb */ x");
    assert!(errors.is_empty());
    assert_eq!(tokens[0].t_type, TokenType::Identifier);
    assert_eq!(tokens[0].line, 2);
    assert_eq!(kinds("x /* never closed"), vec![TokenType::Identifier, TokenType::Eof]);
}

#[test]
fn scan_line_comment_counts_one_line() {
    let (tokens, _) = scan("// c\nx");
    assert_eq!(tokens[0].line, 2);
}

#[test]
fn scan_unrecognized_symbol_continues() {
    let (tokens, errors) = scan("1 @ 2\n#");
    assert_eq!(
        errors,
        vec![ScannerError::UnrecognizedSymbol(1, '@'), ScannerError::UnrecognizedSymbol(2, '#')]
    );
    assert_eq!(tokens.len(), 3);
    assert_eq!(tokens[2].line, 2);
}

#[test]
fn scan_empty_source() {
    let (tokens, errors) = scan("");
    assert!(errors.is_empty());
    assert_eq!(tokens.len(), 1);
    assert_eq!(tokens[0].t_type, TokenType::Eof);
    assert_eq!(tokens[0].line, 1);
}

#[test]
fn character_classes() {
    assert!(is_digit('0') && is_digit('9') && !is_digit('a'));
    assert!(is_alpha('a') && is_alpha('Z') && is_alpha('_') && !is_alpha('1'));
    assert!(is_alphanumeric('7') && is_alphanumeric('q') && !is_alphanumeric('-'));
}

#[test]
fn keyword_table_entries() {
    let map = keyword_map();
    assert_eq!(map.len(), 16);
    assert!(map.iter().any(|(w, k)| w == "while" && *k == TokenType::While));
    assert!(map.iter().any(|(w, k)| w == "and" && *k == TokenType::And));
}

#[test]
fn scanner_object_scans_whole_source() {
    let mut scanner = rlox::Scanner::new("var x = 1;\nprint x;".to_string());
    let (tokens, errors) = scanner.scan_tokens();
    assert!(errors.is_empty());
    assert_eq!(tokens.len(), 9);
    assert_eq!(tokens[4].t_type, TokenType::Semicolon);
    assert_eq!(tokens[5].line, 2);
    assert_eq!(tokens[8].t_type, TokenType::Eof);
    assert_eq!(tokens[8].line, 2);
}

#[test]
fn scan_longest_operator_first() {
    let (tokens, errors) = scan("!= == <= >= ! = < > / <==");
    assert!(errors.is_empty());
    let types: Vec<TokenType> = tokens.iter().map(|t| t.t_type).collect();
    assert_eq!(
        types,
        vec![
            TokenType::BangEqual,
            TokenType::EqualEqual,
            TokenType::LessEqual,
            TokenType::GreaterEqual,
            TokenType::Bang,
            TokenType::Equal,
            TokenType::Less,
            TokenType::Greater,
            TokenType::Slash,
            TokenType::LessEqual,
            TokenType::Equal,
            TokenType::Eof
        ]
    );
}

#[test]
fn scan_numbers_and_dots() {
    let (tokens, errors) = scan("12.5 3. .4");
    assert!(errors.is_empty());
    let pairs: Vec<(TokenType, String)> = tokens.iter().map(|t| (t.t_type, t.lexeme.clone())).collect();
    assert_eq!(
        pairs,
        vec![
            (TokenType::Number, "12.5".to_string()),
            (TokenType::Number, "3".to_string()),
            (TokenType::Dot, ".".to_string()),
            (TokenType::Dot, ".".to_string()),
            (TokenType::Number, "4".to_string()),
            (TokenType::Eof, "".to_string())
        ]
    );
    let n = number_of(&tokens[0].literal);
    assert!(n.equals(&Number::new(25, 2).unwrap()));
}

#[test]
fn scan_comments_and_lines() {
    let (tokens, errors) = scan("// c\n1 /* x\ny */ 2 /* open");
    assert!(errors.is_empty());
    let pairs: Vec<(TokenType, u64)> = tokens.iter().map(|t| (t.t_type, t.line)).collect();
    assert_eq!(pairs, vec![(TokenType::Number, 2), (TokenType::Number, 3), (TokenType::Eof, 3)]);
}

#[test]
fn scan_identifiers_are_maximal() {
    let (tokens, errors) = scan("var Var _x1 orchid or nil");
    assert!(errors.is_empty());
    let types: Vec<TokenType> = tokens.iter().map(|t| t.t_type).collect();
    assert_eq!(
        types,
        vec![
            TokenType::Var,
            TokenType::Identifier,
            TokenType::Identifier,
            TokenType::Identifier,
            TokenType::Or,
            TokenType::Nil,
            TokenType::Eof
        ]
    );
    assert_eq!(tokens[3].lexeme, "orchid");
}
