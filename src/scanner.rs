use vstd::prelude::*;

use crate::number::{Number, Ratio};
use crate::text::{chars_of, string_from_chars};
use crate::token::{literal_view, token_view, views, LiteralView, Token, TokenLiteral, TokenType, TokenView};

verus! {

/// A lexical error. Scanning goes on after each one.
#[derive(Clone, Copy, Debug, PartialEq, Eq, Structural)]
pub enum ScannerError {
    /// A character that starts no token, with its line.
    UnrecognizedSymbol(u64, char),
    /// A string literal that reaches the end of the input, with the line there.
    UnterminatedString(u64),
    /// A number literal with more than [`MAX_NUMBER_DIGITS`] digits, with its line.
    NumberOutOfRange(u64),
}

/// The most digits a number literal may hold.
pub const MAX_NUMBER_DIGITS: u64 = 18;

pub open spec fn spec_is_digit(c: char) -> bool {
    '0' <= c <= '9'
}

pub open spec fn spec_is_alpha(c: char) -> bool {
    ('a' <= c <= 'z') || ('A' <= c <= 'Z') || c == '_'
}

pub open spec fn spec_is_alphanumeric(c: char) -> bool {
    spec_is_digit(c) || spec_is_alpha(c)
}

/// The kind of a one-character token.
pub open spec fn single_char_kind(c: char) -> Option<TokenType> {
    if c == '(' { Some(TokenType::LeftParen) }
    else if c == ')' { Some(TokenType::RightParen) }
    else if c == '{' { Some(TokenType::LeftBrace) }
    else if c == '}' { Some(TokenType::RightBrace) }
    else if c == ',' { Some(TokenType::Comma) }
    else if c == '.' { Some(TokenType::Dot) }
    else if c == '-' { Some(TokenType::Minus) }
    else if c == '+' { Some(TokenType::Plus) }
    else if c == ';' { Some(TokenType::Semicolon) }
    else if c == '/' { Some(TokenType::Slash) }
    else if c == '*' { Some(TokenType::Star) }
    else if c == '!' { Some(TokenType::Bang) }
    else if c == '=' { Some(TokenType::Equal) }
    else if c == '>' { Some(TokenType::Greater) }
    else if c == '<' { Some(TokenType::Less) }
    else { None }
}

/// The kind of an operator or punctuation lexeme of one or two characters.
pub open spec fn operator_kind(s: Seq<char>) -> Option<TokenType> {
    if s.len() == 1 {
        single_char_kind(s[0])
    } else if s.len() == 2 && s[1] == '=' {
        if s[0] == '!' { Some(TokenType::BangEqual) }
        else if s[0] == '=' { Some(TokenType::EqualEqual) }
        else if s[0] == '>' { Some(TokenType::GreaterEqual) }
        else if s[0] == '<' { Some(TokenType::LessEqual) }
        else { None }
    } else {
        None
    }
}

/// The reserved words and their kinds.
pub open spec fn keyword_table() -> Seq<(Seq<char>, TokenType)> {
    seq![
        (seq!['a', 'n', 'd'], TokenType::And),
        (seq!['c', 'l', 'a', 's', 's'], TokenType::Class),
        (seq!['e', 'l', 's', 'e'], TokenType::Else),
        (seq!['f', 'a', 'l', 's', 'e'], TokenType::False),
        (seq!['f', 'o', 'r'], TokenType::For),
        (seq!['f', 'u', 'n'], TokenType::Fun),
        (seq!['i', 'f'], TokenType::If),
        (seq!['n', 'i', 'l'], TokenType::Nil),
        (seq!['o', 'r'], TokenType::Or),
        (seq!['p', 'r', 'i', 'n', 't'], TokenType::Print),
        (seq!['r', 'e', 't', 'u', 'r', 'n'], TokenType::Return),
        (seq!['s', 'u', 'p', 'e', 'r'], TokenType::Super),
        (seq!['t', 'h', 'i', 's'], TokenType::This),
        (seq!['t', 'r', 'u', 'e'], TokenType::True),
        (seq!['v', 'a', 'r'], TokenType::Var),
        (seq!['w', 'h', 'i', 'l', 'e'], TokenType::While),
    ]
}

/// The kind of the first entry from `i` on in the keyword table that spells `s`.
pub open spec fn keyword_from(s: Seq<char>, i: int) -> Option<TokenType>
    decreases keyword_table().len() - i,
{
    if i < 0 || i >= keyword_table().len() {
        None
    } else if keyword_table()[i].0 == s {
        Some(keyword_table()[i].1)
    } else {
        keyword_from(s, i + 1)
    }
}

/// The keyword kind of `s`, if `s` is a reserved word (case-sensitive).
pub open spec fn keyword_kind(s: Seq<char>) -> Option<TokenType> {
    keyword_from(s, 0)
}

pub open spec fn identifier_text(s: Seq<char>) -> bool {
    &&& s.len() > 0
    &&& spec_is_alpha(s[0])
    &&& forall|i: int| 1 <= i < s.len() ==> spec_is_alphanumeric(#[trigger] s[i])
}

/// A string literal's lexeme: quoted, with no quote inside.
pub open spec fn string_text(s: Seq<char>) -> bool {
    &&& s.len() >= 2
    &&& s[0] == '"'
    &&& s[s.len() - 1] == '"'
    &&& forall|i: int| 1 <= i < s.len() - 1 ==> #[trigger] s[i] != '"'
}

/// A number literal's lexeme: digits with at most one point, which has a
/// digit on each side.
pub open spec fn number_text(s: Seq<char>) -> bool {
    &&& s.len() > 0
    &&& spec_is_digit(s[0])
    &&& spec_is_digit(s[s.len() - 1])
    &&& forall|i: int| 0 <= i < s.len() ==> (#[trigger] s[i] == '.' || spec_is_digit(s[i]))
    &&& forall|i: int, j: int| 0 <= i < s.len() && 0 <= j < s.len() && #[trigger] s[i] == '.'
        && #[trigger] s[j] == '.' ==> i == j
}

pub open spec fn has_point(s: Seq<char>) -> bool
    decreases s.len(),
{
    s.len() > 0 && (s.last() == '.' || has_point(s.drop_last()))
}

/// The number of digits in `s`.
pub open spec fn digit_count(s: Seq<char>) -> nat
    decreases s.len(),
{
    if s.len() == 0 {
        0
    } else if s.last() == '.' {
        digit_count(s.drop_last())
    } else {
        digit_count(s.drop_last()) + 1
    }
}

/// The digits of `s` read as one whole number, the point left out.
pub open spec fn digits_value(s: Seq<char>) -> int
    decreases s.len(),
{
    if s.len() == 0 {
        0
    } else if s.last() == '.' {
        digits_value(s.drop_last())
    } else {
        digits_value(s.drop_last()) * 10 + (s.last() as int - '0' as int)
    }
}

/// The number of digits after the point.
pub open spec fn fraction_len(s: Seq<char>) -> nat
    decreases s.len(),
{
    if s.len() == 0 || s.last() == '.' {
        0
    } else if has_point(s.drop_last()) {
        fraction_len(s.drop_last()) + 1
    } else {
        0
    }
}

pub open spec fn pow10(k: nat) -> int
    decreases k,
{
    if k == 0 { 1 } else { 10 * pow10((k - 1) as nat) }
}

/// The value a number literal stands for.
pub open spec fn number_value(s: Seq<char>) -> Ratio {
    Ratio { num: digits_value(s), den: pow10(fraction_len(s)) }
}

/// What a token of kind `kind` with lexeme `lex` and literal `literal` looks like.
pub open spec fn lexeme_shape(kind: TokenType, lex: Seq<char>, literal: TokenLiteral) -> bool {
    match kind {
        TokenType::Identifier => identifier_text(lex) && keyword_kind(lex) is None
            && literal is Nothing,
        TokenType::String => string_text(lex) && (literal matches TokenLiteral::String(s) && s@
            == lex.subrange(1, lex.len() - 1)),
        TokenType::Number => number_text(lex) && digit_count(lex) <= MAX_NUMBER_DIGITS && (
        literal matches TokenLiteral::Number(n) && n@ == number_value(lex)),
        TokenType::Eof => false,
        _ => literal is Nothing && (operator_kind(lex) == Some(kind) || keyword_kind(lex) == Some(
            kind,
        )),
    }
}

/// A token that the scanner produces before the end-of-input token.
pub open spec fn token_wf(t: Token) -> bool {
    lexeme_shape(t.t_type, t.lexeme@, t.literal)
}

/// A character that may begin a lexeme, a comment or white space.
pub open spec fn starts_lexeme(c: char) -> bool {
    ||| single_char_kind(c) is Some
    ||| c == ' ' || c == '\t' || c == '\r' || c == '\n' || c == '"'
    ||| spec_is_digit(c)
    ||| spec_is_alpha(c)
}

pub open spec fn error_wf(e: ScannerError) -> bool {
    match e {
        ScannerError::UnrecognizedSymbol(_, c) => !starts_lexeme(c),
        _ => true,
    }
}

/// The number of line breaks in `s`.
pub open spec fn newlines(s: Seq<char>) -> nat
    decreases s.len(),
{
    if s.len() == 0 {
        0
    } else {
        newlines(s.drop_last()) + if s.last() == '\n' { 1nat } else { 0nat }
    }
}

/// The line on which position `i` of `src` lies, counting from 1.
pub open spec fn line_at(src: Seq<char>, i: int) -> u64 {
    (1 + newlines(src.subrange(0, i))) as u64
}

/// The end of the run of digits that starts at `i`.
pub open spec fn digits_end(src: Seq<char>, i: int) -> int
    decreases src.len() - i,
{
    if 0 <= i < src.len() && spec_is_digit(src[i]) {
        digits_end(src, i + 1)
    } else {
        i
    }
}

/// The end of the run of letters, digits and underscores that starts at `i`.
pub open spec fn word_end(src: Seq<char>, i: int) -> int
    decreases src.len() - i,
{
    if 0 <= i < src.len() && spec_is_alphanumeric(src[i]) {
        word_end(src, i + 1)
    } else {
        i
    }
}

/// The first position from `i` on that holds `c`, or the end of `src`.
pub open spec fn find_from(src: Seq<char>, i: int, c: char) -> int
    decreases src.len() - i,
{
    if 0 <= i < src.len() {
        if src[i] == c {
            i
        } else {
            find_from(src, i + 1, c)
        }
    } else {
        src.len() as int
    }
}

/// Just past the first `*/` from `i` on, or the end of `src`.
pub open spec fn comment_close(src: Seq<char>, i: int) -> int
    decreases src.len() - i,
{
    if 0 <= i < src.len() {
        if src[i] == '*' && i + 1 < src.len() && src[i + 1] == '/' {
            i + 2
        } else {
            comment_close(src, i + 1)
        }
    } else {
        src.len() as int
    }
}

/// The end of the number literal that starts at `pos`: digits, then a
/// point and digits where a digit follows the point.
pub open spec fn number_end(src: Seq<char>, pos: int) -> int {
    let e = digits_end(src, pos + 1);
    if e + 1 < src.len() && src[e] == '.' && spec_is_digit(src[e + 1]) {
        digits_end(src, e + 1)
    } else {
        e
    }
}

/// What one step of the scan at a position gives: where the next step
/// starts, and the token or the error it produced, if any.
pub struct Lexed {
    pub next: int,
    pub token: Option<TokenView>,
    pub error: Option<ScannerError>,
}

/// The token `src[pos..end]` of kind `kind`, on the line where it ends.
pub open spec fn token_lexed(src: Seq<char>, pos: int, end: int, kind: TokenType, literal: LiteralView) -> Lexed {
    Lexed {
        next: end,
        token: Some(
            TokenView {
                t_type: kind,
                lexeme: src.subrange(pos, end),
                literal,
                line: line_at(src, end),
            },
        ),
        error: None,
    }
}

pub open spec fn skip_to(end: int) -> Lexed {
    Lexed { next: end, token: None, error: None }
}

pub open spec fn error_lexed(end: int, e: ScannerError) -> Lexed {
    Lexed { next: end, token: None, error: Some(e) }
}

/// One step of the scan at `pos`, which is inside `src`: a two-character
/// operator before its one-character prefix; `//` to the end of the line and
/// `/* ... */` to its close or to the end; white space skipped; a string to
/// its closing quote, across lines; a number; an identifier or keyword; any
/// other character reported and skipped.
pub open spec fn lex_step(src: Seq<char>, pos: int) -> Lexed {
    let c = src[pos];
    let two = pos + 1 < src.len() && src[pos + 1] == '=';
    let single = token_lexed(src, pos, pos + 1, match single_char_kind(c) {
        Some(k) => k,
        None => TokenType::Eof,
    }, LiteralView::Nothing);
    if c == '!' {
        if two { token_lexed(src, pos, pos + 2, TokenType::BangEqual, LiteralView::Nothing) } else { single }
    } else if c == '=' {
        if two { token_lexed(src, pos, pos + 2, TokenType::EqualEqual, LiteralView::Nothing) } else { single }
    } else if c == '>' {
        if two { token_lexed(src, pos, pos + 2, TokenType::GreaterEqual, LiteralView::Nothing) } else { single }
    } else if c == '<' {
        if two { token_lexed(src, pos, pos + 2, TokenType::LessEqual, LiteralView::Nothing) } else { single }
    } else if c == '/' {
        if pos + 1 < src.len() && src[pos + 1] == '/' {
            skip_to(find_from(src, pos + 2, '\n'))
        } else if pos + 1 < src.len() && src[pos + 1] == '*' {
            skip_to(comment_close(src, pos + 2))
        } else {
            single
        }
    } else if single_char_kind(c) is Some {
        single
    } else if c == ' ' || c == '\t' || c == '\r' || c == '\n' {
        skip_to(pos + 1)
    } else if c == '"' {
        let j = find_from(src, pos + 1, '"');
        if j < src.len() {
            token_lexed(src, pos, j + 1, TokenType::String, LiteralView::Str(src.subrange(pos + 1, j)))
        } else {
            error_lexed(src.len() as int, ScannerError::UnterminatedString(line_at(src, src.len() as int)))
        }
    } else if spec_is_digit(c) {
        let e = number_end(src, pos);
        let lex = src.subrange(pos, e);
        if digit_count(lex) > MAX_NUMBER_DIGITS {
            error_lexed(e, ScannerError::NumberOutOfRange(line_at(src, e)))
        } else {
            token_lexed(src, pos, e, TokenType::Number, LiteralView::Num(number_value(lex)))
        }
    } else if spec_is_alpha(c) {
        let e = word_end(src, pos + 1);
        let w = src.subrange(pos, e);
        token_lexed(src, pos, e, match keyword_kind(w) {
            Some(k) => k,
            None => TokenType::Identifier,
        }, LiteralView::Nothing)
    } else {
        error_lexed(pos + 1, ScannerError::UnrecognizedSymbol(line_at(src, pos + 1), c))
    }
}

pub open spec fn opt_seq<T>(o: Option<T>) -> Seq<T> {
    match o {
        Some(x) => seq![x],
        None => Seq::empty(),
    }
}

/// The tokens and errors of the scan of `src` from `pos` to the end.
pub open spec fn scan_from(src: Seq<char>, pos: int) -> (Seq<TokenView>, Seq<ScannerError>)
    decreases src.len() - pos,
{
    if pos < 0 || pos >= src.len() {
        (Seq::empty(), Seq::empty())
    } else {
        let s = lex_step(src, pos);
        if s.next <= pos || s.next > src.len() {
            (Seq::empty(), Seq::empty())
        } else {
            let rest = scan_from(src, s.next);
            (opt_seq(s.token) + rest.0, opt_seq(s.error) + rest.1)
        }
    }
}

/// The end-of-input token of `src`.
pub open spec fn eof_view(src: Seq<char>) -> TokenView {
    TokenView {
        t_type: TokenType::Eof,
        lexeme: Seq::empty(),
        literal: LiteralView::Nothing,
        line: line_at(src, src.len() as int),
    }
}

/// The whole scan of `src`: its tokens, ending with the end-of-input token,
/// and its lexical errors, each in source order.
pub open spec fn scan_spec(src: Seq<char>) -> (Seq<TokenView>, Seq<ScannerError>) {
    (scan_from(src, 0).0.push(eof_view(src)), scan_from(src, 0).1)
}

proof fn lemma_newlines_bound(s: Seq<char>)
    ensures
        newlines(s) <= s.len(),
    decreases s.len(),
{
    if s.len() > 0 {
        lemma_newlines_bound(s.drop_last());
    }
}

proof fn lemma_digit_count_prefix(s: Seq<char>, k: int)
    requires
        0 <= k <= s.len(),
    ensures
        digit_count(s.subrange(0, k)) <= digit_count(s),
    decreases s.len(),
{
    if k < s.len() {
        lemma_digit_count_prefix(s.drop_last(), k);
        assert(s.subrange(0, k) =~= s.drop_last().subrange(0, k));
    } else {
        assert(s.subrange(0, k) =~= s);
    }
}

proof fn lemma_keyword_entries(i: int)
    requires
        0 <= i <= keyword_table().len(),
    ensures
        forall|s: Seq<char>| #[trigger] keyword_from(s, i) is Some ==> exists|j: int|
            i <= j < keyword_table().len() && keyword_table()[j].0 == s,
    decreases keyword_table().len() - i,
{
    if i < keyword_table().len() {
        lemma_keyword_entries(i + 1);
        assert forall|s: Seq<char>| #[trigger] keyword_from(s, i) is Some implies exists|j: int|
            i <= j < keyword_table().len() && keyword_table()[j].0 == s by {
            if keyword_table()[i].0 != s {
                assert(keyword_from(s, i + 1) is Some);
            }
        }
    }
}

proof fn lemma_keyword_kinds(s: Seq<char>, i: int)
    ensures
        keyword_from(s, i) matches Some(k) ==> k != TokenType::Identifier && k != TokenType::String
            && k != TokenType::Number && k != TokenType::Eof,
    decreases keyword_table().len() - i,
{
    if 0 <= i < keyword_table().len() {
        lemma_keyword_kinds(s, i + 1);
    }
}

pub fn is_digit(c: char) -> (r: bool)
    ensures
        r == spec_is_digit(c),
{
    c >= '0' && c <= '9'
}

pub fn is_alpha(c: char) -> (r: bool)
    ensures
        r == spec_is_alpha(c),
{
    c >= 'a' && c <= 'z' || c >= 'A' && c <= 'Z' || c == '_'
}

pub fn is_alphanumeric(c: char) -> (r: bool)
    ensures
        r == spec_is_alphanumeric(c),
{
    is_digit(c) || is_alpha(c)
}

fn keyword_entry(text: Vec<char>, kind: TokenType) -> (r: (String, TokenType))
    ensures
        r.0@ == text@,
        r.1 == kind,
{
    (string_from_chars(&text), kind)
}

/// The keyword table in the order of [`keyword_table`]: each reserved word with its kind.
pub fn keyword_map() -> (r: Vec<(String, TokenType)>)
    ensures
        keywords_match(r@),
{
    let mut v: Vec<(String, TokenType)> = Vec::new();
    v.push(keyword_entry(vec!['a', 'n', 'd'], TokenType::And));
    v.push(keyword_entry(vec!['c', 'l', 'a', 's', 's'], TokenType::Class));
    v.push(keyword_entry(vec!['e', 'l', 's', 'e'], TokenType::Else));
    v.push(keyword_entry(vec!['f', 'a', 'l', 's', 'e'], TokenType::False));
    v.push(keyword_entry(vec!['f', 'o', 'r'], TokenType::For));
    v.push(keyword_entry(vec!['f', 'u', 'n'], TokenType::Fun));
    v.push(keyword_entry(vec!['i', 'f'], TokenType::If));
    v.push(keyword_entry(vec!['n', 'i', 'l'], TokenType::Nil));
    v.push(keyword_entry(vec!['o', 'r'], TokenType::Or));
    v.push(keyword_entry(vec!['p', 'r', 'i', 'n', 't'], TokenType::Print));
    v.push(keyword_entry(vec!['r', 'e', 't', 'u', 'r', 'n'], TokenType::Return));
    v.push(keyword_entry(vec!['s', 'u', 'p', 'e', 'r'], TokenType::Super));
    v.push(keyword_entry(vec!['t', 'h', 'i', 's'], TokenType::This));
    v.push(keyword_entry(vec!['t', 'r', 'u', 'e'], TokenType::True));
    v.push(keyword_entry(vec!['v', 'a', 'r'], TokenType::Var));
    v.push(keyword_entry(vec!['w', 'h', 'i', 'l', 'e'], TokenType::While));
    v
}

pub open spec fn keywords_match(kw: Seq<(String, TokenType)>) -> bool {
    &&& kw.len() == keyword_table().len()
    &&& forall|i: int| 0 <= i < kw.len() ==> (#[trigger] kw[i]).0@ == keyword_table()[i].0
        && kw[i].1 == keyword_table()[i].1
}

/// A single left-to-right pass over a source text that turns it into tokens.
pub struct Scanner {
    source: Vec<char>,
    tokens: Vec<Token>,
    errors: Vec<ScannerError>,
    line: u64,
    start: usize,
    current: usize,
    keywords: Vec<(String, TokenType)>,
    /// Where in the source each token's lexeme lies.
    spans: Ghost<Seq<(int, int)>>,
}

/// Scans `source` whole: the tokens, ending with the end-of-input token,
/// and the lexical errors met on the way.
pub fn scan(source: &str) -> (r: (Vec<Token>, Vec<ScannerError>))
    requires
        source@.len() < u64::MAX,
        source@.len() < usize::MAX,
    ensures
        scan_result(source@, r.0@, r.1@),
        views(r.0@) == scan_spec(source@).0,
        r.1@ == scan_spec(source@).1,
{
    let mut scanner = Scanner::new(String::from_str(source));
    scanner.scan_tokens()
}

/// What holds of the result of scanning `source`: every token but the last is
/// well formed, the last one is the end-of-input token on the last line, and
/// each error names a character that starts no lexeme.
pub open spec fn scan_result(source: Seq<char>, tokens: Seq<Token>, errors: Seq<ScannerError>) -> bool {
    &&& tokens.len() >= 1
    &&& tokens.last().t_type == TokenType::Eof
    &&& tokens.last().lexeme@ == Seq::<char>::empty()
    &&& tokens.last().literal is Nothing
    &&& tokens.last().line == 1 + newlines(source)
    &&& forall|i: int| 0 <= i < tokens.len() - 1 ==> token_wf(#[trigger] tokens[i])
    &&& forall|i: int| 0 <= i < errors.len() ==> error_wf(#[trigger] errors[i])
    &&& exists|spans: Seq<(int, int)>| #[trigger] lexemes_in_order(source, tokens.drop_last(), spans)
}

/// Each token's lexeme is the source text at its span, the spans follow
/// one another without overlap, and each token's line is the line on
/// which its lexeme ends.
pub open spec fn lexemes_in_order(source: Seq<char>, tokens: Seq<Token>, spans: Seq<(int, int)>) -> bool {
    &&& spans.len() == tokens.len()
    &&& forall|i: int|
        0 <= i < spans.len() ==> {
            &&& 0 <= (#[trigger] spans[i]).0 < spans[i].1 <= source.len()
            &&& tokens[i].lexeme@ == source.subrange(spans[i].0, spans[i].1)
            &&& tokens[i].line == 1 + newlines(source.subrange(0, spans[i].1))
        }
    &&& forall|i: int, j: int| 0 <= i < j < spans.len() ==> (#[trigger] spans[i]).1 <= (
    #[trigger] spans[j]).0
}

impl Scanner {
    pub closed spec fn wf(&self) -> bool {
        &&& self.start <= self.current <= self.source@.len()
        &&& self.source@.len() < u64::MAX
        &&& self.source@.len() < usize::MAX
        &&& self.line == 1 + newlines(self.source@.subrange(0, self.current as int))
        &&& keywords_match(self.keywords@)
        &&& forall|i: int| 0 <= i < self.tokens@.len() ==> token_wf(#[trigger] self.tokens@[i])
        &&& forall|i: int| 0 <= i < self.errors@.len() ==> error_wf(#[trigger] self.errors@[i])
        &&& lexemes_in_order(self.source@, self.tokens@, self.spans@)
        &&& forall|i: int| 0 <= i < self.spans@.len() ==> (#[trigger] self.spans@[i]).1 <= self.start
    }

    pub closed spec fn source_text(&self) -> Seq<char> {
        self.source@
    }

    /// `self` is `before` after the scan step `s`: the cursor is at
    /// `s.next`, and `s`'s token and error, if any, are appended.
    closed spec fn stepped(&self, before: Scanner, s: Lexed) -> bool {
        &&& self.current == s.next
        &&& views(self.tokens@) == views(before.tokens@) + opt_seq(s.token)
        &&& self.errors@ == before.errors@ + opt_seq(s.error)
    }

    /// The position of the scan.
    pub closed spec fn position(&self) -> int {
        self.current as int
    }

    /// The tokens scanned and not yet handed out.
    pub closed spec fn pending_tokens(&self) -> Seq<TokenView> {
        views(self.tokens@)
    }

    /// The errors met and not yet handed out.
    pub closed spec fn pending_errors(&self) -> Seq<ScannerError> {
        self.errors@
    }

    closed spec fn lexeme(&self) -> Seq<char> {
        self.source@.subrange(self.start as int, self.current as int)
    }

    pub fn new(source: String) -> (r: Scanner)
        requires
            source@.len() < u64::MAX,
            source@.len() < usize::MAX,
        ensures
            r.wf(),
            r.source_text() == source@,
            r.position() == 0,
            r.pending_tokens() == Seq::<TokenView>::empty(),
            r.pending_errors() == Seq::<ScannerError>::empty(),
    {
        let s = Scanner {
            source: chars_of(source.as_str()),
            tokens: Vec::new(),
            errors: Vec::new(),
            line: 1,
            start: 0,
            current: 0,
            keywords: keyword_map(),
            spans: Ghost(Seq::empty()),
        };
        proof {
            assert(s.source@.subrange(0, 0).len() == 0);
        }
        s
    }

    /// Scans the rest of the source; returns all tokens and errors found.
    pub fn scan_tokens(&mut self) -> (r: (Vec<Token>, Vec<ScannerError>))
        requires
            old(self).wf(),
        ensures
            final(self).wf(),
            scan_result(old(self).source_text(), r.0@, r.1@),
            views(r.0@) == old(self).pending_tokens() + scan_from(
                old(self).source_text(),
                old(self).position(),
            ).0 + seq![eof_view(old(self).source_text())],
            r.1@ == old(self).pending_errors() + scan_from(
                old(self).source_text(),
                old(self).position(),
            ).1,
    {
        while !self.is_eof()
            invariant
                self.wf(),
                self.source@ == old(self).source@,
                views(self.tokens@) + scan_from(self.source@, self.current as int).0 == views(
                    old(self).tokens@,
                ) + scan_from(self.source@, old(self).current as int).0,
                self.errors@ + scan_from(self.source@, self.current as int).1 == old(
                    self,
                ).errors@ + scan_from(self.source@, old(self).current as int).1,
            decreases self.source@.len() - self.current,
        {
            self.start = self.current;
            let ghost before = *self;
            self.scan_token();
            proof {
                let src = self.source@;
                let st = lex_step(src, before.current as int);
                let rest = scan_from(src, self.current as int);
                assert(scan_from(src, before.current as int) == (
                    opt_seq(st.token) + rest.0,
                    opt_seq(st.error) + rest.1,
                ));
                assert(views(self.tokens@) + rest.0 =~= views(before.tokens@) + (opt_seq(st.token)
                    + rest.0));
                assert(self.errors@ + rest.1 =~= before.errors@ + (opt_seq(st.error) + rest.1));
            }
        }
        proof {
            assert(views(self.tokens@) =~= views(self.tokens@) + scan_from(self.source@, self.current as int).0);
            assert(self.errors@ =~= self.errors@ + scan_from(self.source@, self.current as int).1);
        }
        proof {
            assert(self.source@.subrange(0, self.current as int) =~= self.source@);
        }
        let eof_token = Token::new(
            TokenType::Eof,
            string_from_chars(&Vec::new()),
            TokenLiteral::Nothing,
            self.line,
        );
        let ghost old_tokens = self.tokens@;
        let ghost eof_snapshot = eof_token;
        self.tokens.push(eof_token);
        let mut tokens: Vec<Token> = Vec::new();
        let mut errors: Vec<ScannerError> = Vec::new();
        let ghost spans = self.spans@;
        std::mem::swap(&mut tokens, &mut self.tokens);
        std::mem::swap(&mut errors, &mut self.errors);
        self.spans = Ghost(Seq::empty());
        proof {
            assert(tokens@.drop_last() =~= old_tokens);
            assert(lexemes_in_order(old(self).source@, tokens@.drop_last(), spans));
            assert(views(tokens@) =~= views(old_tokens).push(token_view(eof_snapshot)));
            assert(token_view(eof_snapshot).lexeme =~= Seq::<char>::empty());
            assert(self.source@.subrange(0, self.source@.len() as int) =~= self.source@);
        }
        (tokens, errors)
    }

    fn scan_token(&mut self)
        requires
            old(self).wf(),
            old(self).start == old(self).current < old(self).source@.len(),
        ensures
            final(self).wf(),
            final(self).source@ == old(self).source@,
            final(self).current > old(self).current,
            final(self).stepped(*old(self), lex_step(old(self).source@, old(self).current as int)),
    {
        let c = self.advance();
        if c == '(' {
            self.add_token(TokenType::LeftParen, TokenLiteral::Nothing);
        } else if c == ')' {
            self.add_token(TokenType::RightParen, TokenLiteral::Nothing);
        } else if c == '{' {
            self.add_token(TokenType::LeftBrace, TokenLiteral::Nothing);
        } else if c == '}' {
            self.add_token(TokenType::RightBrace, TokenLiteral::Nothing);
        } else if c == ',' {
            self.add_token(TokenType::Comma, TokenLiteral::Nothing);
        } else if c == '.' {
            self.add_token(TokenType::Dot, TokenLiteral::Nothing);
        } else if c == '-' {
            self.add_token(TokenType::Minus, TokenLiteral::Nothing);
        } else if c == '+' {
            self.add_token(TokenType::Plus, TokenLiteral::Nothing);
        } else if c == ';' {
            self.add_token(TokenType::Semicolon, TokenLiteral::Nothing);
        } else if c == '*' {
            self.add_token(TokenType::Star, TokenLiteral::Nothing);
        } else if c == '!' {
            if self.match_char('=') {
                self.add_token(TokenType::BangEqual, TokenLiteral::Nothing);
            } else {
                self.add_token(TokenType::Bang, TokenLiteral::Nothing);
            }
        } else if c == '=' {
            if self.match_char('=') {
                self.add_token(TokenType::EqualEqual, TokenLiteral::Nothing);
            } else {
                self.add_token(TokenType::Equal, TokenLiteral::Nothing);
            }
        } else if c == '>' {
            if self.match_char('=') {
                self.add_token(TokenType::GreaterEqual, TokenLiteral::Nothing);
            } else {
                self.add_token(TokenType::Greater, TokenLiteral::Nothing);
            }
        } else if c == '<' {
            if self.match_char('=') {
                self.add_token(TokenType::LessEqual, TokenLiteral::Nothing);
            } else {
                self.add_token(TokenType::Less, TokenLiteral::Nothing);
            }
        } else if c == '/' {
            if self.match_char('/') {
                // A line comment runs to the end of the line.
                while self.peek() != '\n' && !self.is_eof()
                    invariant
                        self.wf(),
                        self.source@ == old(self).source@,
                        self.tokens@ == old(self).tokens@,
                        self.errors@ == old(self).errors@,
                        find_from(self.source@, self.current as int, '\n') == find_from(
                            self.source@,
                            old(self).current + 2,
                            '\n',
                        ),
                        self.current > old(self).current,
                    decreases self.source@.len() - self.current,
                {
                    let _ = self.advance();
                }
            } else if self.match_char('*') {
                // A block comment runs to `*/`, or to the end of the input.
                loop
                    invariant_except_break
                        comment_close(self.source@, self.current as int) == comment_close(
                            self.source@,
                            old(self).current + 2,
                        ),
                    invariant
                        self.wf(),
                        self.source@ == old(self).source@,
                        self.tokens@ == old(self).tokens@,
                        self.errors@ == old(self).errors@,
                        self.current > old(self).current,
                    ensures
                        self.current == comment_close(self.source@, old(self).current + 2),
                    decreases self.source@.len() - self.current,
                {
                    if self.is_eof() {
                        break;
                    }
                    if self.peek() == '*' && self.peek_next() == '/' {
                        let _ = self.advance();
                        let _ = self.advance();
                        break;
                    }
                    let _ = self.advance();
                }
            } else {
                self.add_token(TokenType::Slash, TokenLiteral::Nothing);
            }
        } else if c == ' ' || c == '\t' || c == '\r' || c == '\n' {
        } else if c == '"' {
            self.tokenize_string_literal();
        } else if is_digit(c) {
            self.tokenize_number_literal();
        } else if is_alpha(c) {
            self.tokenize_identifier();
        } else {
            self.errors.push(ScannerError::UnrecognizedSymbol(self.line, c));
        }
        proof {
            let st = lex_step(old(self).source@, old(self).current as int);
            assert(views(self.tokens@) =~= views(old(self).tokens@) + opt_seq(st.token));
            assert(self.errors@ =~= old(self).errors@ + opt_seq(st.error));
        }
    }

    /// Consumes the next character, counting the line it ends.
    fn advance(&mut self) -> (c: char)
        requires
            old(self).wf(),
            old(self).current < old(self).source@.len(),
        ensures
            final(self).wf(),
            c == old(self).source@[old(self).current as int],
            final(self).current == old(self).current + 1,
            final(self).start == old(self).start,
            final(self).source@ == old(self).source@,
            final(self).tokens@ == old(self).tokens@,
            final(self).errors@ == old(self).errors@,
            final(self).line == old(self).line + if c == '\n' { 1int } else { 0int },
    {
        let c = self.source[self.current];
        proof {
            let s = self.source@;
            let k = self.current as int;
            assert(s.subrange(0, k + 1).drop_last() =~= s.subrange(0, k));
            lemma_newlines_bound(s.subrange(0, k));
        }
        self.current = self.current + 1;
        if c == '\n' {
            self.line = self.line + 1;
        }
        c
    }

    /// The next character without consuming it, or `'\0'` at the end.
    fn peek(&self) -> (c: char)
        requires
            self.wf(),
        ensures
            self.current < self.source@.len() ==> c == self.source@[self.current as int],
            self.current >= self.source@.len() ==> c == '\0',
    {
        if self.is_eof() {
            '\0'
        } else {
            self.source[self.current]
        }
    }

    /// The character after the next one without consuming it, or `'\0'` past the end.
    fn peek_next(&self) -> (c: char)
        requires
            self.wf(),
        ensures
            self.current + 1 < self.source@.len() ==> c == self.source@[self.current + 1],
            self.current + 1 >= self.source@.len() ==> c == '\0',
    {
        if self.current + 1 >= self.source.len() {
            '\0'
        } else {
            self.source[self.current + 1]
        }
    }

    /// Consumes the next character where it is `expected`.
    fn match_char(&mut self, expected: char) -> (r: bool)
        requires
            old(self).wf(),
        ensures
            final(self).wf(),
            r == (old(self).current < old(self).source@.len() && old(self).source@[old(
                self,
            ).current as int] == expected),
            final(self).current == old(self).current + if r { 1int } else { 0int },
            final(self).start == old(self).start,
            final(self).source@ == old(self).source@,
            final(self).tokens@ == old(self).tokens@,
            final(self).errors@ == old(self).errors@,
    {
        if self.is_eof() {
            return false;
        }
        if self.source[self.current] != expected {
            return false;
        }
        let _ = self.advance();
        true
    }

    /// Scans a string literal, whose opening quote is consumed. It may span lines.
    fn tokenize_string_literal(&mut self)
        requires
            old(self).wf(),
            old(self).start + 1 == old(self).current,
            old(self).source@[old(self).start as int] == '"',
        ensures
            final(self).wf(),
            final(self).source@ == old(self).source@,
            final(self).current > old(self).current - 1,
            final(self).stepped(*old(self), lex_step(old(self).source@, old(self).start as int)),
    {
        while self.peek() != '"' && !self.is_eof()
            invariant
                self.wf(),
                self.source@ == old(self).source@,
                self.tokens@ == old(self).tokens@,
                self.errors@ == old(self).errors@,
                find_from(self.source@, self.current as int, '"') == find_from(
                    self.source@,
                    old(self).current as int,
                    '"',
                ),
                self.start == old(self).start,
                self.start < self.current,
                forall|j: int| self.start < j < self.current ==> #[trigger] self.source@[j] != '"',
            decreases self.source@.len() - self.current,
        {
            let _ = self.advance();
        }
        if self.is_eof() {
            self.errors.push(ScannerError::UnterminatedString(self.line));
            proof {
                assert(self.source@.subrange(0, self.current as int) =~= self.source@.subrange(
                    0,
                    self.source@.len() as int,
                ));
            }
            proof {
                let st = lex_step(old(self).source@, old(self).start as int);
                assert(views(self.tokens@) =~= views(old(self).tokens@) + opt_seq(st.token));
                assert(self.errors@ =~= old(self).errors@ + opt_seq(st.error));
            }
            return;
        }
        let _ = self.advance();
        let mut value_chars: Vec<char> = Vec::new();
        let mut i = self.start + 1;
        while i < self.current - 1
            invariant
                self.wf(),
                self.start + 1 <= i <= self.current - 1,
                value_chars@ == self.source@.subrange(self.start + 1, i as int),
            decreases self.current - i,
        {
            value_chars.push(self.source[i]);
            proof {
                assert(value_chars@ =~= self.source@.subrange(self.start + 1, i + 1));
            }
            i = i + 1;
        }
        let value = string_from_chars(&value_chars);
        proof {
            let lex = self.lexeme();
            assert(lex.subrange(1, lex.len() - 1) =~= value@);
        }
        self.add_token(TokenType::String, TokenLiteral::String(value));
        proof {
            let st = lex_step(old(self).source@, old(self).start as int);
            assert(views(self.tokens@) =~= views(old(self).tokens@) + opt_seq(st.token));
            assert(self.errors@ =~= old(self).errors@ + opt_seq(st.error));
        }
    }

    /// Scans a number literal, whose first digit is consumed: `42` or `42.24`.
    fn tokenize_number_literal(&mut self)
        requires
            old(self).wf(),
            old(self).start + 1 == old(self).current,
            spec_is_digit(old(self).source@[old(self).start as int]),
        ensures
            final(self).wf(),
            final(self).source@ == old(self).source@,
            final(self).current >= old(self).current,
            final(self).stepped(*old(self), lex_step(old(self).source@, old(self).start as int)),
    {
        while is_digit(self.peek())
            invariant
                self.wf(),
                self.source@ == old(self).source@,
                self.tokens@ == old(self).tokens@,
                self.errors@ == old(self).errors@,
                digits_end(self.source@, self.current as int) == digits_end(
                    self.source@,
                    old(self).current as int,
                ),
                self.start == old(self).start,
                self.start < self.current,
                forall|j: int| self.start <= j < self.current ==> spec_is_digit(
                    #[trigger] self.source@[j],
                ),
            decreases self.source@.len() - self.current,
        {
            let _ = self.advance();
        }
        let ghost point = self.current as int;
        if self.peek() == '.' && is_digit(self.peek_next()) {
            let _ = self.advance();
            while is_digit(self.peek())
                invariant
                    self.wf(),
                    self.source@ == old(self).source@,
                    self.tokens@ == old(self).tokens@,
                    self.errors@ == old(self).errors@,
                    digits_end(self.source@, self.current as int) == digits_end(
                        self.source@,
                        point + 1,
                    ),
                    self.start == old(self).start,
                    self.start < point < self.current,
                    self.source@[point] == '.',
                    point + 1 < self.source@.len(),
                    spec_is_digit(self.source@[point + 1]),
                    self.current - 1 == point || spec_is_digit(self.source@[self.current - 1]),
                    forall|j: int| self.start <= j < self.current && j != point ==> spec_is_digit(
                        #[trigger] self.source@[j],
                    ),
                decreases self.source@.len() - self.current,
            {
                let _ = self.advance();
            }
        }
        proof {
            let lex = self.lexeme();
            assert forall|i: int, j: int|
                0 <= i < lex.len() && 0 <= j < lex.len() && #[trigger] lex[i] == '.'
                    && #[trigger] lex[j] == '.' implies i == j by {
                assert(self.source@[self.start + i] == '.');
                assert(self.source@[self.start + j] == '.');
            }
            assert forall|i: int| 0 <= i < lex.len() implies (#[trigger] lex[i] == '.'
                || spec_is_digit(lex[i])) by {
                assert(lex[i] == self.source@[self.start + i]);
            }
            assert(number_text(lex));
        }
        match self.number_value_of() {
            Some(n) => self.add_token(TokenType::Number, TokenLiteral::Number(n)),
            None => self.errors.push(ScannerError::NumberOutOfRange(self.line)),
        }
        proof {
            let st = lex_step(old(self).source@, old(self).start as int);
            assert(views(self.tokens@) =~= views(old(self).tokens@) + opt_seq(st.token));
            assert(self.errors@ =~= old(self).errors@ + opt_seq(st.error));
        }
    }

    /// The value of the number literal that is the current lexeme; `None`
    /// where it holds more than [`MAX_NUMBER_DIGITS`] digits.
    fn number_value_of(&self) -> (r: Option<Number>)
        requires
            self.wf(),
            self.start < self.current,
            number_text(self.lexeme()),
        ensures
            r is None <==> digit_count(self.lexeme()) > MAX_NUMBER_DIGITS,
            r matches Some(n) ==> n@ == number_value(self.lexeme()),
    {
        let ghost lex = self.lexeme();
        let mut count: u64 = 0;
        let mut i = self.start;
        while i < self.current
            invariant
                self.wf(),
                self.start <= i <= self.current,
                lex == self.lexeme(),
                count == digit_count(self.source@.subrange(self.start as int, i as int)),
                count <= i - self.start,
            decreases self.current - i,
        {
            proof {
                let p = self.source@.subrange(self.start as int, i + 1);
                assert(p.drop_last() =~= self.source@.subrange(self.start as int, i as int));
            }
            if self.source[i] != '.' {
                count = count + 1;
            }
            i = i + 1;
        }
        proof {
            assert(self.source@.subrange(self.start as int, self.current as int) =~= lex);
        }
        if count > MAX_NUMBER_DIGITS {
            return None;
        }
        let mut num: i64 = 0;
        let mut den: u64 = 1;
        let mut seen_point = false;
        let mut i = self.start;
        while i < self.current
            invariant
                self.wf(),
                self.start <= i <= self.current,
                lex == self.lexeme(),
                number_text(lex),
                digit_count(lex) <= MAX_NUMBER_DIGITS,
                ({
                    let p = self.source@.subrange(self.start as int, i as int);
                    &&& 0 <= num < pow10(digit_count(p))
                    &&& den == pow10(fraction_len(p))
                    &&& fraction_len(p) <= digit_count(p)
                    &&& digit_count(p) <= digit_count(lex)
                    &&& num == digits_value(p)
                    &&& seen_point == has_point(p)
                }),
            decreases self.current - i,
        {
            let ghost p = self.source@.subrange(self.start as int, i as int);
            let ghost q = self.source@.subrange(self.start as int, i + 1);
            proof {
                assert(q.drop_last() =~= p);
                assert(q =~= lex.subrange(0, i + 1 - self.start));
                lemma_digit_count_prefix(lex, i + 1 - self.start);
                lemma_pow10_bound(digit_count(q));
                lemma_pow10_bound(fraction_len(q));
            }
            let c = self.source[i];
            if c == '.' {
                seen_point = true;
                den = 1;
            } else {
                let d = (c as u32 - '0' as u32) as i64;
                proof {
                    assert(num * 10 + d < pow10(digit_count(q))) by (nonlinear_arith)
                        requires
                            num < pow10(digit_count(p)),
                            pow10(digit_count(q)) == 10 * pow10(digit_count(p)),
                            0 <= d < 10,
                    ;
                }
                num = num * 10 + d;
                if seen_point {
                    den = den * 10;
                }
            }
            i = i + 1;
        }
        proof {
            assert(self.source@.subrange(self.start as int, self.current as int) =~= lex);
            lemma_pow10_bound(fraction_len(lex));
        }
        Number::new(num, den)
    }

    /// Scans an identifier or keyword, whose first letter is consumed.
    fn tokenize_identifier(&mut self)
        requires
            old(self).wf(),
            old(self).start + 1 == old(self).current,
            spec_is_alpha(old(self).source@[old(self).start as int]),
        ensures
            final(self).wf(),
            final(self).source@ == old(self).source@,
            final(self).current >= old(self).current,
            final(self).stepped(*old(self), lex_step(old(self).source@, old(self).start as int)),
    {
        while is_alphanumeric(self.peek())
            invariant
                self.wf(),
                self.source@ == old(self).source@,
                self.tokens@ == old(self).tokens@,
                self.errors@ == old(self).errors@,
                word_end(self.source@, self.current as int) == word_end(
                    self.source@,
                    old(self).current as int,
                ),
                self.start == old(self).start,
                self.start < self.current,
                spec_is_alpha(self.source@[self.start as int]),
                forall|j: int| self.start < j < self.current ==> spec_is_alphanumeric(
                    #[trigger] self.source@[j],
                ),
            decreases self.source@.len() - self.current,
        {
            let _ = self.advance();
        }
        let text = self.lexeme_string();
        let kind = match self.keyword_type(&text) {
            Some(k) => k,
            None => TokenType::Identifier,
        };
        proof {
            let lex = self.lexeme();
            assert forall|i: int| 1 <= i < lex.len() implies spec_is_alphanumeric(#[trigger] lex[i]) by {
                assert(lex[i] == self.source@[self.start + i]);
            }
            lemma_keyword_entries(0);
            lemma_keyword_kinds(lex, 0);
            if keyword_kind(lex) is Some {
                let j = choose|j: int| 0 <= j < keyword_table().len() && keyword_table()[j].0 == lex;
                assert(operator_kind(lex) is None);
            }
        }
        self.add_token(kind, TokenLiteral::Nothing);
        proof {
            let st = lex_step(old(self).source@, old(self).start as int);
            assert(views(self.tokens@) =~= views(old(self).tokens@) + opt_seq(st.token));
            assert(self.errors@ =~= old(self).errors@ + opt_seq(st.error));
        }
    }

    /// The keyword kind of `text`, looked up in the keyword table.
    fn keyword_type(&self, text: &String) -> (r: Option<TokenType>)
        requires
            self.wf(),
        ensures
            r == keyword_kind(text@),
    {
        let mut i: usize = 0;
        while i < self.keywords.len()
            invariant
                self.wf(),
                i <= self.keywords@.len(),
                keyword_kind(text@) == keyword_from(text@, i as int),
            decreases self.keywords@.len() - i,
        {
            if self.keywords[i].0 == *text {
                return Some(self.keywords[i].1);
            }
            i = i + 1;
        }
        None
    }

    fn is_eof(&self) -> (r: bool)
        ensures
            r == (self.current >= self.source@.len()),
    {
        self.current >= self.source.len()
    }

    /// The current lexeme as a string.
    fn lexeme_string(&self) -> (r: String)
        requires
            self.wf(),
        ensures
            r@ == self.lexeme(),
    {
        let mut chars: Vec<char> = Vec::new();
        let mut i = self.start;
        while i < self.current
            invariant
                self.wf(),
                self.start <= i <= self.current,
                chars@ == self.source@.subrange(self.start as int, i as int),
            decreases self.current - i,
        {
            chars.push(self.source[i]);
            proof {
                assert(chars@ =~= self.source@.subrange(self.start as int, i + 1));
            }
            i = i + 1;
        }
        string_from_chars(&chars)
    }

    /// Adds a token for the current lexeme, on the current line.
    fn add_token(&mut self, t_type: TokenType, literal: TokenLiteral)
        requires
            old(self).wf(),
            old(self).start < old(self).current,
            lexeme_shape(t_type, old(self).lexeme(), literal),
        ensures
            final(self).wf(),
            final(self).source@ == old(self).source@,
            final(self).current == old(self).current,
            final(self).start == old(self).current,
            views(final(self).tokens@) == views(old(self).tokens@).push(
                TokenView {
                    t_type,
                    lexeme: old(self).lexeme(),
                    literal: literal_view(literal),
                    line: line_at(old(self).source@, old(self).current as int),
                },
            ),
            final(self).errors@ == old(self).errors@,
    {
        let lexeme = self.lexeme_string();
        let token = Token::new(t_type, lexeme, literal, self.line);
        let ghost before = self.tokens@;
        self.tokens.push(token);
        proof {
            assert(views(self.tokens@) =~= views(before).push(token_view(token)));
        }
        self.spans = Ghost(self.spans@.push((self.start as int, self.current as int)));
        self.start = self.current;
    }
}

proof fn lemma_pow10_bound(k: nat)
    ensures
        pow10(k) >= 1,
        k <= MAX_NUMBER_DIGITS ==> pow10(k) <= 1_000_000_000_000_000_000,
        k > 0 ==> pow10(k) == 10 * pow10((k - 1) as nat),
{
    lemma_pow10_pos(k);
    if k <= MAX_NUMBER_DIGITS {
        lemma_pow10_mono(k, MAX_NUMBER_DIGITS as nat);
    }
    reveal_with_fuel(pow10, 19);
}

proof fn lemma_pow10_pos(k: nat)
    ensures
        pow10(k) >= 1,
    decreases k,
{
    if k > 0 {
        lemma_pow10_pos((k - 1) as nat);
    }
}

proof fn lemma_pow10_mono(j: nat, k: nat)
    requires
        j <= k,
    ensures
        pow10(j) <= pow10(k),
    decreases k,
{
    if j < k {
        lemma_pow10_mono(j, (k - 1) as nat);
        lemma_pow10_pos((k - 1) as nat);
    }
}

} // verus!
