use throttle::lexer::lex;
use throttle::{LexError, NumericConstant, Span, Token, TokenKind, MAIN_FILE};

fn kinds(src: &str) -> Vec<TokenKind> {
    lex(src.to_string()).unwrap().into_iter().map(|t| t.kind).collect()
}

fn number(v: i32) -> TokenKind {
    TokenKind::Number(NumericConstant::Integer(v))
}

fn name(s: &str) -> TokenKind {
    TokenKind::Name(s.to_string())
}

#[test]
fn span_new_keeps_fields() {
    let s = Span::new(3, 7, 2);
    assert_eq!(s.start, 3);
    assert_eq!(s.end, 7);
    assert_eq!(s.file, 2);
}

#[test]
fn span_inside() {
    let outer = Span::new(0, 10, 0);
    assert!(Span::new(2, 5, 0).inside(&outer));
    assert!(Span::new(0, 10, 0).inside(&outer));
    assert!(!Span::new(5, 11, 0).inside(&outer));
    assert!(!Span::new(2, 5, 1).inside(&outer));
}

#[test]
fn token_new_builds_span() {
    let t = Token::new(TokenKind::Comma, 4, 5, MAIN_FILE);
    assert_eq!(t.span, Span::new(4, 5, MAIN_FILE));
    assert_eq!(t.kind, TokenKind::Comma);
}

#[test]
fn digits_lex_to_one_number() {
    let toks = lex("12345".to_string()).unwrap();
    assert_eq!(toks.len(), 1);
    assert_eq!(toks[0].kind, number(12345));
    assert_eq!(toks[0].span, Span::new(0, 5, MAIN_FILE));
    assert_eq!(kinds("0"), vec![number(0)]);
    assert_eq!(kinds("007"), vec![number(7)]);
    assert_eq!(kinds("2147483647"), vec![number(2147483647)]);
}

#[test]
fn overflowing_number_fails() {
    assert_eq!(
        lex("2147483648".to_string()).unwrap_err(),
        LexError::IntegerOverflow(Span::new(0, 10, MAIN_FILE))
    );
    assert_eq!(
        lex("x = 99999999999999999999;".to_string()).unwrap_err(),
        LexError::IntegerOverflow(Span::new(4, 24, MAIN_FILE))
    );
}

#[test]
fn reserved_words_alone() {
    assert_eq!(kinds("proc"), vec![TokenKind::Proc]);
    assert_eq!(kinds("var"), vec![TokenKind::Var]);
    assert_eq!(kinds("return"), vec![TokenKind::Return]);
    assert_eq!(kinds("if"), vec![TokenKind::If]);
    assert_eq!(kinds("begin"), vec![TokenKind::Begin]);
    assert_eq!(kinds("end"), vec![TokenKind::End]);
}

#[test]
fn reserved_word_with_suffix_is_a_name() {
    assert_eq!(kinds("proc1"), vec![name("proc1")]);
    assert_eq!(kinds("vars"), vec![name("vars")]);
    assert_eq!(kinds("ifx"), vec![name("ifx")]);
    assert_eq!(kinds("end2"), vec![name("end2")]);
    assert_eq!(kinds("returns"), vec![name("returns")]);
    assert_eq!(kinds("begins"), vec![name("begins")]);
}

#[test]
fn quoted_string_span_includes_quotes() {
    let toks = lex("\"abc\"".to_string()).unwrap();
    assert_eq!(toks.len(), 1);
    assert_eq!(toks[0].kind, TokenKind::QuotedString("abc".to_string()));
    assert_eq!(toks[0].span.end - toks[0].span.start, 5);
}

#[test]
fn spans_slice_back_to_token_text() {
    let src = "var total = \"hi there\" + 42;";
    let toks = lex(src.to_string()).unwrap();
    let texts: Vec<&str> = toks.iter().map(|t| &src[t.span.start..t.span.end]).collect();
    assert_eq!(texts, vec!["var", "total", "=", "\"hi there\"", "+", "42", ";"]);
    assert_eq!(toks[1].kind, name("total"));
    assert_eq!(toks[3].kind, TokenKind::QuotedString("hi there".to_string()));
}

#[test]
fn quoted_string_keeps_utf8_text() {
    let toks = lex("\"héllo\" x".to_string()).unwrap();
    assert_eq!(toks[0].kind, TokenKind::QuotedString("héllo".to_string()));
    assert_eq!(toks[0].span, Span::new(0, 8, MAIN_FILE));
    assert_eq!(toks[1].kind, name("x"));
    assert_eq!(toks[1].span, Span::new(9, 10, MAIN_FILE));
}

#[test]
fn unterminated_string_runs_to_end() {
    let toks = lex("x \"ab".to_string()).unwrap();
    assert_eq!(toks.len(), 2);
    assert_eq!(toks[1].kind, TokenKind::QuotedString("ab".to_string()));
    assert_eq!(toks[1].span, Span::new(2, 5, MAIN_FILE));
}

#[test]
fn empty_quoted_string() {
    assert_eq!(kinds("\"\""), vec![TokenKind::QuotedString(String::new())]);
}

#[test]
fn whitespace_only_lexes_to_nothing() {
    assert_eq!(kinds(""), Vec::<TokenKind>::new());
    assert_eq!(kinds("   "), Vec::<TokenKind>::new());
    assert_eq!(kinds(" \t\n\r\n\t "), Vec::<TokenKind>::new());
}

#[test]
fn var_statement_tokens() {
    assert_eq!(
        kinds("var x = 5;"),
        vec![TokenKind::Var, name("x"), TokenKind::Equals, number(5), TokenKind::Semicolon]
    );
}

#[test]
fn arithmetic_tokens() {
    assert_eq!(
        kinds("1 + 2 * 3"),
        vec![number(1), TokenKind::Plus, number(2), TokenKind::Multiply, number(3)]
    );
}

#[test]
fn all_symbols() {
    assert_eq!(
        kinds("{}+-/*[](),.;:="),
        vec![
            TokenKind::LCurly,
            TokenKind::RCurly,
            TokenKind::Plus,
            TokenKind::Minus,
            TokenKind::Divide,
            TokenKind::Multiply,
            TokenKind::LBracket,
            TokenKind::RBracket,
            TokenKind::LParen,
            TokenKind::RParen,
            TokenKind::Comma,
            TokenKind::Period,
            TokenKind::Semicolon,
            TokenKind::Colon,
            TokenKind::Equals,
        ]
    );
}

#[test]
fn decimal_point_splits_number() {
    assert_eq!(kinds("1.5"), vec![number(1), TokenKind::Period, number(5)]);
}

#[test]
fn digits_then_letters_split() {
    assert_eq!(kinds("12ab"), vec![number(12), name("ab")]);
    assert_eq!(kinds("ab12"), vec![name("ab12")]);
}

#[test]
fn unknown_characters_are_skipped() {
    let toks = lex("a # b".to_string()).unwrap();
    assert_eq!(toks.len(), 2);
    assert_eq!(toks[0].kind, name("a"));
    assert_eq!(toks[1].kind, name("b"));
    assert_eq!(toks[1].span, Span::new(4, 5, MAIN_FILE));
}
