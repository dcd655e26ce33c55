use lianghua_rs::lexer::{Lexer, Token, TokenKind};
use lianghua_rs::parser::lex_all;

fn kinds(src: &str) -> Vec<TokenKind> {
    lex_all(src).into_iter().map(|t| t.kind).collect()
}

fn ident(s: &str) -> TokenKind {
    TokenKind::Ident(s.to_string())
}

fn num(s: &str) -> TokenKind {
    TokenKind::Number(s.to_string())
}

#[test]
fn lex_call_kinds() {
    assert_eq!(
        kinds("MA(C, 3)"),
        vec![
            ident("MA"),
            TokenKind::LParen,
            ident("C"),
            TokenKind::Comma,
            num("3"),
            TokenKind::RParen,
            TokenKind::Eof,
        ]
    );
}

#[test]
fn lex_number_value_reads_back() {
    let toks = kinds("MA(C, 3)");
    match &toks[4] {
        TokenKind::Number(s) => assert_eq!(s.parse::<f64>().unwrap(), 3.0),
        other => panic!("expected a number, got {other:?}"),
    }
}

#[test]
fn lex_spans_are_byte_offsets() {
    let toks = lex_all("é + ab");
    assert_eq!(toks[0], Token { kind: TokenKind::Unknown('é'), start: 0, end: 2 });
    assert_eq!(toks[1], Token { kind: TokenKind::Plus, start: 3, end: 4 });
    assert_eq!(toks[2], Token { kind: ident("ab"), start: 5, end: 7 });
    assert_eq!(toks[3], Token { kind: TokenKind::Eof, start: 7, end: 7 });
}

#[test]
fn lex_keywords_any_case() {
    assert_eq!(
        kinds("a and B Or not c AND2"),
        vec![
            ident("a"),
            TokenKind::And,
            ident("B"),
            TokenKind::Or,
            TokenKind::Not,
            ident("c"),
            ident("AND2"),
            TokenKind::Eof,
        ]
    );
}

#[test]
fn lex_numbers_and_trailing_dot() {
    assert_eq!(kinds("12.5"), vec![num("12.5"), TokenKind::Eof]);
    assert_eq!(
        kinds("3."),
        vec![num("3"), TokenKind::Unknown('.'), TokenKind::Eof]
    );
    assert_eq!(
        kinds("1.2.3"),
        vec![num("1.2"), TokenKind::Unknown('.'), num("3"), TokenKind::Eof]
    );
}

#[test]
fn lex_two_char_operators() {
    assert_eq!(
        kinds(":= >= <= != == = ! : > <"),
        vec![
            TokenKind::ColonEq,
            TokenKind::Ge,
            TokenKind::Le,
            TokenKind::Ne,
            TokenKind::Eq,
            TokenKind::Eq,
            TokenKind::Not,
            TokenKind::Unknown(':'),
            TokenKind::Gt,
            TokenKind::Lt,
            TokenKind::Eof,
        ]
    );
}

#[test]
fn lex_single_char_tokens() {
    assert_eq!(
        kinds("+-*/(),;#"),
        vec![
            TokenKind::Plus,
            TokenKind::Minus,
            TokenKind::Star,
            TokenKind::Slash,
            TokenKind::LParen,
            TokenKind::RParen,
            TokenKind::Comma,
            TokenKind::Semi,
            TokenKind::Unknown('#'),
            TokenKind::Eof,
        ]
    );
}

#[test]
fn lex_empty_and_blank_give_eof() {
    assert_eq!(kinds(""), vec![TokenKind::Eof]);
    assert_eq!(kinds(" \t\n\u{3000}"), vec![TokenKind::Eof]);
}

#[test]
fn lexer_repeats_eof_at_end() {
    let mut lx = Lexer::new("x");
    assert_eq!(lx.next_token().kind, ident("x"));
    assert_eq!(lx.next_token().kind, TokenKind::Eof);
    assert_eq!(lx.next_token().kind, TokenKind::Eof);
}
