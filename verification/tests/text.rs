use chao::common::text::byte_length;
use chao::common::text::chars_of;
use chao::common::text::push_decimal;
use chao::common::text::push_repeated;
use chao::common::text::str_eq;
use chao::common::text::strip_separators;
use chao::common::text::utf8_width;
use chao::common::token::Token;
use chao::common::token::TokenKind;
use chao::src_by_lines;

fn split(text: &str) -> Vec<String> {
    src_by_lines(&text.to_string())
}

#[test]
fn lines_end_at_newlines() {
    assert_eq!(split("let x -> 1 + 2\nx -> 3"), vec!["let x -> 1 + 2", "x -> 3"]);
    assert_eq!(split("a\nb\n"), vec!["a", "b"]);
    assert_eq!(split("a\n\nb"), vec!["a", "", "b"]);
    assert_eq!(split("\n"), vec![""]);
    assert_eq!(split("\n\n"), vec!["", ""]);
    assert_eq!(split(""), Vec::<String>::new());
    assert_eq!(split("no end"), vec!["no end"]);
}

#[test]
fn carriage_return_before_newline_is_dropped() {
    assert_eq!(split("a\r\nb\r\n"), vec!["a", "b"]);
    assert_eq!(split("a\r\n\r\n"), vec!["a", ""]);
    assert_eq!(split("a\rb\n"), vec!["a\rb"]);
    assert_eq!(split("a\r"), vec!["a\r"]);
    assert_eq!(split("a\r\r\n"), vec!["a\r"]);
    assert_eq!(split("\r\n"), vec![""]);
}

#[test]
fn lines_agree_with_the_standard_library() {
    for text in ["", "\n", "a", "a\n", "a\r\n", "\r", "\r\r\n\n", "h\u{e9}\r\n\u{4e16}\n", "x\n\ry"] {
        let expected: Vec<String> = text.lines().map(|l| l.to_string()).collect();
        assert_eq!(split(text), expected, "{:?}", text);
    }
}

#[test]
fn characters_and_their_widths() {
    assert_eq!(chars_of("h\u{e9}\u{4e16}\u{1f600}"), vec!['h', '\u{e9}', '\u{4e16}', '\u{1f600}']);
    assert_eq!(chars_of(""), Vec::<char>::new());
    for c in ['\0', 'a', '\u{7f}', '\u{80}', '\u{7ff}', '\u{800}', '\u{ffff}', '\u{10000}', '\u{10ffff}'] {
        assert_eq!(utf8_width(c), c.len_utf8());
    }
    assert_eq!(byte_length("h\u{e9}\u{4e16}\u{1f600}"), 10);
    assert_eq!(byte_length(""), 0);
}

#[test]
fn string_equality() {
    assert!(str_eq("let", "let"));
    assert!(str_eq("", ""));
    assert!(!str_eq("let", "le"));
    assert!(!str_eq("let", "lot"));
    assert!(!str_eq("a", ""));
}

#[test]
fn separators_are_taken_out() {
    assert_eq!(strip_separators("1_000_000"), "1000000");
    assert_eq!(strip_separators("___"), "");
    assert_eq!(strip_separators("12"), "12");
    assert_eq!(strip_separators(""), "");
    assert_eq!(strip_separators("_\u{e9}_"), "\u{e9}");
}

#[test]
fn numbers_in_base_ten() {
    for n in [0usize, 7, 9, 10, 11, 99, 100, 12345, usize::MAX] {
        let mut text = String::from("n=");
        push_decimal(&mut text, n);
        assert_eq!(text, format!("n={}", n));
    }
}

#[test]
fn repetition() {
    let mut text = String::from("[");
    push_repeated(&mut text, "ab", 3);
    push_repeated(&mut text, "^", 0);
    push_repeated(&mut text, " ", 2);
    assert_eq!(text, "[ababab  ");
}

#[test]
fn keywords_match_exactly() {
    assert_eq!(TokenKind::as_keyword("true"), TokenKind::True);
    assert_eq!(TokenKind::as_keyword("false"), TokenKind::False);
    assert_eq!(TokenKind::as_keyword("nil"), TokenKind::Nil);
    assert_eq!(TokenKind::as_keyword("True"), TokenKind::Identifier);
    assert_eq!(TokenKind::as_keyword("nill"), TokenKind::Identifier);
    assert_eq!(TokenKind::as_keyword(""), TokenKind::Identifier);
    assert_eq!(TokenKind::as_keyword("let"), TokenKind::Identifier);
}

#[test]
fn token_kinds_have_names() {
    let names: Vec<&str> = [
        TokenKind::Eof,
        TokenKind::LParen,
        TokenKind::RParen,
        TokenKind::Plus,
        TokenKind::PlusEqual,
        TokenKind::PlusPlus,
        TokenKind::Minus,
        TokenKind::MinusEqual,
        TokenKind::MinusMinus,
        TokenKind::Equal,
        TokenKind::Arrow,
        TokenKind::Semicolon,
        TokenKind::LiteralString,
        TokenKind::LiteralInt,
        TokenKind::LiteralFloat,
        TokenKind::LiteralChar,
        TokenKind::Identifier,
        TokenKind::True,
        TokenKind::False,
        TokenKind::Nil,
    ]
    .iter()
    .map(|k| k.name())
    .collect();
    assert_eq!(
        names,
        vec![
            "EOF", "LParen", "RParen", "Plus", "PlusEqual", "PlusPlus", "Minus", "MinusEqual",
            "MinusMinus", "Equal", "Arrow", "Semicolin", "String", "Integer", "Float", "Char",
            "Ident", "True", "False", "Nil",
        ]
    );
}

#[test]
fn tokens_are_what_they_are_made_of() {
    let token = Token::new(TokenKind::Arrow, 6, 2, "->");
    assert_eq!(token.kind, TokenKind::Arrow);
    assert_eq!(token.offset, 6);
    assert_eq!(token.line, 2);
    assert_eq!(token.lexeme, "->");
    let eof = Token::eof(4, 9);
    assert_eq!(eof.kind, TokenKind::Eof);
    assert_eq!(eof.offset, 4);
    assert_eq!(eof.line, 9);
    assert_eq!(eof.lexeme, "<EOF>");
}
