use chao::common::error::ChaoError;
use chao::common::error::ErrorBase;
use chao::common::error::ErrorSeverity;
use chao::common::token::Token;
use chao::common::token::TokenKind;
use chao::frontend::lexer::lex;
use chao::frontend::lexer::Lexer;

fn source(lines: &[&str]) -> Vec<String> {
    lines.iter().map(|l| l.to_string()).collect()
}

fn kinds(tokens: &[Token]) -> Vec<TokenKind> {
    tokens.iter().map(|t| t.kind).collect()
}

#[test]
fn plus_equal_is_one_token() {
    let src = source(&["+="]);
    let (tokens, errors) = lex(&src);
    assert!(errors.is_empty());
    assert_eq!(
        tokens,
        vec![Token::new(TokenKind::PlusEqual, 0, 1, "+="), Token::eof(0, 1)]
    );
}

#[test]
fn plus_before_space_is_plus() {
    let src = source(&["+ "]);
    let (tokens, errors) = lex(&src);
    assert!(errors.is_empty());
    assert_eq!(
        tokens,
        vec![Token::new(TokenKind::Plus, 0, 1, "+"), Token::eof(1, 1)]
    );
}

#[test]
fn arrow_is_one_token() {
    let src = source(&["->"]);
    let (tokens, errors) = lex(&src);
    assert!(errors.is_empty());
    assert_eq!(
        tokens,
        vec![Token::new(TokenKind::Arrow, 0, 1, "->"), Token::eof(0, 1)]
    );
}

#[test]
fn every_compound_operator() {
    let src = source(&["++ += + -- -= -> - ( )"]);
    let (tokens, errors) = lex(&src);
    assert!(errors.is_empty());
    assert_eq!(
        kinds(&tokens),
        vec![
            TokenKind::PlusPlus,
            TokenKind::PlusEqual,
            TokenKind::Plus,
            TokenKind::MinusMinus,
            TokenKind::MinusEqual,
            TokenKind::Arrow,
            TokenKind::Minus,
            TokenKind::LParen,
            TokenKind::RParen,
            TokenKind::Eof,
        ]
    );
    let offsets: Vec<usize> = tokens.iter().map(|t| t.offset).collect();
    assert_eq!(offsets, vec![0, 3, 6, 8, 11, 14, 17, 19, 21, 21]);
}

#[test]
fn lookahead_never_backtracks() {
    let src = source(&["+++", "--->"]);
    let (tokens, _) = lex(&src);
    assert_eq!(
        tokens,
        vec![
            Token::new(TokenKind::PlusPlus, 0, 1, "++"),
            Token::new(TokenKind::Plus, 2, 1, "+"),
            Token::new(TokenKind::MinusMinus, 0, 2, "--"),
            Token::new(TokenKind::Arrow, 2, 2, "->"),
            Token::eof(2, 2),
        ]
    );
}

#[test]
fn empty_source_is_one_eof() {
    let src: Vec<String> = Vec::new();
    let (tokens, errors) = lex(&src);
    assert!(errors.is_empty());
    assert_eq!(tokens, vec![Token::eof(0, 0)]);
}

#[test]
fn blank_lines_yield_only_eof() {
    let src = source(&["", "   \t\r", ""]);
    let (tokens, errors) = lex(&src);
    assert!(errors.is_empty());
    assert_eq!(tokens, vec![Token::eof(4, 3)]);
}

#[test]
fn illegal_characters_are_reported_and_skipped() {
    let src = source(&["@ x = ;"]);
    let (tokens, errors) = lex(&src);
    assert_eq!(
        tokens,
        vec![Token::new(TokenKind::Identifier, 2, 1, "x"), Token::eof(6, 1)]
    );
    let expected: Vec<ChaoError> = [0usize, 4, 6]
        .iter()
        .map(|&offset| {
            ChaoError::new(
                ErrorBase::IllegalCharacter { line: 1, offset },
                ErrorSeverity::Error,
                false,
                "illegal character found",
            )
        })
        .collect();
    assert_eq!(errors, expected);
}

#[test]
fn only_illegal_characters() {
    let src = source(&["#$%"]);
    let (tokens, errors) = lex(&src);
    assert_eq!(tokens, vec![Token::eof(2, 1)]);
    assert_eq!(errors.len(), 3);
}

#[test]
fn keywords_and_identifiers() {
    let src = source(&["true false nil True nile _x9 let"]);
    let (tokens, errors) = lex(&src);
    assert!(errors.is_empty());
    assert_eq!(
        kinds(&tokens),
        vec![
            TokenKind::True,
            TokenKind::False,
            TokenKind::Nil,
            TokenKind::Identifier,
            TokenKind::Identifier,
            TokenKind::Identifier,
            TokenKind::Identifier,
            TokenKind::Eof,
        ]
    );
    assert_eq!(tokens[5].lexeme, "_x9");
}

#[test]
fn numbers_keep_their_separators() {
    let src = source(&["1_000 3.14 1.2.3 7."]);
    let (tokens, errors) = lex(&src);
    assert!(errors.is_empty());
    assert_eq!(
        tokens,
        vec![
            Token::new(TokenKind::LiteralInt, 0, 1, "1_000"),
            Token::new(TokenKind::LiteralFloat, 6, 1, "3.14"),
            Token::new(TokenKind::LiteralFloat, 11, 1, "1.2.3"),
            Token::new(TokenKind::LiteralFloat, 17, 1, "7."),
            Token::eof(17, 1),
        ]
    );
}

#[test]
fn quoted_literals_hold_the_raw_interior() {
    let src = source(&["\"a\\n b\" 'c' \"\""]);
    let (tokens, errors) = lex(&src);
    assert!(errors.is_empty());
    assert_eq!(
        tokens,
        vec![
            Token::new(TokenKind::LiteralString, 1, 1, "a\\n b"),
            Token::new(TokenKind::LiteralChar, 9, 1, "c"),
            Token::new(TokenKind::LiteralString, 13, 1, ""),
            Token::eof(12, 1),
        ]
    );
}

#[test]
fn unterminated_string_closes_at_end_of_line() {
    let src = source(&["x \"abc", "y"]);
    let (tokens, errors) = lex(&src);
    assert_eq!(
        tokens,
        vec![
            Token::new(TokenKind::Identifier, 0, 1, "x"),
            Token::new(TokenKind::LiteralString, 3, 1, "abc"),
            Token::new(TokenKind::Identifier, 0, 2, "y"),
            Token::eof(0, 2),
        ]
    );
    assert_eq!(
        errors,
        vec![ChaoError::new(
            ErrorBase::UnterminatedLiteral { line: 1, offset: 2 },
            ErrorSeverity::Error,
            false,
            "Unterminated string literal",
        )]
    );
}

#[test]
fn unterminated_character_literal() {
    let src = source(&["'"]);
    let (tokens, errors) = lex(&src);
    assert_eq!(
        tokens,
        vec![Token::new(TokenKind::LiteralChar, 1, 1, ""), Token::eof(0, 1)]
    );
    assert_eq!(
        errors,
        vec![ChaoError::new(
            ErrorBase::UnterminatedLiteral { line: 1, offset: 0 },
            ErrorSeverity::Error,
            false,
            "Unterminated character literal",
        )]
    );
}

#[test]
fn offsets_count_bytes() {
    let src = source(&["\"h\u{e9}\" \u{4e16} x"]);
    let (tokens, errors) = lex(&src);
    assert_eq!(
        tokens,
        vec![
            Token::new(TokenKind::LiteralString, 1, 1, "h\u{e9}"),
            Token::new(TokenKind::Identifier, 10, 1, "x"),
            Token::eof(10, 1),
        ]
    );
    assert_eq!(
        errors,
        vec![ChaoError::new(
            ErrorBase::IllegalCharacter { line: 1, offset: 6 },
            ErrorSeverity::Error,
            false,
            "illegal character found",
        )]
    );
}

#[test]
fn newline_ends_the_scan_of_a_line() {
    let src = source(&["a\nb", "c"]);
    let (tokens, errors) = lex(&src);
    assert!(errors.is_empty());
    assert_eq!(
        tokens,
        vec![
            Token::new(TokenKind::Identifier, 0, 1, "a"),
            Token::new(TokenKind::Identifier, 0, 2, "c"),
            Token::eof(0, 2),
        ]
    );
}

#[test]
fn lexemes_stand_at_their_offsets() {
    let src = source(&[
        "let x -> 1 + 2",
        "  \"caf\u{e9}\" -> 'q' \u{1f600} name_2 -= 4_2.5",
        "",
        "const y -> \"open",
    ]);
    let (tokens, _) = lex(&src);
    assert_eq!(tokens.last().map(|t| t.kind), Some(TokenKind::Eof));
    for token in &tokens[..tokens.len() - 1] {
        assert_ne!(token.kind, TokenKind::Eof);
        let line = &src[token.line - 1];
        assert_eq!(
            &line[token.offset..token.offset + token.lexeme.len()],
            token.lexeme
        );
    }
}

#[test]
fn scanline_takes_one_line_at_a_time() {
    let src = source(&["a", "", "b c"]);
    let mut lexer = Lexer::new(&src);
    lexer.scanline();
    assert_eq!(lexer.line, 1);
    assert_eq!(lexer.tokens, vec![Token::new(TokenKind::Identifier, 0, 1, "a")]);
    lexer.scanline();
    assert_eq!(lexer.line, 2);
    assert_eq!(lexer.tokens.len(), 1);
    lexer.scanline();
    lexer.scanline();
    assert_eq!(lexer.line, 3);
    assert_eq!(lexer.tokens.len(), 3);
    assert_eq!(lexer.mark, 2);
    lexer.scan();
    assert_eq!(lexer.tokens.len(), 4);
    assert_eq!(lexer.tokens[3], Token::eof(2, 3));
}

#[test]
fn token_is_placed_on_the_current_line() {
    let src = source(&["abc"]);
    let mut lexer = Lexer::new(&src);
    lexer.token(TokenKind::Semicolon, 7, ";");
    assert_eq!(lexer.tokens, vec![Token::new(TokenKind::Semicolon, 7, 0, ";")]);
}

#[test]
fn next_hands_out_tokens_as_lines_are_needed() {
    let src = source(&["", "a b", "  ", "c", ""]);
    let mut lexer = Lexer::new(&src);
    assert_eq!(lexer.next(), Some(Token::new(TokenKind::Identifier, 0, 2, "a")));
    assert_eq!(lexer.line, 2);
    assert_eq!(lexer.tokens.len(), 2);
    assert_eq!(lexer.next(), Some(Token::new(TokenKind::Identifier, 2, 2, "b")));
    assert_eq!(lexer.line, 2);
    assert_eq!(lexer.next(), Some(Token::new(TokenKind::Identifier, 0, 4, "c")));
    assert_eq!(lexer.line, 4);
    assert_eq!(lexer.next(), None);
    assert_eq!(lexer.line, 5);
    assert_eq!(lexer.next(), None);
    assert_eq!(lexer.taken, 3);
    lexer.scan();
    assert_eq!(lexer.next(), Some(Token::eof(0, 5)));
    assert_eq!(lexer.next(), None);
}

#[test]
fn tokens_stand_in_source_order() {
    let src = source(&["a+=\"x\"1.5", "", "--b 'c"]);
    let (tokens, _) = lex(&src);
    let body = &tokens[..tokens.len() - 1];
    assert_eq!(body.len(), 7);
    for pair in body.windows(2) {
        let (first, second) = (pair[0], pair[1]);
        assert!(
            first.line < second.line
                || (first.line == second.line
                    && first.offset + first.lexeme.len() <= second.offset)
        );
    }
}

#[test]
fn token_as_text() {
    assert_eq!(Token::new(TokenKind::Arrow, 6, 12, "->").text(), "12:6 Arrow '->'");
    assert_eq!(Token::eof(0, 0).text(), "0:0 EOF '<EOF>'");
    assert_eq!(
        Token::new(TokenKind::LiteralString, 3, 1, "it's").text(),
        "1:3 String 'it's'"
    );
}
