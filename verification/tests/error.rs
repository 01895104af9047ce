use chao::common::error::format_line_offset;
use chao::common::error::format_token;
use chao::common::error::ChaoError;
use chao::common::error::ErrorBase;
use chao::common::error::ErrorSeverity;
use chao::common::error::Reporter;
use chao::common::token::Token;
use chao::common::token::TokenKind;

fn shown(lines: &[&str]) -> Vec<String> {
    lines.iter().map(|l| l.to_string()).collect()
}

fn pair(body: &str, header: &str) -> Option<(String, String)> {
    Some((body.to_string(), header.to_string()))
}

#[test]
fn position_is_shown_with_one_caret() {
    let src = shown(&["first", "a @ b"]);
    let path = "main.chao".to_string();
    assert_eq!(
        format_line_offset(2, 2, &src, &path, "Illegal Character", &ErrorSeverity::Error),
        pair(
            "~\n~ a @ b\n~ \x1b[93m  ^\x1b[m",
            "\n[\x1b[91mERROR\x1b[m] main.chao:2 \x1b[93mIllegal Character\x1b[m:"
        )
    );
}

#[test]
fn token_is_underlined_over_its_length() {
    let src = shown(&["let total -> 1"]);
    let path = "a.chao".to_string();
    let token = Token::new(TokenKind::Identifier, 4, 1, "total");
    assert_eq!(
        format_token(&token, &src, &path, "Syntax Error", &ErrorSeverity::Warning),
        pair(
            "~\n~ let total -> 1\n~ \x1b[93m    ^^^^^\x1b[m",
            "\n[\x1b[93mWARNING\x1b[m] a.chao:1 \x1b[93mSyntax Error\x1b[m:"
        )
    );
}

#[test]
fn line_numbers_are_written_in_full() {
    let mut src = shown(&[]);
    for _ in 0..120 {
        src.push("x".to_string());
    }
    let path = "p".to_string();
    assert_eq!(
        format_line_offset(120, 0, &src, &path, "K", &ErrorSeverity::Suggestion),
        pair("~\n~ x\n~ \x1b[93m^\x1b[m", "\n[\x1b[92mSUGGESTION\x1b[m] p:120 \x1b[93mK\x1b[m:")
    );
}

#[test]
fn no_line_nothing_to_show() {
    let src = shown(&["only"]);
    let path = "p".to_string();
    assert_eq!(format_line_offset(0, 0, &src, &path, "K", &ErrorSeverity::Error), None);
    assert_eq!(format_line_offset(2, 0, &src, &path, "K", &ErrorSeverity::Error), None);
    assert_eq!(format_token(&Token::eof(0, 0), &src, &path, "K", &ErrorSeverity::Error), None);
    assert_eq!(format_token(&Token::eof(0, 2), &src, &path, "K", &ErrorSeverity::Error), None);
    assert!(format_token(&Token::eof(0, 1), &src, &path, "K", &ErrorSeverity::Error).is_some());
    let empty = shown(&[]);
    assert_eq!(format_line_offset(1, 0, &empty, &path, "K", &ErrorSeverity::Error), None);
}

#[test]
fn kinds_have_titles() {
    let tk = Token::eof(0, 1);
    let titles: Vec<&str> = [
        ErrorBase::SyntaxError { token: tk },
        ErrorBase::InvalidStatement { token: tk },
        ErrorBase::UnterminatedLiteral { line: 1, offset: 0 },
        ErrorBase::ExpectedToken { line: 1, offset: 0, offender: tk },
        ErrorBase::ParseError { token: tk },
        ErrorBase::IncompatibleTypes { line: 1, offset: 0 },
        ErrorBase::UnknownIdentifier { line: 1, offset: 0 },
        ErrorBase::IllegalCharacter { line: 1, offset: 0 },
        ErrorBase::ConstantReassignment { line: 1, offset: 0 },
    ]
    .iter()
    .map(|base| base.kind())
    .collect();
    assert_eq!(
        titles,
        vec![
            "Syntax Error",
            "Invalid Statement",
            "Unterminated Literal",
            "Expected Token",
            "Parse Error",
            "Incomaptible Types",
            "Unknown Identifier",
            "Illegal Character",
            "Constant Reassignment",
        ]
    );
}

#[test]
fn severities_have_colours() {
    assert_eq!(ErrorSeverity::Error.text(), "\x1b[91mERROR\x1b[m");
    assert_eq!(ErrorSeverity::Warning.text(), "\x1b[93mWARNING\x1b[m");
    assert_eq!(ErrorSeverity::Suggestion.text(), "\x1b[92mSUGGESTION\x1b[m");
}

#[test]
fn token_kinds_are_shown_by_their_token() {
    let src = shown(&["x \u{e9}\u{e9} y"]);
    let path = "f".to_string();
    let token = Token::new(TokenKind::Identifier, 2, 1, "\u{e9}\u{e9}");
    let header = "\n[\x1b[91mERROR\x1b[m] f:1 \x1b[93mParse Error\x1b[m:";
    assert_eq!(
        ErrorBase::ParseError { token }.formatted(&src, &path, &ErrorSeverity::Error),
        pair("~\n~ x \u{e9}\u{e9} y\n~ \x1b[93m  ^^^^\x1b[m", header)
    );
    assert_eq!(
        ErrorBase::ExpectedToken { line: 1, offset: 5, offender: token }.formatted(
            &src,
            &path,
            &ErrorSeverity::Error
        ),
        pair(
            "~\n~ x \u{e9}\u{e9} y\n~ \x1b[93m     ^\x1b[m",
            "\n[\x1b[91mERROR\x1b[m] f:1 \x1b[93mExpected Token\x1b[m:"
        )
    );
    assert_eq!(
        ErrorBase::UnknownIdentifier { line: 3, offset: 0 }.formatted(
            &src,
            &path,
            &ErrorSeverity::Error
        ),
        None
    );
}

#[test]
fn diagnostic_as_it_is_printed() {
    let src = shown(&["y -> 6"]);
    let path = "c.chao".to_string();
    let error = ChaoError::new(
        ErrorBase::ConstantReassignment { line: 1, offset: 5 },
        ErrorSeverity::Error,
        false,
        "cannot reassign a constant",
    );
    assert_eq!(
        error.render(&src, &path),
        Some(
            "\n[\x1b[91mERROR\x1b[m] c.chao:1 \x1b[93mConstant Reassignment\x1b[m:\n\
             ~\n~ y -> 6\n~ \x1b[93m     ^\x1b[m\n\
             \x1b[92mcannot reassign a constant\x1b[m\n"
                .to_string()
        )
    );
}

#[test]
fn expected_token_names_what_was_found() {
    let src = shown(&["let 5"]);
    let path = "c".to_string();
    let offender = Token::new(TokenKind::LiteralInt, 4, 1, "5");
    let error = ChaoError::new(
        ErrorBase::ExpectedToken { line: 1, offset: 4, offender },
        ErrorSeverity::Error,
        false,
        "expected a name after the keyword",
    );
    assert_eq!(
        error.render(&src, &path),
        Some(
            "\n[\x1b[91mERROR\x1b[m] c:1 \x1b[93mExpected Token\x1b[m:\n\
             ~\n~ let 5\n~ \x1b[93m    ^\x1b[m\n\
             \x1b[92mexpected a name after the keyword\x1b[m\
             \x1b[92m found '5' instead\x1b[m\n"
                .to_string()
        )
    );
}

#[test]
fn diagnostic_without_a_line_is_not_printed() {
    let src = shown(&[]);
    let path = "c".to_string();
    let error = ChaoError::new(
        ErrorBase::SyntaxError { token: Token::eof(0, 0) },
        ErrorSeverity::Error,
        false,
        "expected an expression here",
    );
    assert_eq!(error.render(&src, &path), None);
}

#[test]
fn diagnostic_is_what_it_is_made_of() {
    let base = ErrorBase::IllegalCharacter { line: 3, offset: 9 };
    let error = ChaoError::new(base, ErrorSeverity::Warning, true, "odd");
    assert_eq!(error.base, base);
    assert_eq!(error.severity, ErrorSeverity::Warning);
    assert!(error.can_compile);
    assert_eq!(error.msg, "odd");
}

#[test]
fn reporter_collects_in_order() {
    let src = shown(&["a", "b"]);
    let path = "r".to_string();
    let mut reporter = Reporter::new(&src, &path);
    assert!(!reporter.has_errors());
    assert!(reporter.errors.is_empty());
    let first = ErrorBase::IllegalCharacter { line: 1, offset: 0 };
    let second = ErrorBase::UnknownIdentifier { line: 2, offset: 0 };
    let third = ErrorBase::IncompatibleTypes { line: 9, offset: 0 };
    reporter.error(first, false, "one");
    assert!(reporter.has_errors());
    reporter.dump(vec![
        ChaoError::new(second, ErrorSeverity::Warning, true, "two"),
        ChaoError::new(third, ErrorSeverity::Error, false, "three"),
    ]);
    reporter.dump(Vec::new());
    assert_eq!(
        reporter.errors,
        vec![
            ChaoError::new(first, ErrorSeverity::Error, false, "one"),
            ChaoError::new(second, ErrorSeverity::Warning, true, "two"),
            ChaoError::new(third, ErrorSeverity::Error, false, "three"),
        ]
    );
    let printed = reporter.print_all();
    assert_eq!(
        printed,
        vec![
            Some(
                "\n[\x1b[91mERROR\x1b[m] r:1 \x1b[93mIllegal Character\x1b[m:\n\
                 ~\n~ a\n~ \x1b[93m^\x1b[m\n\x1b[92mone\x1b[m\n"
                    .to_string()
            ),
            Some(
                "\n[\x1b[93mWARNING\x1b[m] r:2 \x1b[93mUnknown Identifier\x1b[m:\n\
                 ~\n~ b\n~ \x1b[93m^\x1b[m\n\x1b[92mtwo\x1b[m\n"
                    .to_string()
            ),
            None,
        ]
    );
    assert!(!reporter.has_errors());
    assert!(reporter.print_all().is_empty());
}
