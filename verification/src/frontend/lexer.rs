//! The scanner: source lines in, tokens and lexical diagnostics out.
//!
//! A line is scanned left to right, one step at a time.  A step looks at the
//! character under the cursor and at most one character beyond it, emits at
//! most one token and at most one diagnostic, and moves the cursor forward.
//! [`step`] says what one step does; [`line_tokens`] and [`line_errors`] say
//! what a whole line yields; [`lex_tokens`] and [`lex_errors`] what a source does.

use vstd::prelude::*;
use crate::common::error::ChaoError;
use crate::common::error::ChaoErrorView;
use crate::common::error::ErrorBase;
use crate::common::error::ErrorBaseView;
use crate::common::error::ErrorSeverity;
use crate::common::error::fault;
use crate::common::error::is_lexical;
use crate::common::error::line_of;
use crate::common::error::offset_of;
use crate::common::text::byte_len;
use crate::common::text::byte_length;
use crate::common::text::char_width;
use crate::common::text::chars_of;
use crate::common::text::is_digit;
use crate::common::text::lemma_byte_len_monotone;
use crate::common::text::lemma_byte_len_prefix;
use crate::common::text::lemma_byte_len_range_step;
use crate::common::text::lemma_byte_len_step;
use crate::common::text::lemma_char_width;
use crate::common::text::lemma_lexeme_at;
use crate::common::text::lexeme_at;
use crate::common::text::slice;
use crate::common::text::utf8_width;
use crate::common::token::eof_view;
use crate::common::token::keyword_kind;
use crate::common::token::Token;
use crate::common::token::TokenKind;
use crate::common::token::TokenView;
use crate::common::views::lemma_deep_view_push;

verus! {

/// White space between tokens.
pub open spec fn is_space(c: char) -> bool {
    c == ' ' || c == '\t' || c == '\r'
}

/// `A` to `Z` and `a` to `z`.
pub open spec fn is_letter(c: char) -> bool {
    ('a' <= c && c <= 'z') || ('A' <= c && c <= 'Z')
}

/// The characters tokens are made of, beyond their first.
#[derive(Clone, Copy)]
pub enum Run {
    /// Letters, digits and `_`: the tail of a word.
    Word,
    /// Digits, `_` and `.`: the tail of a number.
    Number,
    /// Anything but the given quote: the inside of a quoted literal.
    Quoted(char),
}

/// Whether `c` continues a run.
pub open spec fn in_run(run: Run, c: char) -> bool {
    match run {
        Run::Word => is_letter(c) || is_digit(c) || c == '_',
        Run::Number => is_digit(c) || c == '_' || c == '.',
        Run::Quoted(quote) => c != quote,
    }
}

/// Where the longest run that starts at `i` ends: the first position from `i`
/// on that holds no character of the run, or the end of the line.
pub open spec fn run_end(line: Seq<char>, i: int, run: Run) -> int
    decreases line.len() - i,
{
    if 0 <= i < line.len() && in_run(run, line[i]) {
        run_end(line, i + 1, run)
    } else {
        i
    }
}

/// The lexical faults.
#[derive(Clone, Copy, PartialEq, Eq, Structural)]
pub enum Fault {
    IllegalCharacter,
    UnterminatedChar,
    UnterminatedString,
}

/// What one step of the scanner finds.
pub struct Step {
    /// The kind of the token found, if one was.
    pub kind: Option<TokenKind>,
    /// Character index at which the token's lexeme starts.
    pub start: int,
    /// Character index just behind the token's lexeme.
    pub end: int,
    /// The fault found, if one was.
    pub fault: Option<Fault>,
    /// Character index at which the next step starts.
    pub next: int,
}

/// A step that skips one character.
pub open spec fn skip_one(i: int, fault: Option<Fault>) -> Step {
    Step { kind: None, start: i, end: i, fault, next: i + 1 }
}

/// A step that yields an operator or a parenthesis of `width` characters.
pub open spec fn mark_of(kind: TokenKind, i: int, width: int) -> Step {
    Step { kind: Some(kind), start: i, end: i + width, fault: None, next: i + width }
}

/// The character behind position `i`, if the line has one.
pub open spec fn follower(line: Seq<char>, i: int) -> Option<char> {
    if i + 1 < line.len() {
        Some(line[i + 1])
    } else {
        None
    }
}

/// The step taken at position `i` of `line`.  Rules are tried in this order,
/// and the longest match wins within a rule:
/// white space is skipped; a newline ends the scan of the line; `(` and `)`
/// are tokens; `+` and `-` join with a `+`, `-`, `=` or `>` behind them where
/// that makes an operator; a quote opens a literal that runs to the matching
/// quote or, with a fault, to the end of the line; a letter or `_` starts a
/// word; a digit starts a number, which is a float if it holds a `.`;
/// anything else is an illegal character.
pub open spec fn step(line: Seq<char>, i: int) -> Step
    recommends
        0 <= i < line.len(),
{
    let c = line[i];
    let after = follower(line, i);
    if is_space(c) {
        skip_one(i, None)
    } else if c == '\n' {
        Step { kind: None, start: i, end: i, fault: None, next: line.len() as int }
    } else if c == '(' {
        mark_of(TokenKind::LParen, i, 1)
    } else if c == ')' {
        mark_of(TokenKind::RParen, i, 1)
    } else if c == '+' {
        if after == Some('+') {
            mark_of(TokenKind::PlusPlus, i, 2)
        } else if after == Some('=') {
            mark_of(TokenKind::PlusEqual, i, 2)
        } else {
            mark_of(TokenKind::Plus, i, 1)
        }
    } else if c == '-' {
        if after == Some('-') {
            mark_of(TokenKind::MinusMinus, i, 2)
        } else if after == Some('=') {
            mark_of(TokenKind::MinusEqual, i, 2)
        } else if after == Some('>') {
            mark_of(TokenKind::Arrow, i, 2)
        } else {
            mark_of(TokenKind::Minus, i, 1)
        }
    } else if c == '\'' || c == '"' {
        let close = run_end(line, i + 1, Run::Quoted(c));
        let kind = if c == '\'' {
            TokenKind::LiteralChar
        } else {
            TokenKind::LiteralString
        };
        if close < line.len() {
            Step { kind: Some(kind), start: i + 1, end: close, fault: None, next: close + 1 }
        } else {
            let fault = if c == '\'' {
                Fault::UnterminatedChar
            } else {
                Fault::UnterminatedString
            };
            Step { kind: Some(kind), start: i + 1, end: close, fault: Some(fault), next: close }
        }
    } else if is_letter(c) || c == '_' {
        let end = run_end(line, i + 1, Run::Word);
        Step {
            kind: Some(keyword_kind(line.subrange(i, end))),
            start: i,
            end,
            fault: None,
            next: end,
        }
    } else if is_digit(c) {
        let end = run_end(line, i + 1, Run::Number);
        let kind = if line.subrange(i, end).contains('.') {
            TokenKind::LiteralFloat
        } else {
            TokenKind::LiteralInt
        };
        Step { kind: Some(kind), start: i, end, fault: None, next: end }
    } else {
        skip_one(i, Some(Fault::IllegalCharacter))
    }
}

/// The token a step yields, on line `line_no`.  Its offset is the byte at
/// which its lexeme starts; the lexeme of a quoted literal is what stands
/// between the quotes, as it is written.
pub open spec fn step_tokens(line: Seq<char>, line_no: nat, found: Step) -> Seq<TokenView> {
    match found.kind {
        Some(kind) => seq![
            TokenView {
                kind,
                offset: byte_len(line.take(found.start)),
                line: line_no,
                lexeme: line.subrange(found.start, found.end),
            },
        ],
        None => Seq::empty(),
    }
}

/// The diagnostic for a fault found by the step at position `i` of line `line_no`.
pub open spec fn fault_error(line: Seq<char>, line_no: nat, i: int, what: Fault) -> ChaoErrorView {
    let offset = byte_len(line.take(i));
    match what {
        Fault::IllegalCharacter => fault(
            ErrorBaseView::IllegalCharacter { line: line_no, offset },
            "illegal character found"@,
        ),
        Fault::UnterminatedChar => fault(
            ErrorBaseView::UnterminatedLiteral { line: line_no, offset },
            "Unterminated character literal"@,
        ),
        Fault::UnterminatedString => fault(
            ErrorBaseView::UnterminatedLiteral { line: line_no, offset },
            "Unterminated string literal"@,
        ),
    }
}

/// The diagnostic a step at position `i` yields.
pub open spec fn step_errors(line: Seq<char>, line_no: nat, i: int, found: Step) -> Seq<
    ChaoErrorView,
> {
    match found.fault {
        Some(what) => seq![fault_error(line, line_no, i, what)],
        None => Seq::empty(),
    }
}

/// The tokens of `line` from position `i` on.
pub open spec fn line_tokens(line: Seq<char>, line_no: nat, i: int) -> Seq<TokenView>
    decreases line.len() - i,
{
    if 0 <= i < line.len() {
        let found = step(line, i);
        proof {
            lemma_step(line, i);
        }
        step_tokens(line, line_no, found) + line_tokens(line, line_no, found.next)
    } else {
        Seq::empty()
    }
}

/// The lexical diagnostics of `line` from position `i` on.
pub open spec fn line_errors(line: Seq<char>, line_no: nat, i: int) -> Seq<ChaoErrorView>
    decreases line.len() - i,
{
    if 0 <= i < line.len() {
        let found = step(line, i);
        proof {
            lemma_step(line, i);
        }
        step_errors(line, line_no, i, found) + line_errors(line, line_no, found.next)
    } else {
        Seq::empty()
    }
}

/// The byte offset at which the last step of `line` from position `i` on
/// starts, or `mark` if no step is left to take.
pub open spec fn line_mark(line: Seq<char>, i: int, mark: nat) -> nat
    decreases line.len() - i,
{
    if 0 <= i < line.len() {
        proof {
            lemma_step(line, i);
        }
        line_mark(line, step(line, i).next, byte_len(line.take(i)))
    } else {
        mark
    }
}

/// The tokens of lines `from + 1` to `to`, in order.
pub open spec fn tokens_between(lines: Seq<Seq<char>>, from: int, to: int) -> Seq<TokenView>
    decreases to - from,
{
    if 0 <= from < to <= lines.len() {
        tokens_between(lines, from, to - 1) + line_tokens(lines[to - 1], to as nat, 0)
    } else {
        Seq::empty()
    }
}

/// The lexical diagnostics of lines `from + 1` to `to`, in order.
pub open spec fn errors_between(lines: Seq<Seq<char>>, from: int, to: int) -> Seq<ChaoErrorView>
    decreases to - from,
{
    if 0 <= from < to <= lines.len() {
        errors_between(lines, from, to - 1) + line_errors(lines[to - 1], to as nat, 0)
    } else {
        Seq::empty()
    }
}

/// The byte offset at which the last step within lines `from + 1` to `to`
/// starts, or `mark` if those lines take no step.
pub open spec fn mark_between(lines: Seq<Seq<char>>, from: int, to: int, mark: nat) -> nat
    decreases to - from,
{
    if 0 <= from < to <= lines.len() {
        line_mark(lines[to - 1], 0, mark_between(lines, from, to - 1, mark))
    } else {
        mark
    }
}

/// The tokens of a source: those of its lines, in order, then one end-of-input
/// token on the last line, at the offset where the last step started.
pub open spec fn lex_tokens(lines: Seq<Seq<char>>) -> Seq<TokenView> {
    tokens_between(lines, 0, lines.len() as int).push(
        eof_view(mark_between(lines, 0, lines.len() as int, 0), lines.len()),
    )
}

/// The lexical diagnostics of a source, in the order met.
pub open spec fn lex_errors(lines: Seq<Seq<char>>) -> Seq<ChaoErrorView> {
    errors_between(lines, 0, lines.len() as int)
}

/// The last token, and no other, marks the end of input.
pub open spec fn ends_in_eof(tokens: Seq<TokenView>) -> bool {
    &&& tokens.len() >= 1
    &&& tokens.last().kind == TokenKind::Eof
    &&& forall|k: int| 0 <= k < tokens.len() - 1 ==> (#[trigger] tokens[k]).kind != TokenKind::Eof
}

/// Every token but the last has a lexeme that stands in the source where the
/// token says it does.
pub open spec fn spans_hold(lines: Seq<Seq<char>>, tokens: Seq<TokenView>) -> bool {
    forall|k: int|
        0 <= k < tokens.len() - 1 ==> {
            let token = #[trigger] tokens[k];
            &&& 1 <= token.line <= lines.len()
            &&& lexeme_at(lines[token.line - 1], token.offset, token.lexeme)
        }
}

/// A word: a letter or `_`, then letters, digits and `_`.
pub open spec fn is_word(s: Seq<char>) -> bool {
    &&& s.len() > 0
    &&& is_letter(s[0]) || s[0] == '_'
    &&& forall|i: int| 0 <= i < s.len() ==> in_run(Run::Word, #[trigger] s[i])
}

/// A number: a digit, then digits, `_` and `.`.
pub open spec fn is_number(s: Seq<char>) -> bool {
    &&& s.len() > 0
    &&& is_digit(s[0])
    &&& forall|i: int| 0 <= i < s.len() ==> in_run(Run::Number, #[trigger] s[i])
}

/// What the lexeme of a token of each kind looks like.  An operator is
/// spelled as written; a quoted literal holds its quote nowhere; a word is
/// a keyword exactly if it is spelled like one; a number is a float exactly
/// if it holds a point.  No token of the kinds `Eof`, `Equal` and
/// `Semicolon` comes out of a line.
pub open spec fn shaped(token: TokenView) -> bool {
    let lexeme = token.lexeme;
    match token.kind {
        TokenKind::LParen => lexeme == seq!['('],
        TokenKind::RParen => lexeme == seq![')'],
        TokenKind::Plus => lexeme == seq!['+'],
        TokenKind::PlusPlus => lexeme == seq!['+', '+'],
        TokenKind::PlusEqual => lexeme == seq!['+', '='],
        TokenKind::Minus => lexeme == seq!['-'],
        TokenKind::MinusMinus => lexeme == seq!['-', '-'],
        TokenKind::MinusEqual => lexeme == seq!['-', '='],
        TokenKind::Arrow => lexeme == seq!['-', '>'],
        TokenKind::LiteralString => !lexeme.contains('"'),
        TokenKind::LiteralChar => !lexeme.contains('\''),
        TokenKind::LiteralInt => is_number(lexeme) && !lexeme.contains('.'),
        TokenKind::LiteralFloat => is_number(lexeme) && lexeme.contains('.'),
        TokenKind::Identifier => is_word(lexeme) && keyword_kind(lexeme) == TokenKind::Identifier,
        TokenKind::True => is_word(lexeme) && keyword_kind(lexeme) == TokenKind::True,
        TokenKind::False => is_word(lexeme) && keyword_kind(lexeme) == TokenKind::False,
        TokenKind::Nil => is_word(lexeme) && keyword_kind(lexeme) == TokenKind::Nil,
        TokenKind::Eof => false,
        TokenKind::Equal => false,
        TokenKind::Semicolon => false,
    }
}

/// Every token but the last is shaped as its kind demands.
pub open spec fn shapes_hold(tokens: Seq<TokenView>) -> bool {
    forall|k: int| 0 <= k < tokens.len() - 1 ==> shaped(#[trigger] tokens[k])
}

/// `first` stands before `second` in the source and does not reach into it.
pub open spec fn before(first: TokenView, second: TokenView) -> bool {
    first.line < second.line || (first.line == second.line && first.offset + byte_len(
        first.lexeme,
    ) <= second.offset)
}

/// The tokens but the last stand in the order of the source, none reaching
/// into the next.
pub open spec fn in_source_order(tokens: Seq<TokenView>) -> bool {
    forall|k: int, m: int|
        0 <= k < m < tokens.len() - 1 ==> before(#[trigger] tokens[k], #[trigger] tokens[m])
}

/// Each diagnostic is an illegal character or an unterminated literal, and
/// points at a character of the source.
pub open spec fn errors_point(lines: Seq<Seq<char>>, errors: Seq<ChaoErrorView>) -> bool {
    forall|k: int|
        0 <= k < errors.len() ==> {
            let error = #[trigger] errors[k];
            &&& is_lexical(error)
            &&& 1 <= line_of(error.base) <= lines.len()
            &&& offset_of(error.base) < byte_len(lines[line_of(error.base) - 1])
        }
}

/// A run ends between its start and the end of the line, holds only
/// characters of the run, and cannot be extended.
pub proof fn lemma_run_end(line: Seq<char>, i: int, run: Run)
    requires
        0 <= i <= line.len(),
    ensures
        i <= run_end(line, i, run) <= line.len(),
        forall|k: int| i <= k < run_end(line, i, run) ==> in_run(run, #[trigger] line[k]),
        run_end(line, i, run) < line.len() ==> !in_run(run, line[run_end(line, i, run)]),
    decreases line.len() - i,
{
    if i < line.len() && in_run(run, line[i]) {
        lemma_run_end(line, i + 1, run);
    }
}

/// Every step moves forward and stays inside the line; the lexeme of its
/// token lies between where the step starts and where the next one does, at
/// most one ASCII character away from either.
pub proof fn lemma_step(line: Seq<char>, i: int)
    requires
        0 <= i < line.len(),
    ensures
        i < step(line, i).next <= line.len(),
        step(line, i).kind != Some(TokenKind::Eof),
        step(line, i).kind is Some ==> {
            let found = step(line, i);
            &&& i <= found.start <= found.end <= found.next
            &&& found.start == i || (found.start == i + 1 && char_width(line[i]) == 1)
            &&& found.next == found.end || (found.next == found.end + 1 && char_width(
                line[found.end],
            ) == 1)
        },
        step(line, i).kind is None ==> step(line, i).next == i + 1 || step(line, i).next
            == line.len(),
{
    let c = line[i];
    lemma_run_end(line, i + 1, Run::Quoted(c));
    lemma_run_end(line, i + 1, Run::Word);
    lemma_run_end(line, i + 1, Run::Number);
    let close = run_end(line, i + 1, Run::Quoted(c));
    if close < line.len() {
        lemma_char_width(line[close]);
    }
}

/// Every token of a line is on that line, is no end-of-input token, and has
/// its lexeme at its offset.
pub proof fn lemma_line_tokens(line: Seq<char>, line_no: nat, i: int)
    requires
        0 <= i,
    ensures
        forall|k: int|
            0 <= k < line_tokens(line, line_no, i).len() ==> {
                let token = #[trigger] line_tokens(line, line_no, i)[k];
                &&& token.line == line_no
                &&& token.kind != TokenKind::Eof
                &&& lexeme_at(line, token.offset, token.lexeme)
            },
    decreases line.len() - i,
{
    if i < line.len() {
        let found = step(line, i);
        lemma_step(line, i);
        lemma_line_tokens(line, line_no, found.next);
        if found.kind is Some {
            lemma_lexeme_at(line, found.start, found.end);
        }
    }
}

/// Every token of a range of lines is on one of them, is no end-of-input
/// token, and has its lexeme at its offset.
pub proof fn lemma_tokens_between(lines: Seq<Seq<char>>, from: int, to: int)
    ensures
        forall|k: int|
            0 <= k < tokens_between(lines, from, to).len() ==> {
                let token = #[trigger] tokens_between(lines, from, to)[k];
                &&& 1 <= token.line <= lines.len()
                &&& token.kind != TokenKind::Eof
                &&& lexeme_at(lines[token.line - 1], token.offset, token.lexeme)
            },
    decreases to - from,
{
    if 0 <= from < to <= lines.len() {
        lemma_tokens_between(lines, from, to - 1);
        lemma_line_tokens(lines[to - 1], to as nat, 0);
    }
}

/// Whatever the source holds, its tokens end in exactly one end-of-input
/// token, and the lexeme of every other token is the text found at the
/// token's line and offset.
pub proof fn lemma_lex_tokens(lines: Seq<Seq<char>>)
    ensures
        ends_in_eof(lex_tokens(lines)),
        spans_hold(lines, lex_tokens(lines)),
{
    lemma_tokens_between(lines, 0, lines.len() as int);
}

/// The token of a step is shaped as its kind demands.
pub proof fn lemma_step_shape(line: Seq<char>, line_no: nat, i: int)
    requires
        0 <= i < line.len(),
        step(line, i).kind is Some,
    ensures
        shaped(step_tokens(line, line_no, step(line, i))[0]),
{
    let c = line[i];
    let found = step(line, i);
    let lexeme = line.subrange(found.start, found.end);
    lemma_run_end(line, i + 1, Run::Quoted(c));
    lemma_run_end(line, i + 1, Run::Word);
    lemma_run_end(line, i + 1, Run::Number);
    if c == '(' || c == ')' {
        assert(lexeme =~= seq![c]);
    } else if c == '+' || c == '-' {
        if found.end == i + 2 {
            assert(lexeme =~= seq![c, line[i + 1]]);
        } else {
            assert(lexeme =~= seq![c]);
        }
    } else if c == '\'' || c == '"' {
        assert forall|k: int| 0 <= k < lexeme.len() implies #[trigger] lexeme[k] != c by {
            assert(lexeme[k] == line[found.start + k]);
        }
    } else {
        assert forall|k: int| 0 <= k < lexeme.len() implies (in_run(Run::Word, #[trigger] lexeme[k])
            || !(is_letter(c) || c == '_')) && (in_run(Run::Number, lexeme[k]) || !is_digit(c)) by {
            assert(lexeme[k] == line[i + k]);
        }
    }
}

/// The tokens of a line are shaped as their kinds demand, stand at or
/// behind the position scanned from, and stand in order without reaching
/// into each other.
pub proof fn lemma_line_order(line: Seq<char>, line_no: nat, i: int)
    requires
        0 <= i <= line.len(),
    ensures
        forall|k: int|
            0 <= k < line_tokens(line, line_no, i).len() ==> {
                let token = #[trigger] line_tokens(line, line_no, i)[k];
                &&& shaped(token)
                &&& byte_len(line.take(i)) <= token.offset
            },
        forall|k: int, m: int|
            0 <= k < m < line_tokens(line, line_no, i).len() ==> before(
                #[trigger] line_tokens(line, line_no, i)[k],
                #[trigger] line_tokens(line, line_no, i)[m],
            ),
    decreases line.len() - i,
{
    if i < line.len() {
        let found = step(line, i);
        let rest = line_tokens(line, line_no, found.next);
        let all = line_tokens(line, line_no, i);
        lemma_step(line, i);
        lemma_line_order(line, line_no, found.next);
        lemma_line_tokens(line, line_no, i);
        lemma_byte_len_monotone(line, i, found.next);
        if found.kind is Some {
            lemma_step_shape(line, line_no, i);
            lemma_byte_len_monotone(line, i, found.start);
            lemma_byte_len_monotone(line, found.start, found.end);
            lemma_byte_len_monotone(line, found.end, found.next);
            assert forall|k: int| 0 <= k < all.len() implies shaped(#[trigger] all[k]) && byte_len(
                line.take(i),
            ) <= all[k].offset by {
                if k > 0 {
                    assert(all[k] == rest[k - 1]);
                }
            }
            assert forall|k: int, m: int| 0 <= k < m < all.len() implies before(
                #[trigger] all[k],
                #[trigger] all[m],
            ) by {
                if k > 0 {
                    assert(all[k] == rest[k - 1]);
                }
            }
        } else {
            assert(all =~= rest);
        }
    }
}

/// The tokens of a range of lines are shaped as their kinds demand and
/// stand in the order of the source.
pub proof fn lemma_tokens_order(lines: Seq<Seq<char>>, from: int, to: int)
    ensures
        forall|k: int|
            0 <= k < tokens_between(lines, from, to).len() ==> {
                let token = #[trigger] tokens_between(lines, from, to)[k];
                &&& shaped(token)
                &&& token.line <= to
            },
        forall|k: int, m: int|
            0 <= k < m < tokens_between(lines, from, to).len() ==> before(
                #[trigger] tokens_between(lines, from, to)[k],
                #[trigger] tokens_between(lines, from, to)[m],
            ),
    decreases to - from,
{
    if 0 <= from < to <= lines.len() {
        let earlier = tokens_between(lines, from, to - 1);
        let last = line_tokens(lines[to - 1], to as nat, 0);
        let all = tokens_between(lines, from, to);
        lemma_tokens_order(lines, from, to - 1);
        lemma_line_order(lines[to - 1], to as nat, 0);
        lemma_line_tokens(lines[to - 1], to as nat, 0);
        assert forall|k: int| 0 <= k < all.len() implies shaped(#[trigger] all[k]) && all[k].line
            <= to by {
            if k < earlier.len() {
                assert(all[k] == earlier[k]);
            } else {
                assert(all[k] == last[k - earlier.len()]);
            }
        }
        assert forall|k: int, m: int| 0 <= k < m < all.len() implies before(
            #[trigger] all[k],
            #[trigger] all[m],
        ) by {
            if m < earlier.len() {
                assert(all[k] == earlier[k]);
            } else if k < earlier.len() {
                assert(all[k] == earlier[k]);
            } else {
                assert(all[k] == last[k - earlier.len()]);
            }
        }
    }
}

/// Whatever the source holds, every token but the last is shaped as its
/// kind demands, and the tokens stand in the order of the source, none
/// reaching into the next.
pub proof fn lemma_lex_order(lines: Seq<Seq<char>>)
    ensures
        shapes_hold(lex_tokens(lines)),
        in_source_order(lex_tokens(lines)),
{
    lemma_tokens_order(lines, 0, lines.len() as int);
}

/// Every diagnostic of a line is lexical and points into the line.  All
/// but the last are illegal characters: an unterminated literal ends the
/// scan of its line.
pub proof fn lemma_line_errors(line: Seq<char>, line_no: nat, i: int)
    requires
        0 <= i <= line.len(),
    ensures
        forall|k: int|
            0 <= k < line_errors(line, line_no, i).len() ==> {
                let error = #[trigger] line_errors(line, line_no, i)[k];
                &&& is_lexical(error)
                &&& line_of(error.base) == line_no
                &&& offset_of(error.base) < byte_len(line)
                &&& k < line_errors(line, line_no, i).len() - 1 ==> error.base is IllegalCharacter
            },
    decreases line.len() - i,
{
    if i < line.len() {
        let found = step(line, i);
        let rest = line_errors(line, line_no, found.next);
        let all = line_errors(line, line_no, i);
        lemma_step(line, i);
        lemma_line_errors(line, line_no, found.next);
        lemma_byte_len_step(line, i);
        lemma_byte_len_prefix(line, i + 1);
        if found.fault is Some {
            assert forall|k: int| 0 <= k < all.len() implies {
                let error = #[trigger] all[k];
                &&& is_lexical(error)
                &&& line_of(error.base) == line_no
                &&& offset_of(error.base) < byte_len(line)
                &&& k < all.len() - 1 ==> error.base is IllegalCharacter
            } by {
                if k > 0 {
                    assert(all[k] == rest[k - 1]);
                } else {
                    if found.fault != Some(Fault::IllegalCharacter) {
                        assert(rest.len() == 0);
                    }
                }
            }
        } else {
            assert(all =~= rest);
        }
    }
}

/// Every diagnostic of a range of lines is lexical and points into one of them.
pub proof fn lemma_errors_between(lines: Seq<Seq<char>>, from: int, to: int)
    ensures
        forall|k: int|
            0 <= k < errors_between(lines, from, to).len() ==> {
                let error = #[trigger] errors_between(lines, from, to)[k];
                &&& is_lexical(error)
                &&& 1 <= line_of(error.base) <= lines.len()
                &&& offset_of(error.base) < byte_len(lines[line_of(error.base) - 1])
            },
    decreases to - from,
{
    if 0 <= from < to <= lines.len() {
        let earlier = errors_between(lines, from, to - 1);
        let last = line_errors(lines[to - 1], to as nat, 0);
        let all = errors_between(lines, from, to);
        lemma_errors_between(lines, from, to - 1);
        lemma_line_errors(lines[to - 1], to as nat, 0);
        assert forall|k: int| 0 <= k < all.len() implies {
            let error = #[trigger] all[k];
            &&& is_lexical(error)
            &&& 1 <= line_of(error.base) <= lines.len()
            &&& offset_of(error.base) < byte_len(lines[line_of(error.base) - 1])
        } by {
            if k < earlier.len() {
                assert(all[k] == earlier[k]);
            } else {
                assert(all[k] == last[k - earlier.len()]);
            }
        }
    }
}

/// A step as the running scanner holds it.
struct Found {
    kind: Option<TokenKind>,
    start: usize,
    end: usize,
    fault: Option<Fault>,
    next: usize,
    /// Length of the lexeme in bytes.
    bytes: usize,
}

impl View for Found {
    type V = Step;

    closed spec fn view(&self) -> Step {
        Step {
            kind: self.kind,
            start: self.start as int,
            end: self.end as int,
            fault: self.fault,
            next: self.next as int,
        }
    }
}

impl Found {
    /// A step that yields no token.
    fn nothing(i: usize, fault: Option<Fault>, next: usize) -> (found: Found)
        ensures
            found@ == (Step { kind: None, start: i as int, end: i as int, fault, next: next as int }),
    {
        Found { kind: None, start: i, end: i, fault, next, bytes: 0 }
    }

    /// A step that yields an operator or a parenthesis of `width` characters.
    fn mark(kind: TokenKind, i: usize, width: usize) -> (found: Found)
        requires
            i + width <= usize::MAX,
        ensures
            found@ == mark_of(kind, i as int, width as int),
            found.bytes == width,
    {
        Found { kind: Some(kind), start: i, end: i + width, fault: None, next: i + width, bytes: width }
    }
}

/// Whether `c` continues `run`.
fn continues(run: Run, c: char) -> (yes: bool)
    ensures
        yes == in_run(run, c),
{
    match run {
        Run::Word => (c >= 'a' && c <= 'z') || (c >= 'A' && c <= 'Z') || (c >= '0' && c <= '9')
            || c == '_',
        Run::Number => (c >= '0' && c <= '9') || c == '_' || c == '.',
        Run::Quoted(quote) => c != quote,
    }
}

/// Walks to the end of the run that starts at `i`, and counts its bytes.
fn scan_run(chars: &Vec<char>, i: usize, run: Run) -> (out: (usize, usize))
    requires
        i <= chars.len(),
        byte_len(chars@) <= usize::MAX,
    ensures
        out.0 == run_end(chars@, i as int, run),
        i <= out.0 <= chars.len(),
        out.1 == byte_len(chars@.subrange(i as int, out.0 as int)),
{
    let mut end = i;
    let mut bytes: usize = 0;
    while end < chars.len() && continues(run, chars[end])
        invariant
            i <= end <= chars.len(),
            byte_len(chars@) <= usize::MAX,
            run_end(chars@, end as int, run) == run_end(chars@, i as int, run),
            bytes == byte_len(chars@.subrange(i as int, end as int)),
        decreases chars.len() - end,
    {
        proof {
            lemma_byte_len_range_step(chars@, i as int, end as int);
            lemma_byte_len_monotone(chars@, i as int, end + 1);
            lemma_byte_len_prefix(chars@, end + 1);
        }
        bytes = bytes + utf8_width(chars[end]);
        end += 1;
    }
    (end, bytes)
}

/// Whether characters `start` to `end` hold a `.`.
fn has_point(chars: &Vec<char>, start: usize, end: usize) -> (yes: bool)
    requires
        start <= end <= chars.len(),
    ensures
        yes == chars@.subrange(start as int, end as int).contains('.'),
{
    let mut k = start;
    while k < end
        invariant
            start <= k <= end <= chars.len(),
            forall|j: int| start <= j < k ==> chars@[j] != '.',
        decreases end - k,
    {
        if chars[k] == '.' {
            assert(chars@.subrange(start as int, end as int)[k - start] == '.');
            return true;
        }
        k += 1;
    }
    assert forall|j: int| 0 <= j < end - start implies #[trigger] chars@.subrange(
        start as int,
        end as int,
    )[j] != '.' by {
        assert(chars@.subrange(start as int, end as int)[j] == chars@[start + j]);
    }
    false
}

/// Takes the step at position `i`, which is at byte `offset`.
fn scan_step(text: &str, chars: &Vec<char>, i: usize, offset: usize) -> (found: Found)
    requires
        chars@ == text@,
        i < chars.len(),
        offset == byte_len(chars@.take(i as int)),
        byte_len(chars@) <= usize::MAX,
    ensures
        found@ == step(chars@, i as int),
        found.kind is Some ==> found.bytes == byte_len(
            chars@.subrange(found.start as int, found.end as int),
        ),
{
    let c = chars[i];
    let n = chars.len();
    let after: Option<char> = if i + 1 < n {
        Some(chars[i + 1])
    } else {
        None
    };
    proof {
        lemma_byte_len_range_step(chars@, i as int, i as int);
        if i + 1 < n {
            lemma_byte_len_range_step(chars@, i as int, i + 1);
        }
    }
    if c == ' ' || c == '\t' || c == '\r' {
        Found::nothing(i, None, i + 1)
    } else if c == '\n' {
        Found::nothing(i, None, n)
    } else if c == '(' {
        Found::mark(TokenKind::LParen, i, 1)
    } else if c == ')' {
        Found::mark(TokenKind::RParen, i, 1)
    } else if c == '+' {
        if after == Some('+') {
            Found::mark(TokenKind::PlusPlus, i, 2)
        } else if after == Some('=') {
            Found::mark(TokenKind::PlusEqual, i, 2)
        } else {
            Found::mark(TokenKind::Plus, i, 1)
        }
    } else if c == '-' {
        if after == Some('-') {
            Found::mark(TokenKind::MinusMinus, i, 2)
        } else if after == Some('=') {
            Found::mark(TokenKind::MinusEqual, i, 2)
        } else if after == Some('>') {
            Found::mark(TokenKind::Arrow, i, 2)
        } else {
            Found::mark(TokenKind::Minus, i, 1)
        }
    } else if c == '\'' || c == '"' {
        let (close, bytes) = scan_run(chars, i + 1, Run::Quoted(c));
        let kind = if c == '\'' {
            TokenKind::LiteralChar
        } else {
            TokenKind::LiteralString
        };
        if close < n {
            Found { kind: Some(kind), start: i + 1, end: close, fault: None, next: close + 1, bytes }
        } else {
            let fault = if c == '\'' {
                Fault::UnterminatedChar
            } else {
                Fault::UnterminatedString
            };
            Found { kind: Some(kind), start: i + 1, end: close, fault: Some(fault), next: close, bytes }
        }
    } else if (c >= 'a' && c <= 'z') || (c >= 'A' && c <= 'Z') || c == '_' {
        let (end, tail) = scan_run(chars, i + 1, Run::Word);
        proof {
            lemma_byte_len_monotone(chars@, i as int, end as int);
            lemma_byte_len_monotone(chars@, i + 1, end as int);
            lemma_byte_len_prefix(chars@, end as int);
            lemma_byte_len_step(chars@, i as int);
        }
        let bytes = tail + 1;
        let word = slice(text, offset, offset + bytes, Ghost(i as int), Ghost(end as int));
        Found { kind: Some(TokenKind::as_keyword(word)), start: i, end, fault: None, next: end, bytes }
    } else if c >= '0' && c <= '9' {
        let (end, tail) = scan_run(chars, i + 1, Run::Number);
        proof {
            lemma_byte_len_monotone(chars@, i as int, end as int);
            lemma_byte_len_monotone(chars@, i + 1, end as int);
            lemma_byte_len_prefix(chars@, end as int);
            lemma_byte_len_step(chars@, i as int);
        }
        let kind = if has_point(chars, i, end) {
            TokenKind::LiteralFloat
        } else {
            TokenKind::LiteralInt
        };
        Found { kind: Some(kind), start: i, end, fault: None, next: end, bytes: tail + 1 }
    } else {
        Found::nothing(i, Some(Fault::IllegalCharacter), i + 1)
    }
}

/// The scanner and what it has found so far.
pub struct Lexer<'a> {
    /// The tokens found, in source order.
    pub tokens: Vec<Token<'a>>,
    /// The lexical diagnostics raised, in the order met.
    pub errors: Vec<ChaoError<'a>>,
    /// The source, line by line.
    pub input: &'a Vec<String>,
    /// Number of the line scanned last, counting from one; zero before the first.
    pub line: usize,
    /// Byte offset at which the last step started.
    pub mark: usize,
    /// How many of the tokens `next` has handed out.
    pub taken: usize,
}

impl<'a> Lexer<'a> {
    /// The source as a sequence of character sequences.
    pub open spec fn lines(&self) -> Seq<Seq<char>> {
        self.input.deep_view()
    }

    /// A scanner at the start of `input`.
    pub fn new(input: &'a Vec<String>) -> (lexer: Lexer<'a>)
        ensures
            lexer.tokens@.len() == 0,
            lexer.errors@.len() == 0,
            lexer.input == input,
            lexer.line == 0,
            lexer.mark == 0,
            lexer.taken == 0,
    {
        Lexer { tokens: Vec::new(), errors: Vec::new(), input, line: 0, mark: 0, taken: 0 }
    }

    /// Appends a token on the current line.
    pub fn token(&mut self, kind: TokenKind, offset: usize, lexeme: &'a str)
        ensures
            final(self).tokens.deep_view() == old(self).tokens.deep_view().push(
                TokenView {
                    kind,
                    offset: offset as nat,
                    line: old(self).line as nat,
                    lexeme: lexeme@,
                },
            ),
            final(self).errors == old(self).errors,
            final(self).input == old(self).input,
            final(self).line == old(self).line,
            final(self).mark == old(self).mark,
            final(self).taken == old(self).taken,
    {
        let token = Token::new(kind, offset, self.line, lexeme);
        self.tokens.push(token);
    }

    /// Raises the diagnostic for a fault found at byte `offset` of the current line.
    fn fault(&mut self, what: Fault, offset: usize)
        ensures
            final(self).errors.deep_view() == old(self).errors.deep_view().push(
                match what {
                    Fault::IllegalCharacter => fault(
                        ErrorBaseView::IllegalCharacter {
                            line: old(self).line as nat,
                            offset: offset as nat,
                        },
                        "illegal character found"@,
                    ),
                    Fault::UnterminatedChar => fault(
                        ErrorBaseView::UnterminatedLiteral {
                            line: old(self).line as nat,
                            offset: offset as nat,
                        },
                        "Unterminated character literal"@,
                    ),
                    Fault::UnterminatedString => fault(
                        ErrorBaseView::UnterminatedLiteral {
                            line: old(self).line as nat,
                            offset: offset as nat,
                        },
                        "Unterminated string literal"@,
                    ),
                },
            ),
            final(self).tokens == old(self).tokens,
            final(self).input == old(self).input,
            final(self).line == old(self).line,
            final(self).mark == old(self).mark,
            final(self).taken == old(self).taken,
    {
        let error = match what {
            Fault::IllegalCharacter => ChaoError::new(
                ErrorBase::IllegalCharacter { line: self.line, offset },
                ErrorSeverity::Error,
                false,
                "illegal character found",
            ),
            Fault::UnterminatedChar => ChaoError::new(
                ErrorBase::UnterminatedLiteral { line: self.line, offset },
                ErrorSeverity::Error,
                false,
                "Unterminated character literal",
            ),
            Fault::UnterminatedString => ChaoError::new(
                ErrorBase::UnterminatedLiteral { line: self.line, offset },
                ErrorSeverity::Error,
                false,
                "Unterminated string literal",
            ),
        };
        self.errors.push(error);
    }

    /// Scans the next line, if one is left: appends its tokens and its
    /// diagnostics, and moves `line` and `mark` on.
    pub fn scanline(&mut self)
        ensures
            final(self).input == old(self).input,
            final(self).taken == old(self).taken,
            old(self).line >= old(self).input.len() ==> *final(self) == *old(self),
            old(self).line < old(self).input.len() ==> {
                let text = old(self).lines()[old(self).line as int];
                let line_no = (old(self).line + 1) as nat;
                &&& final(self).line == line_no
                &&& final(self).tokens.deep_view() == old(self).tokens.deep_view() + line_tokens(
                    text,
                    line_no,
                    0,
                )
                &&& final(self).errors.deep_view() == old(self).errors.deep_view() + line_errors(
                    text,
                    line_no,
                    0,
                )
                &&& final(self).mark == line_mark(text, 0, old(self).mark as nat)
            },
    {
        if self.line >= self.input.len() {
            return;
        }
        let input: &'a Vec<String> = self.input;
        let text: &'a str = input[self.line].as_str();
        self.line = self.line + 1;
        let chars = chars_of(text);
        let total = byte_length(text);
        let n = chars.len();
        let ghost line_no = self.line as nat;
        let ghost tokens0 = self.tokens.deep_view();
        let ghost errors0 = self.errors.deep_view();
        let ghost mark0 = self.mark as nat;
        let mut i: usize = 0;
        let mut offset: usize = 0;
        while i < n
            invariant
                chars@ == text@,
                n == chars.len(),
                total == byte_len(chars@),
                i <= n,
                offset == byte_len(chars@.take(i as int)),
                self.line == line_no,
                self.input == input,
                self.taken == old(self).taken,
                self.tokens.deep_view() + line_tokens(chars@, line_no, i as int) == tokens0
                    + line_tokens(chars@, line_no, 0),
                self.errors.deep_view() + line_errors(chars@, line_no, i as int) == errors0
                    + line_errors(chars@, line_no, 0),
                line_mark(chars@, i as int, self.mark as nat) == line_mark(chars@, 0, mark0),
            decreases n - i,
        {
            proof {
                assert(chars@.take(n as int) =~= chars@);
            }
            let found = scan_step(text, &chars, i, offset);
            proof {
                lemma_step(chars@, i as int);
                lemma_byte_len_step(chars@, i as int);
                lemma_byte_len_prefix(chars@, found.next as int);
            }
            self.mark = offset;
            match found.fault {
                Some(what) => {
                    self.fault(what, offset);
                },
                None => {},
            }
            let next_offset: usize;
            match found.kind {
                Some(kind) => {
                    proof {
                        lemma_byte_len_monotone(chars@, found.start as int, found.end as int);
                        if found.next == found.end + 1 {
                            lemma_byte_len_step(chars@, found.end as int);
                        }
                        if found.start == i + 1 {
                            lemma_byte_len_step(chars@, i as int);
                        }
                    }
                    let start_offset = offset + (found.start - i);
                    let end_offset = start_offset + found.bytes;
                    let lexeme = slice(
                        text,
                        start_offset,
                        end_offset,
                        Ghost(found.start as int),
                        Ghost(found.end as int),
                    );
                    self.token(kind, start_offset, lexeme);
                    next_offset = end_offset + (found.next - found.end);
                },
                None => {
                    if found.next == i + 1 {
                        next_offset = offset + utf8_width(chars[i]);
                    } else {
                        next_offset = total;
                    }
                },
            }
            i = found.next;
            offset = next_offset;
        }
    }

    /// Scans every line that is left, then appends the end-of-input token.
    pub fn scan(&mut self)
        ensures
            final(self).input == old(self).input,
            final(self).taken == old(self).taken,
            final(self).line == if old(self).line < old(self).input.len() {
                old(self).input.len()
            } else {
                old(self).line
            },
            final(self).mark == mark_between(
                old(self).lines(),
                old(self).line as int,
                old(self).input.len() as int,
                old(self).mark as nat,
            ),
            final(self).tokens.deep_view() == (old(self).tokens.deep_view() + tokens_between(
                old(self).lines(),
                old(self).line as int,
                old(self).input.len() as int,
            )).push(eof_view(final(self).mark as nat, old(self).input.len() as nat)),
            final(self).errors.deep_view() == old(self).errors.deep_view() + errors_between(
                old(self).lines(),
                old(self).line as int,
                old(self).input.len() as int,
            ),
            old(self).line == 0 && old(self).mark == 0 && old(self).tokens@.len() == 0 && old(
                self,
            ).errors@.len() == 0 ==> {
                &&& final(self).tokens.deep_view() == lex_tokens(old(self).lines())
                &&& final(self).errors.deep_view() == lex_errors(old(self).lines())
                &&& ends_in_eof(final(self).tokens.deep_view())
                &&& spans_hold(old(self).lines(), final(self).tokens.deep_view())
                &&& shapes_hold(final(self).tokens.deep_view())
                &&& in_source_order(final(self).tokens.deep_view())
                &&& errors_point(old(self).lines(), final(self).errors.deep_view())
            },
    {
        let ghost lines = self.lines();
        let ghost from = self.line as int;
        let ghost tokens0 = self.tokens.deep_view();
        let ghost errors0 = self.errors.deep_view();
        let ghost mark0 = self.mark as nat;
        let count = self.input.len();
        while self.line < count
            invariant
                self.input == old(self).input,
                self.taken == old(self).taken,
                lines == self.lines(),
                count == self.input.len(),
                lines.len() == count,
                0 <= from <= self.line,
                from < count ==> self.line <= count,
                from >= count ==> self.line == from,
                self.tokens.deep_view() == tokens0 + tokens_between(lines, from, self.line as int),
                self.errors.deep_view() == errors0 + errors_between(lines, from, self.line as int),
                self.mark == mark_between(lines, from, self.line as int, mark0),
            decreases count - self.line,
        {
            let ghost at = self.line as int;
            self.scanline();
        }
        let eof = Token::eof(self.mark, count);
        proof {
            lemma_deep_view_push(self.tokens@, self.tokens@.push(eof), eof);
            lemma_lex_tokens(lines);
            lemma_lex_order(lines);
            lemma_errors_between(lines, 0, lines.len() as int);
            if from >= count {
                assert(tokens_between(lines, from, count as int) =~= Seq::<TokenView>::empty());
            }
            if tokens0.len() == 0 {
                assert(tokens0 + tokens_between(lines, 0, count as int) =~= tokens_between(
                    lines,
                    0,
                    count as int,
                ));
            }
            if errors0.len() == 0 {
                assert(errors0 + errors_between(lines, 0, count as int) =~= errors_between(
                    lines,
                    0,
                    count as int,
                ));
            }
        }
        self.tokens.push(eof);
    }

    /// Hands out the tokens one at a time, in order.  Lines are scanned
    /// only as tokens are asked for: one more line at a time, until a token
    /// is there to hand out or no line is left.
    pub fn next(&mut self) -> (token: Option<Token<'a>>)
        ensures
            final(self).input == old(self).input,
            old(self).line <= final(self).line,
            final(self).line > old(self).line ==> {
                &&& final(self).line <= old(self).input.len()
                &&& old(self).taken >= old(self).tokens@.len() + tokens_between(
                    old(self).lines(),
                    old(self).line as int,
                    final(self).line - 1,
                ).len()
            },
            final(self).tokens.deep_view() == old(self).tokens.deep_view() + tokens_between(
                old(self).lines(),
                old(self).line as int,
                final(self).line as int,
            ),
            final(self).errors.deep_view() == old(self).errors.deep_view() + errors_between(
                old(self).lines(),
                old(self).line as int,
                final(self).line as int,
            ),
            final(self).mark == mark_between(
                old(self).lines(),
                old(self).line as int,
                final(self).line as int,
                old(self).mark as nat,
            ),
            match token {
                Some(t) => {
                    &&& old(self).taken < final(self).tokens@.len()
                    &&& t == final(self).tokens@[old(self).taken as int]
                    &&& final(self).taken == old(self).taken + 1
                },
                None => {
                    &&& final(self).taken == old(self).taken
                    &&& old(self).taken >= final(self).tokens@.len()
                    &&& final(self).line >= old(self).input.len()
                },
            },
    {
        let ghost lines = self.lines();
        let ghost from = self.line as int;
        let ghost tokens0 = self.tokens.deep_view();
        let ghost errors0 = self.errors.deep_view();
        let ghost mark0 = self.mark as nat;
        let count = self.input.len();
        while self.taken >= self.tokens.len() && self.line < count
            invariant
                self.input == old(self).input,
                self.taken == old(self).taken,
                lines == self.lines(),
                count == self.input.len(),
                lines.len() == count,
                tokens0 == old(self).tokens.deep_view(),
                tokens0.len() == old(self).tokens@.len(),
                0 <= from <= self.line,
                from == old(self).line,
                self.line > from ==> self.line <= count && self.taken >= tokens0.len()
                    + tokens_between(lines, from, self.line - 1).len(),
                self.tokens.deep_view() == tokens0 + tokens_between(lines, from, self.line as int),
                self.errors.deep_view() == errors0 + errors_between(lines, from, self.line as int),
                self.mark == mark_between(lines, from, self.line as int, mark0),
            decreases count - self.line,
        {
            self.scanline();
        }
        if self.taken < self.tokens.len() {
            let token = self.tokens[self.taken];
            self.taken = self.taken + 1;
            Some(token)
        } else {
            None
        }
    }
}

/// Scans a whole source: its tokens, ending in one end-of-input token, and
/// its lexical diagnostics.  Nothing in the source stops the scan.
pub fn lex<'a>(lines: &'a Vec<String>) -> (out: (Vec<Token<'a>>, Vec<ChaoError<'a>>))
    ensures
        out.0.deep_view() == lex_tokens(lines.deep_view()),
        out.1.deep_view() == lex_errors(lines.deep_view()),
        ends_in_eof(out.0.deep_view()),
        spans_hold(lines.deep_view(), out.0.deep_view()),
        shapes_hold(out.0.deep_view()),
        in_source_order(out.0.deep_view()),
        errors_point(lines.deep_view(), out.1.deep_view()),
{
    let mut lexer = Lexer::new(lines);
    lexer.scan();
    (lexer.tokens, lexer.errors)
}

} // verus!
