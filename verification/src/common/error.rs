//! Diagnostics: what went wrong, where, and the collector the stages share.

use vstd::prelude::*;
use vstd::string::*;
use crate::common::text::byte_len;
use crate::common::text::byte_length;
use crate::common::text::decimal;
use crate::common::text::push_decimal;
use crate::common::text::push_repeated;
use crate::common::text::repeated;
use crate::common::token::Token;
use crate::common::token::TokenView;
use crate::common::views::lemma_deep_view_push;

verus! {

/// What a diagnostic is about.  Every kind carries a position; the kinds that
/// are anchored to a token carry the token.
#[derive(Debug, Clone, Copy, PartialEq, Eq)]
pub enum ErrorBase<'a> {
    /// A token that cannot stand where it was found.
    SyntaxError { token: Token<'a> },
    /// Something that is no statement stands where a statement is required.
    InvalidStatement { token: Token<'a> },
    /// A quoted literal that the end of its line cut short.
    UnterminatedLiteral { line: usize, offset: usize },
    /// A particular token was required and `offender` was found in its place.
    ExpectedToken { line: usize, offset: usize, offender: Token<'a> },
    /// A literal whose text does not denote a value of its type.
    ParseError { token: Token<'a> },
    /// An operation between types for which no rule exists.
    IncompatibleTypes { line: usize, offset: usize },
    /// A name that no reachable scope binds.
    UnknownIdentifier { line: usize, offset: usize },
    /// A character that starts no token.
    IllegalCharacter { line: usize, offset: usize },
    /// An assignment to a name that was bound as a constant.
    ConstantReassignment { line: usize, offset: usize },
}

/// An [`ErrorBase`] as a mathematical value.
pub enum ErrorBaseView {
    SyntaxError { token: TokenView },
    InvalidStatement { token: TokenView },
    UnterminatedLiteral { line: nat, offset: nat },
    ExpectedToken { line: nat, offset: nat, offender: TokenView },
    ParseError { token: TokenView },
    IncompatibleTypes { line: nat, offset: nat },
    UnknownIdentifier { line: nat, offset: nat },
    IllegalCharacter { line: nat, offset: nat },
    ConstantReassignment { line: nat, offset: nat },
}

impl<'a> View for ErrorBase<'a> {
    type V = ErrorBaseView;

    open spec fn view(&self) -> ErrorBaseView {
        match *self {
            ErrorBase::SyntaxError { token } => ErrorBaseView::SyntaxError { token: token@ },
            ErrorBase::InvalidStatement { token } => ErrorBaseView::InvalidStatement {
                token: token@,
            },
            ErrorBase::UnterminatedLiteral { line, offset } => ErrorBaseView::UnterminatedLiteral {
                line: line as nat,
                offset: offset as nat,
            },
            ErrorBase::ExpectedToken { line, offset, offender } => ErrorBaseView::ExpectedToken {
                line: line as nat,
                offset: offset as nat,
                offender: offender@,
            },
            ErrorBase::ParseError { token } => ErrorBaseView::ParseError { token: token@ },
            ErrorBase::IncompatibleTypes { line, offset } => ErrorBaseView::IncompatibleTypes {
                line: line as nat,
                offset: offset as nat,
            },
            ErrorBase::UnknownIdentifier { line, offset } => ErrorBaseView::UnknownIdentifier {
                line: line as nat,
                offset: offset as nat,
            },
            ErrorBase::IllegalCharacter { line, offset } => ErrorBaseView::IllegalCharacter {
                line: line as nat,
                offset: offset as nat,
            },
            ErrorBase::ConstantReassignment { line, offset } => ErrorBaseView::ConstantReassignment {
                line: line as nat,
                offset: offset as nat,
            },
        }
    }
}

/// How grave a diagnostic is.
#[derive(Debug, Clone, Copy, PartialEq, Eq, Structural)]
pub enum ErrorSeverity {
    Error,
    Warning,
    Suggestion,
}

/// One diagnostic: its subject, its severity, whether compilation may go on, and a message.
#[derive(Debug, Clone, Copy, PartialEq, Eq)]
pub struct ChaoError<'a> {
    pub base: ErrorBase<'a>,
    pub severity: ErrorSeverity,
    pub can_compile: bool,
    pub msg: &'static str,
}

/// A [`ChaoError`] as a mathematical value.
pub struct ChaoErrorView {
    pub base: ErrorBaseView,
    pub severity: ErrorSeverity,
    pub can_compile: bool,
    pub msg: Seq<char>,
}

impl<'a> View for ChaoError<'a> {
    type V = ChaoErrorView;

    open spec fn view(&self) -> ChaoErrorView {
        ChaoErrorView {
            base: self.base@,
            severity: self.severity,
            can_compile: self.can_compile,
            msg: self.msg@,
        }
    }
}

impl<'a> DeepView for ChaoError<'a> {
    type V = ChaoErrorView;

    open spec fn deep_view(&self) -> ChaoErrorView {
        self@
    }
}

/// The diagnostic every stage raises for a fault: an error that stops compilation.
pub open spec fn fault(base: ErrorBaseView, msg: Seq<char>) -> ChaoErrorView {
    ChaoErrorView { base, severity: ErrorSeverity::Error, can_compile: false, msg }
}

/// The diagnostics of the scanner: illegal characters and unterminated literals.
pub open spec fn is_lexical(error: ChaoErrorView) -> bool {
    &&& error.severity == ErrorSeverity::Error
    &&& !error.can_compile
    &&& error.base is IllegalCharacter || error.base is UnterminatedLiteral
}

/// The diagnostics of the parser: tokens out of place and literals without a value.
pub open spec fn is_syntactic(error: ChaoErrorView) -> bool {
    &&& error.severity == ErrorSeverity::Error
    &&& !error.can_compile
    &&& error.base is SyntaxError || error.base is ParseError || error.base is ExpectedToken
}

/// The diagnostics of the resolver: unknown names, operations without a
/// rule, assignments to constants, and statements that are none.
pub open spec fn is_semantic(error: ChaoErrorView) -> bool {
    &&& error.severity == ErrorSeverity::Error
    &&& !error.can_compile
    &&& error.base is IncompatibleTypes || error.base is UnknownIdentifier
        || error.base is ConstantReassignment || error.base is InvalidStatement
}

impl<'a> ChaoError<'a> {
    /// A diagnostic with the given parts.
    pub fn new(
        base: ErrorBase<'a>,
        severity: ErrorSeverity,
        can_compile: bool,
        msg: &'static str,
    ) -> (error: ChaoError<'a>)
        ensures
            error@ == (ChaoErrorView { base: base@, severity, can_compile, msg: msg@ }),
    {
        ChaoError { base, severity, can_compile, msg }
    }
}

/// Opens a terminal colour sequence.
pub const ESC: &'static str = "\x1b[";

/// Bright red.
pub const RED: &'static str = "91m";

/// Bright green.
pub const GREEN: &'static str = "92m";

/// Bright yellow.
pub const YELLOW: &'static str = "93m";

/// Back to the terminal's own colours.
pub const RESET: &'static str = "\x1b[m";

/// The title under which a kind of diagnostic is printed.
pub open spec fn kind_title(base: ErrorBaseView) -> Seq<char> {
    match base {
        ErrorBaseView::SyntaxError { .. } => "Syntax Error"@,
        ErrorBaseView::ParseError { .. } => "Parse Error"@,
        ErrorBaseView::IllegalCharacter { .. } => "Illegal Character"@,
        ErrorBaseView::UnterminatedLiteral { .. } => "Unterminated Literal"@,
        ErrorBaseView::InvalidStatement { .. } => "Invalid Statement"@,
        ErrorBaseView::ExpectedToken { .. } => "Expected Token"@,
        ErrorBaseView::IncompatibleTypes { .. } => "Incomaptible Types"@,
        ErrorBaseView::UnknownIdentifier { .. } => "Unknown Identifier"@,
        ErrorBaseView::ConstantReassignment { .. } => "Constant Reassignment"@,
    }
}

/// The line a diagnostic points at.
pub open spec fn line_of(base: ErrorBaseView) -> nat {
    match base {
        ErrorBaseView::SyntaxError { token } => token.line,
        ErrorBaseView::InvalidStatement { token } => token.line,
        ErrorBaseView::ParseError { token } => token.line,
        ErrorBaseView::UnterminatedLiteral { line, .. } => line,
        ErrorBaseView::ExpectedToken { line, .. } => line,
        ErrorBaseView::IncompatibleTypes { line, .. } => line,
        ErrorBaseView::UnknownIdentifier { line, .. } => line,
        ErrorBaseView::IllegalCharacter { line, .. } => line,
        ErrorBaseView::ConstantReassignment { line, .. } => line,
    }
}

/// The byte offset a diagnostic points at.
pub open spec fn offset_of(base: ErrorBaseView) -> nat {
    match base {
        ErrorBaseView::SyntaxError { token } => token.offset,
        ErrorBaseView::InvalidStatement { token } => token.offset,
        ErrorBaseView::ParseError { token } => token.offset,
        ErrorBaseView::UnterminatedLiteral { offset, .. } => offset,
        ErrorBaseView::ExpectedToken { offset, .. } => offset,
        ErrorBaseView::IncompatibleTypes { offset, .. } => offset,
        ErrorBaseView::UnknownIdentifier { offset, .. } => offset,
        ErrorBaseView::IllegalCharacter { offset, .. } => offset,
        ErrorBaseView::ConstantReassignment { offset, .. } => offset,
    }
}

/// How many carets underline a diagnostic: the length in bytes of the token
/// it is anchored to, or one where it holds a bare position.
pub open spec fn width_of(base: ErrorBaseView) -> nat {
    match base {
        ErrorBaseView::SyntaxError { token } => byte_len(token.lexeme),
        ErrorBaseView::InvalidStatement { token } => byte_len(token.lexeme),
        ErrorBaseView::ParseError { token } => byte_len(token.lexeme),
        _ => 1,
    }
}

/// A severity as it is printed: its name in its colour.
pub open spec fn severity_text(severity: ErrorSeverity) -> Seq<char> {
    match severity {
        ErrorSeverity::Error => ESC@ + RED@ + "ERROR"@ + RESET@,
        ErrorSeverity::Warning => ESC@ + YELLOW@ + "WARNING"@ + RESET@,
        ErrorSeverity::Suggestion => ESC@ + GREEN@ + "SUGGESTION"@ + RESET@,
    }
}

/// The first line of a printed diagnostic: severity, file, line and title.
pub open spec fn header_text(
    severity: ErrorSeverity,
    path: Seq<char>,
    line: nat,
    kind: Seq<char>,
) -> Seq<char> {
    "\n["@ + severity_text(severity) + "] "@ + path + ":"@ + decimal(line) + " "@ + ESC@ + YELLOW@
        + kind + RESET@ + ":"@
}

/// The source line of a printed diagnostic, with `width` carets under byte `offset`.
pub open spec fn body_text(content: Seq<char>, offset: nat, width: nat) -> Seq<char> {
    "~\n~ "@ + content + "\n~ "@ + ESC@ + YELLOW@ + repeated(" "@, offset) + repeated("^"@, width)
        + RESET@
}

/// Body and header of a diagnostic at `line` of `source`, or `None` where
/// the source has no such line.
pub open spec fn excerpt(
    source: Seq<Seq<char>>,
    path: Seq<char>,
    severity: ErrorSeverity,
    kind: Seq<char>,
    line: nat,
    offset: nat,
    width: nat,
) -> Option<(Seq<char>, Seq<char>)> {
    if 1 <= line <= source.len() {
        Some((body_text(source[line - 1], offset, width), header_text(severity, path, line, kind)))
    } else {
        None
    }
}

/// Body and header of the given diagnostic.
pub open spec fn formatted_text(
    base: ErrorBaseView,
    source: Seq<Seq<char>>,
    path: Seq<char>,
    severity: ErrorSeverity,
) -> Option<(Seq<char>, Seq<char>)> {
    excerpt(
        source,
        path,
        severity,
        kind_title(base),
        line_of(base),
        offset_of(base),
        width_of(base),
    )
}

/// What is appended for a diagnostic that names the token found.
pub open spec fn found_text(base: ErrorBaseView) -> Seq<char> {
    match base {
        ErrorBaseView::ExpectedToken { offender, .. } => ESC@ + GREEN@ + " found '"@
            + offender.lexeme + "' instead"@ + RESET@,
        _ => Seq::empty(),
    }
}

/// A whole diagnostic as it is printed, or `None` where the source has no
/// line to show for it.
pub open spec fn rendered_text(error: ChaoErrorView, source: Seq<Seq<char>>, path: Seq<char>) -> Option<
    Seq<char>,
> {
    match formatted_text(error.base, source, path, error.severity) {
        Some((body, header)) => Some(
            header + "\n"@ + body + "\n"@ + ESC@ + GREEN@ + error.msg + RESET@ + found_text(
                error.base,
            ) + "\n"@,
        ),
        None => None,
    }
}

impl ErrorSeverity {
    /// The severity as it is printed: its name in its colour.
    pub fn text(&self) -> (text: String)
        ensures
            text@ == severity_text(*self),
    {
        let mut text = String::new();
        text.append(ESC);
        match self {
            ErrorSeverity::Error => {
                text.append(RED);
                text.append("ERROR");
            },
            ErrorSeverity::Warning => {
                text.append(YELLOW);
                text.append("WARNING");
            },
            ErrorSeverity::Suggestion => {
                text.append(GREEN);
                text.append("SUGGESTION");
            },
        }
        text.append(RESET);
        text
    }
}

/// Builds body and header of a diagnostic at `offset` of `line`, underlined
/// by `width` carets.
fn format_excerpt(
    line: usize,
    offset: usize,
    width: usize,
    source: &Vec<String>,
    path: &String,
    kind: &'static str,
    severity: &ErrorSeverity,
) -> (out: Option<(String, String)>)
    ensures
        out.deep_view() == excerpt(
            source.deep_view(),
            path@,
            *severity,
            kind@,
            line as nat,
            offset as nat,
            width as nat,
        ),
{
    if line == 0 || line > source.len() {
        return None;
    }
    let mut header = String::new();
    header.append("\n[");
    header.append(severity.text().as_str());
    header.append("] ");
    header.append(path.as_str());
    header.append(":");
    push_decimal(&mut header, line);
    header.append(" ");
    header.append(ESC);
    header.append(YELLOW);
    header.append(kind);
    header.append(RESET);
    header.append(":");
    let content = &source[line - 1];
    let mut body = String::new();
    body.append("~\n~ ");
    body.append(content.as_str());
    body.append("\n~ ");
    body.append(ESC);
    body.append(YELLOW);
    push_repeated(&mut body, " ", offset);
    push_repeated(&mut body, "^", width);
    body.append(RESET);
    Some((body, header))
}

/// Body and header of a diagnostic that holds a bare position: the source
/// line with one caret under byte `offset`, and the line that names file,
/// line and kind.  `None` where the source has no line `line`.
pub fn format_line_offset(
    line: usize,
    offset: usize,
    source: &Vec<String>,
    path: &String,
    kind: &'static str,
    severity: &ErrorSeverity,
) -> (out: Option<(String, String)>)
    ensures
        out.deep_view() == excerpt(
            source.deep_view(),
            path@,
            *severity,
            kind@,
            line as nat,
            offset as nat,
            1,
        ),
{
    format_excerpt(line, offset, 1, source, path, kind, severity)
}

/// Body and header of a diagnostic that is anchored to a token: the source
/// line with the token underlined, and the line that names file, line and
/// kind.  `None` where the source has no line for the token.
pub fn format_token(
    token: &Token,
    source: &Vec<String>,
    path: &String,
    kind: &'static str,
    severity: &ErrorSeverity,
) -> (out: Option<(String, String)>)
    ensures
        out.deep_view() == excerpt(
            source.deep_view(),
            path@,
            *severity,
            kind@,
            token@.line,
            token@.offset,
            byte_len(token@.lexeme),
        ),
{
    format_excerpt(
        token.line,
        token.offset,
        byte_length(token.lexeme),
        source,
        path,
        kind,
        severity,
    )
}

impl<'a> ErrorBase<'a> {
    /// The title under which this kind of diagnostic is printed.
    pub fn kind(&self) -> (title: &'static str)
        ensures
            title@ == kind_title(self@),
    {
        match self {
            ErrorBase::SyntaxError { .. } => "Syntax Error",
            ErrorBase::ParseError { .. } => "Parse Error",
            ErrorBase::IllegalCharacter { .. } => "Illegal Character",
            ErrorBase::UnterminatedLiteral { .. } => "Unterminated Literal",
            ErrorBase::InvalidStatement { .. } => "Invalid Statement",
            ErrorBase::ExpectedToken { .. } => "Expected Token",
            ErrorBase::IncompatibleTypes { .. } => "Incomaptible Types",
            ErrorBase::UnknownIdentifier { .. } => "Unknown Identifier",
            ErrorBase::ConstantReassignment { .. } => "Constant Reassignment",
        }
    }

    /// Body and header of the diagnostic as they are printed, or `None`
    /// where the source has no line to show for it.
    pub fn formatted(&self, source: &Vec<String>, path: &String, severity: &ErrorSeverity) -> (out:
        Option<(String, String)>)
        ensures
            out.deep_view() == formatted_text(self@, source.deep_view(), path@, *severity),
    {
        match self {
            ErrorBase::SyntaxError { token } => format_token(
                token,
                source,
                path,
                self.kind(),
                severity,
            ),
            ErrorBase::InvalidStatement { token } => format_token(
                token,
                source,
                path,
                self.kind(),
                severity,
            ),
            ErrorBase::ParseError { token } => format_token(
                token,
                source,
                path,
                self.kind(),
                severity,
            ),
            ErrorBase::IllegalCharacter { line, offset } => format_line_offset(
                *line,
                *offset,
                source,
                path,
                self.kind(),
                severity,
            ),
            ErrorBase::UnterminatedLiteral { line, offset } => format_line_offset(
                *line,
                *offset,
                source,
                path,
                self.kind(),
                severity,
            ),
            ErrorBase::ExpectedToken { line, offset, offender: _ } => format_line_offset(
                *line,
                *offset,
                source,
                path,
                self.kind(),
                severity,
            ),
            ErrorBase::IncompatibleTypes { line, offset } => format_line_offset(
                *line,
                *offset,
                source,
                path,
                self.kind(),
                severity,
            ),
            ErrorBase::UnknownIdentifier { line, offset } => format_line_offset(
                *line,
                *offset,
                source,
                path,
                self.kind(),
                severity,
            ),
            ErrorBase::ConstantReassignment { line, offset } => format_line_offset(
                *line,
                *offset,
                source,
                path,
                self.kind(),
                severity,
            ),
        }
    }
}

impl<'a> ChaoError<'a> {
    /// The diagnostic as it is printed: header, source line, message and,
    /// for an expected token, what was found in its place.  `None` where the
    /// source has no line to show for it.
    pub fn render(&self, source: &Vec<String>, path: &String) -> (text: Option<String>)
        ensures
            text.deep_view() == rendered_text(self@, source.deep_view(), path@),
    {
        match self.base.formatted(source, path, &self.severity) {
            None => None,
            Some((body, header)) => {
                let mut text = header;
                text.append("\n");
                text.append(body.as_str());
                text.append("\n");
                text.append(ESC);
                text.append(GREEN);
                text.append(self.msg);
                text.append(RESET);
                match self.base {
                    ErrorBase::ExpectedToken { line: _, offset: _, offender } => {
                        text.append(ESC);
                        text.append(GREEN);
                        text.append(" found '");
                        text.append(offender.lexeme);
                        text.append("' instead");
                        text.append(RESET);
                    },
                    _ => {},
                }
                text.append("\n");
                Some(text)
            },
        }
    }
}

/// The collector to which every stage hands its diagnostics.
pub struct Reporter<'a> {
    /// The diagnostics collected and not yet printed, in the order they came.
    pub errors: Vec<ChaoError<'a>>,
    /// The source, line by line.
    pub source: &'a Vec<String>,
    /// The name of the source file.
    pub path: &'a String,
}

/// The printed form of each of `errors`, in order.
pub open spec fn rendered_all(
    errors: Seq<ChaoErrorView>,
    source: Seq<Seq<char>>,
    path: Seq<char>,
) -> Seq<Option<Seq<char>>> {
    Seq::new(errors.len(), |i: int| rendered_text(errors[i], source, path))
}

impl<'a> Reporter<'a> {
    /// An empty collector for the given source.
    pub fn new(source: &'a Vec<String>, path: &'a String) -> (reporter: Reporter<'a>)
        ensures
            reporter.errors@.len() == 0,
            reporter.source == source,
            reporter.path == path,
    {
        Reporter { errors: Vec::new(), source, path }
    }

    /// Collects one error.
    pub fn error(&mut self, base: ErrorBase<'a>, can_compile: bool, msg: &'static str)
        ensures
            final(self).errors@ == old(self).errors@.push(
                ChaoError { base, severity: ErrorSeverity::Error, can_compile, msg },
            ),
            final(self).errors.deep_view() == old(self).errors.deep_view().push(
                ChaoErrorView {
                    base: base@,
                    severity: ErrorSeverity::Error,
                    can_compile,
                    msg: msg@,
                },
            ),
            final(self).source == old(self).source,
            final(self).path == old(self).path,
    {
        let error = ChaoError { base, severity: ErrorSeverity::Error, can_compile, msg };
        self.errors.push(error);
    }

    /// Collects every diagnostic of `errs`, in order, behind those already held.
    pub fn dump(&mut self, errs: Vec<ChaoError<'a>>)
        ensures
            final(self).errors@ == old(self).errors@ + errs@,
            final(self).errors.deep_view() == old(self).errors.deep_view() + errs.deep_view(),
            final(self).source == old(self).source,
            final(self).path == old(self).path,
    {
        let mut errs = errs;
        self.errors.append(&mut errs);
    }

    /// Whether any diagnostic is held.
    pub fn has_errors(&self) -> (any: bool)
        ensures
            any == (self.errors@.len() > 0),
    {
        self.errors.len() > 0
    }

    /// Hands out the printed form of every diagnostic held, in order, and
    /// holds none afterwards.  An entry is `None` where the source has no
    /// line to show for the diagnostic.
    pub fn print_all(&mut self) -> (printed: Vec<Option<String>>)
        ensures
            final(self).errors@.len() == 0,
            final(self).source == old(self).source,
            final(self).path == old(self).path,
            printed.deep_view() == rendered_all(
                old(self).errors.deep_view(),
                old(self).source.deep_view(),
                old(self).path@,
            ),
    {
        let mut printed: Vec<Option<String>> = Vec::new();
        let ghost all = self.errors.deep_view();
        let mut i: usize = 0;
        while i < self.errors.len()
            invariant
                self.errors == old(self).errors,
                self.source == old(self).source,
                self.path == old(self).path,
                all == self.errors.deep_view(),
                i <= self.errors.len(),
                printed.deep_view() == rendered_all(
                    all.take(i as int),
                    self.source.deep_view(),
                    self.path@,
                ),
            decreases self.errors.len() - i,
        {
            let text = self.errors[i].render(self.source, self.path);
            let ghost before = printed.deep_view();
            proof {
                lemma_deep_view_push(printed@, printed@.push(text), text);
            }
            printed.push(text);
            proof {
                let source = self.source.deep_view();
                let path = self.path@;
                assert forall|k: int| 0 <= k < i + 1 implies #[trigger] printed.deep_view()[k]
                    == rendered_all(all.take(i + 1), source, path)[k] by {
                    if k < i {
                        assert(before[k] == rendered_all(all.take(i as int), source, path)[k]);
                    }
                }
            }
            i += 1;
        }
        self.errors.clear();
        printed
    }
}

} // verus!
