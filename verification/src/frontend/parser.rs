//! The parser: tokens in, statements and syntactic diagnostics out.
//!
//! The grammar, from the loosest binding to the tightest:
//!
//! ```text
//! statement   := declaration | assignment
//! declaration := ("let" | "const") IDENT "->" assignment
//! assignment  := factor ( "->" assignment )?
//! factor      := literal ( ("+" | "-") factor )?
//! literal     := STRING | INTEGER | FLOAT | IDENT | "true" | "false" | "nil"
//! ```
//!
//! The parser reads through a cursor: a position into the tokens, with the
//! last token of the input standing for every position behind the others.
//! [`spec_factor`], [`spec_assignment`] and [`spec_statement`] give the
//! meaning of the grammar over that cursor; the methods of [`Parser`]
//! compute them.  A statement that cannot be parsed leaves an `Invalid` node
//! and costs the rest of its line, never the statements that follow.

use vstd::prelude::*;
use crate::common::ast::int_value;
use crate::common::ast::is_float;
use crate::common::ast::lemma_plain_float;
use crate::common::ast::leaf;
use crate::common::ast::Node;
use crate::common::ast::NodeKind;
use crate::common::ast::NodeKindView;
use crate::common::ast::NodeView;
use crate::common::error::ChaoError;
use crate::common::error::ChaoErrorView;
use crate::common::error::ErrorBase;
use crate::common::error::ErrorBaseView;
use crate::common::error::ErrorSeverity;
use crate::common::error::fault;
use crate::common::error::is_syntactic;
use crate::common::text::byte_length;
use crate::common::text::count_of;
use crate::common::text::digits_value;
use crate::common::text::is_digit;
use crate::common::text::lemma_count_of;
use crate::common::text::lemma_without_chars;
use crate::common::text::lemma_without_count;
use crate::common::text::lemma_without_first;
use crate::common::text::str_eq;
use crate::common::text::without;
use crate::common::token::eof_view;
use crate::common::token::Token;
use crate::common::token::TokenKind;
use crate::common::token::TokenView;
use crate::frontend::lexer::errors_between;
use crate::frontend::lexer::in_run;
use crate::frontend::lexer::Lexer;
use crate::frontend::lexer::mark_between;
use crate::frontend::lexer::Run;
use crate::frontend::lexer::shaped;
use crate::frontend::lexer::tokens_between;

verus! {

/// The token under a cursor at `pos`: the token there, or `eof` behind the last.
pub open spec fn token_at(toks: Seq<TokenView>, eof: TokenView, pos: int) -> TokenView {
    if 0 <= pos < toks.len() {
        toks[pos]
    } else {
        eof
    }
}

/// Where a cursor at `pos` stands after moving `n` tokens on: it stops
/// behind the last token and does not move from there.
pub open spec fn advance(toks: Seq<TokenView>, pos: int, n: int) -> int {
    if pos >= toks.len() {
        pos
    } else if pos + n >= toks.len() {
        toks.len() as int
    } else {
        pos + n
    }
}

/// The kinds of token that are a literal by themselves.
pub open spec fn is_literal(kind: TokenKind) -> bool {
    kind == TokenKind::LiteralString || kind == TokenKind::Identifier || kind
        == TokenKind::LiteralFloat || kind == TokenKind::LiteralInt || kind == TokenKind::True
        || kind == TokenKind::False || kind == TokenKind::Nil
}

/// What reading one literal yields.
pub struct Leaf {
    /// The literal, unless the token is none.
    pub node: Option<NodeView>,
    /// The diagnostics raised.
    pub errors: Seq<ChaoErrorView>,
}

/// What parsing one expression yields.
pub struct Parsed {
    /// The expression, unless a token stopped the parser.
    pub node: Option<NodeView>,
    /// Where the cursor is left: on the last token of the expression, or on
    /// the token that stopped the parser.
    pub pos: int,
    /// The diagnostics raised, in order.
    pub errors: Seq<ChaoErrorView>,
}

/// What parsing one statement yields.
pub struct Statement {
    /// The statement, or an `Invalid` node.
    pub node: NodeView,
    /// Where the next statement starts.
    pub next: int,
    /// The diagnostics raised, in order.
    pub errors: Seq<ChaoErrorView>,
}

/// The literal a token is.  A numeric literal drops its `_` separators;
/// an integer is converted and a float is checked, and one that fails is
/// reported and read as zero.  A token of any other kind is a syntax error.
pub open spec fn spec_literal(token: TokenView) -> Leaf {
    let digits = without(token.lexeme, '_');
    match token.kind {
        TokenKind::LiteralString => Leaf {
            node: Some(leaf(NodeKindView::LiteralStr { val: token.lexeme }, token)),
            errors: Seq::empty(),
        },
        TokenKind::Identifier => Leaf {
            node: Some(leaf(NodeKindView::LiteralIdent { id: token.lexeme }, token)),
            errors: Seq::empty(),
        },
        TokenKind::LiteralFloat => if is_float(digits) {
            Leaf {
                node: Some(leaf(NodeKindView::LiteralFloat { text: digits }, token)),
                errors: Seq::empty(),
            }
        } else {
            Leaf {
                node: Some(leaf(NodeKindView::LiteralFloat { text: "0.0"@ }, token)),
                errors: seq![
                    fault(ErrorBaseView::ParseError { token }, "could not parse float literal"@),
                ],
            }
        },
        TokenKind::LiteralInt => match int_value(digits) {
            Some(val) => Leaf {
                node: Some(leaf(NodeKindView::LiteralInt { val }, token)),
                errors: Seq::empty(),
            },
            None => Leaf {
                node: Some(leaf(NodeKindView::LiteralInt { val: 0 }, token)),
                errors: seq![
                    fault(ErrorBaseView::ParseError { token }, "could not parse integer literal"@),
                ],
            },
        },
        TokenKind::True => Leaf {
            node: Some(leaf(NodeKindView::LiteralTrue, token)),
            errors: Seq::empty(),
        },
        TokenKind::False => Leaf {
            node: Some(leaf(NodeKindView::LiteralFalse, token)),
            errors: Seq::empty(),
        },
        TokenKind::Nil => Leaf {
            node: Some(leaf(NodeKindView::LiteralNil, token)),
            errors: Seq::empty(),
        },
        _ => Leaf {
            node: None,
            errors: seq![
                fault(ErrorBaseView::SyntaxError { token }, "expected an expression here"@),
            ],
        },
    }
}

/// The node for `lhs op rhs`, placed at the operator.
pub open spec fn binary(lhs: NodeView, op: TokenView, rhs: NodeView) -> NodeView {
    leaf(NodeKindView::ExprBinary { lhs: Box::new(lhs), op: op.kind, rhs: Box::new(rhs) }, op)
}

/// The node for `id -> val`, placed at the arrow.
pub open spec fn assignment(id: NodeView, op: TokenView, val: NodeView) -> NodeView {
    leaf(NodeKindView::ExprAssignment { id: Box::new(id), op: op.kind, val: Box::new(val) }, op)
}

/// `factor := literal ( ("+" | "-") factor )?`, read with the cursor at `pos`.
pub open spec fn spec_factor(toks: Seq<TokenView>, eof: TokenView, pos: int) -> Parsed
    decreases toks.len() - pos,
{
    let first = spec_literal(token_at(toks, eof, pos));
    let op = token_at(toks, eof, pos + 1);
    match first.node {
        None => Parsed { node: None, pos, errors: first.errors },
        Some(lhs) => if op.kind == TokenKind::Plus || op.kind == TokenKind::Minus {
            let rest = spec_factor(toks, eof, advance(toks, pos, 2));
            Parsed {
                node: match rest.node {
                    Some(rhs) => Some(binary(lhs, op, rhs)),
                    None => None,
                },
                pos: rest.pos,
                errors: first.errors + rest.errors,
            }
        } else {
            Parsed { node: Some(lhs), pos, errors: first.errors }
        },
    }
}

/// `assignment := factor ( "->" assignment )?`, read with the cursor at `pos`.
pub open spec fn spec_assignment(toks: Seq<TokenView>, eof: TokenView, pos: int) -> Parsed
    decreases toks.len() - pos,
{
    let target = spec_factor(toks, eof, pos);
    let op = token_at(toks, eof, target.pos + 1);
    match target.node {
        None => target,
        Some(id) => if op.kind == TokenKind::Arrow {
            proof {
                lemma_factor(toks, eof, pos);
            }
            let rest = spec_assignment(toks, eof, advance(toks, target.pos, 2));
            Parsed {
                node: match rest.node {
                    Some(val) => Some(assignment(id, op, val)),
                    None => None,
                },
                pos: rest.pos,
                errors: target.errors + rest.errors,
            }
        } else {
            target
        },
    }
}

/// The first position from `pos` on whose token is not on `line`.
pub open spec fn skip_line(toks: Seq<TokenView>, pos: int, line: nat) -> int
    decreases toks.len() - pos,
{
    if 0 <= pos < toks.len() && toks[pos].line == line {
        skip_line(toks, pos + 1, line)
    } else {
        pos
    }
}

/// Where parsing resumes after the token at `pos` stopped a statement:
/// behind that token and behind every token that follows it on its line.
pub open spec fn resync(toks: Seq<TokenView>, pos: int) -> int {
    if 0 <= pos < toks.len() {
        skip_line(toks, pos + 1, toks[pos].line)
    } else {
        pos
    }
}

/// Whether a token opens a declaration.
pub open spec fn is_keyword(token: TokenView) -> bool {
    token.kind == TokenKind::Identifier && (token.lexeme == "let"@ || token.lexeme == "const"@)
}

/// The diagnostic for a token found where another was required.
pub open spec fn expected(offender: TokenView, msg: Seq<char>) -> ChaoErrorView {
    fault(
        ErrorBaseView::ExpectedToken {
            line: offender.line,
            offset: offender.offset,
            offender,
        },
        msg,
    )
}

/// The statement that the token at `pos` stopped: an `Invalid` node that
/// holds the token, with parsing to resume behind the token's line.
pub open spec fn rejected(
    toks: Seq<TokenView>,
    eof: TokenView,
    pos: int,
    errors: Seq<ChaoErrorView>,
) -> Statement {
    let tk = token_at(toks, eof, pos);
    Statement { node: leaf(NodeKindView::Invalid { tk }, tk), next: resync(toks, pos), errors }
}

/// `statement := declaration | assignment`, read with the cursor at `pos`.
///
/// A statement that starts with the word `let` or `const` is a declaration:
/// the word, a name, an arrow and the initial value.  Any other statement is
/// an expression, wrapped in a statement node at the expression's span.
pub open spec fn spec_statement(toks: Seq<TokenView>, eof: TokenView, pos: int) -> Statement {
    let first = token_at(toks, eof, pos);
    if is_keyword(first) {
        let name_pos = advance(toks, pos, 1);
        let name = token_at(toks, eof, name_pos);
        let arrow_pos = advance(toks, pos, 2);
        let arrow = token_at(toks, eof, arrow_pos);
        if name.kind != TokenKind::Identifier {
            rejected(
                toks,
                eof,
                name_pos,
                seq![expected(name, "expected a name after the keyword"@)],
            )
        } else if arrow.kind != TokenKind::Arrow {
            rejected(toks, eof, arrow_pos, seq![expected(arrow, "expected '->' after the name"@)])
        } else {
            let init = spec_assignment(toks, eof, advance(toks, pos, 3));
            match init.node {
                None => rejected(toks, eof, init.pos, init.errors),
                Some(val) => Statement {
                    node: leaf(
                        if first.lexeme == "const"@ {
                            NodeKindView::StmtConstant { id: name.lexeme, val: Box::new(val) }
                        } else {
                            NodeKindView::StmtVariable { id: name.lexeme, val: Box::new(val) }
                        },
                        first,
                    ),
                    next: advance(toks, init.pos, 1),
                    errors: init.errors,
                },
            }
        }
    } else {
        let parsed = spec_assignment(toks, eof, pos);
        match parsed.node {
            None => rejected(toks, eof, parsed.pos, parsed.errors),
            Some(expr) => Statement {
                node: NodeView {
                    kind: NodeKindView::StmtExpression { expr: Box::new(expr) },
                    line: expr.line,
                    offset: expr.offset,
                    length: expr.length,
                },
                next: advance(toks, parsed.pos, 1),
                errors: parsed.errors,
            },
        }
    }
}

/// The statements read from `pos` to the end of the input.
pub open spec fn program_nodes(toks: Seq<TokenView>, eof: TokenView, pos: int) -> Seq<NodeView>
    decreases toks.len() - pos,
{
    if 0 <= pos < toks.len() {
        proof {
            lemma_statement(toks, eof, pos);
        }
        let first = spec_statement(toks, eof, pos);
        seq![first.node] + program_nodes(toks, eof, first.next)
    } else {
        Seq::empty()
    }
}

/// The diagnostics raised while reading from `pos` to the end of the input.
pub open spec fn program_errors(toks: Seq<TokenView>, eof: TokenView, pos: int) -> Seq<
    ChaoErrorView,
>
    decreases toks.len() - pos,
{
    if 0 <= pos < toks.len() {
        proof {
            lemma_statement(toks, eof, pos);
        }
        let first = spec_statement(toks, eof, pos);
        first.errors + program_errors(toks, eof, first.next)
    } else {
        Seq::empty()
    }
}

/// The statements of a token sequence whose last token marks its end.
pub open spec fn parse_nodes(tokens: Seq<TokenView>) -> Seq<NodeView> {
    program_nodes(tokens.drop_last(), tokens.last(), 0)
}

/// The syntactic diagnostics of a token sequence whose last token marks its end.
pub open spec fn parse_errors(tokens: Seq<TokenView>) -> Seq<ChaoErrorView> {
    program_errors(tokens.drop_last(), tokens.last(), 0)
}

/// Every diagnostic is one of the parser's.
pub open spec fn syntactic(errors: Seq<ChaoErrorView>) -> bool {
    forall|k: int| 0 <= k < errors.len() ==> is_syntactic(#[trigger] errors[k])
}

/// Whether a token may continue the expression before it.
pub open spec fn continues_expression(kind: TokenKind) -> bool {
    kind == TokenKind::Plus || kind == TokenKind::Minus || kind == TokenKind::Arrow
}

/// Where the lines of `toks` start: `cuts` holds the position of the first
/// token of each line and, last, the number of tokens.  Each line holds a
/// token, its tokens stand on one source line, and the line behind it
/// stands on another.
#[verifier::opaque]
pub open spec fn cut_into_lines(toks: Seq<TokenView>, cuts: Seq<int>) -> bool {
    &&& cuts.len() >= 1
    &&& cuts[0] == 0
    &&& cuts.last() == toks.len()
    &&& forall|j: int| 0 <= j < cuts.len() - 1 ==> 0 <= #[trigger] cuts[j] < cuts[j + 1]
    &&& forall|j: int, k: int|
        0 <= j < cuts.len() - 1 && cuts[j] <= k < cuts[j + 1] ==> (#[trigger] toks[k]).line
            == toks[#[trigger] cuts[j]].line
    &&& forall|j: int|
        0 < j < cuts.len() - 1 ==> toks[#[trigger] cuts[j]].line != toks[cuts[j] - 1].line
}

/// The tokens of line `j`.
pub open spec fn line_at(toks: Seq<TokenView>, cuts: Seq<int>, j: int) -> Seq<TokenView> {
    toks.subrange(cuts[j], cuts[j + 1])
}

/// Whether a line holds one statement and nothing else, when it is parsed
/// alone: the statement takes the whole line, and if it cannot be parsed,
/// it is a token of the line that stops it, not the end of the line.
pub open spec fn one_statement(line: Seq<TokenView>, eof: TokenView) -> bool {
    let read = spec_statement(line, eof, 0);
    &&& read.next == line.len()
    &&& read.node.kind matches NodeKindView::Invalid { tk } ==> tk.kind != TokenKind::Eof
}

/// The nodes that the lines from line `j` on give, each parsed alone.
pub open spec fn nodes_by_line(
    toks: Seq<TokenView>,
    eof: TokenView,
    cuts: Seq<int>,
    j: int,
) -> Seq<NodeView>
    decreases cuts.len() - j,
{
    if 0 <= j < cuts.len() - 1 {
        seq![spec_statement(line_at(toks, cuts, j), eof, 0).node] + nodes_by_line(
            toks,
            eof,
            cuts,
            j + 1,
        )
    } else {
        Seq::empty()
    }
}

/// The diagnostics that the lines from line `j` on give, each parsed alone.
pub open spec fn errors_by_line(
    toks: Seq<TokenView>,
    eof: TokenView,
    cuts: Seq<int>,
    j: int,
) -> Seq<ChaoErrorView>
    decreases cuts.len() - j,
{
    if 0 <= j < cuts.len() - 1 {
        spec_statement(line_at(toks, cuts, j), eof, 0).errors + errors_by_line(
            toks,
            eof,
            cuts,
            j + 1,
        )
    } else {
        Seq::empty()
    }
}

/// A factor leaves the cursor at or behind where it found it, never behind
/// the end, and on a literal exactly if it succeeded.
pub proof fn lemma_factor(toks: Seq<TokenView>, eof: TokenView, pos: int)
    ensures
        pos <= spec_factor(toks, eof, pos).pos,
        pos <= toks.len() ==> spec_factor(toks, eof, pos).pos <= toks.len(),
        spec_factor(toks, eof, pos).node is Some <==> is_literal(
            token_at(toks, eof, spec_factor(toks, eof, pos).pos).kind,
        ),
    decreases toks.len() - pos,
{
    let first = spec_literal(token_at(toks, eof, pos));
    let op = token_at(toks, eof, pos + 1);
    if first.node is Some && (op.kind == TokenKind::Plus || op.kind == TokenKind::Minus) {
        lemma_factor(toks, eof, advance(toks, pos, 2));
    }
}

/// An assignment leaves the cursor at or behind where it found it, never
/// behind the end, and on a literal exactly if it succeeded.
pub proof fn lemma_assignment(toks: Seq<TokenView>, eof: TokenView, pos: int)
    ensures
        pos <= spec_assignment(toks, eof, pos).pos,
        pos <= toks.len() ==> spec_assignment(toks, eof, pos).pos <= toks.len(),
        spec_assignment(toks, eof, pos).node is Some <==> is_literal(
            token_at(toks, eof, spec_assignment(toks, eof, pos).pos).kind,
        ),
    decreases toks.len() - pos,
{
    lemma_factor(toks, eof, pos);
    let target = spec_factor(toks, eof, pos);
    let op = token_at(toks, eof, target.pos + 1);
    if target.node is Some && op.kind == TokenKind::Arrow {
        lemma_assignment(toks, eof, advance(toks, target.pos, 2));
    }
}

/// Skipping a line moves forward and stops at the end at the latest.
pub proof fn lemma_skip_line(toks: Seq<TokenView>, pos: int, line: nat)
    ensures
        pos <= skip_line(toks, pos, line),
        pos <= toks.len() ==> skip_line(toks, pos, line) <= toks.len(),
    decreases toks.len() - pos,
{
    if 0 <= pos < toks.len() && toks[pos].line == line {
        lemma_skip_line(toks, pos + 1, line);
    }
}

/// A statement that starts inside the input ends behind where it started,
/// and inside the input or at its end.
pub proof fn lemma_statement(toks: Seq<TokenView>, eof: TokenView, pos: int)
    requires
        0 <= pos < toks.len(),
    ensures
        pos < spec_statement(toks, eof, pos).next <= toks.len(),
{
    lemma_assignment(toks, eof, pos);
    lemma_assignment(toks, eof, advance(toks, pos, 3));
    let plain = spec_assignment(toks, eof, pos);
    let init = spec_assignment(toks, eof, advance(toks, pos, 3));
    let name_pos = advance(toks, pos, 1);
    let arrow_pos = advance(toks, pos, 2);
    if 0 <= plain.pos < toks.len() {
        lemma_skip_line(toks, plain.pos + 1, toks[plain.pos].line);
    }
    if 0 <= init.pos < toks.len() {
        lemma_skip_line(toks, init.pos + 1, toks[init.pos].line);
    }
    if 0 <= name_pos < toks.len() {
        lemma_skip_line(toks, name_pos + 1, toks[name_pos].line);
    }
    if 0 <= arrow_pos < toks.len() {
        lemma_skip_line(toks, arrow_pos + 1, toks[arrow_pos].line);
    }
}

/// A factor that fails has raised a diagnostic: the last one names the
/// token at which it stopped as a syntax error.
pub proof fn lemma_factor_failure(toks: Seq<TokenView>, eof: TokenView, pos: int)
    requires
        spec_factor(toks, eof, pos).node is None,
    ensures
        spec_factor(toks, eof, pos).errors.len() > 0,
        spec_factor(toks, eof, pos).errors.last() == fault(
            ErrorBaseView::SyntaxError {
                token: token_at(toks, eof, spec_factor(toks, eof, pos).pos),
            },
            "expected an expression here"@,
        ),
    decreases toks.len() - pos,
{
    let first = spec_literal(token_at(toks, eof, pos));
    let op = token_at(toks, eof, pos + 1);
    if first.node is Some && (op.kind == TokenKind::Plus || op.kind == TokenKind::Minus) {
        lemma_factor_failure(toks, eof, advance(toks, pos, 2));
    }
}

/// An assignment that fails has raised a diagnostic: the last one names
/// the token at which it stopped as a syntax error.
pub proof fn lemma_assignment_failure(toks: Seq<TokenView>, eof: TokenView, pos: int)
    requires
        spec_assignment(toks, eof, pos).node is None,
    ensures
        spec_assignment(toks, eof, pos).errors.len() > 0,
        spec_assignment(toks, eof, pos).errors.last() == fault(
            ErrorBaseView::SyntaxError {
                token: token_at(toks, eof, spec_assignment(toks, eof, pos).pos),
            },
            "expected an expression here"@,
        ),
    decreases toks.len() - pos,
{
    lemma_factor(toks, eof, pos);
    let target = spec_factor(toks, eof, pos);
    let op = token_at(toks, eof, target.pos + 1);
    if target.node is Some && op.kind == TokenKind::Arrow {
        lemma_assignment_failure(toks, eof, advance(toks, target.pos, 2));
    } else {
        lemma_factor_failure(toks, eof, pos);
    }
}

/// Every token that skipping a line passes is on that line.
pub proof fn lemma_skipped(toks: Seq<TokenView>, pos: int, line: nat)
    ensures
        forall|k: int| pos <= k < skip_line(toks, pos, line) ==> (#[trigger] toks[k]).line == line,
    decreases toks.len() - pos,
{
    if 0 <= pos < toks.len() && toks[pos].line == line {
        lemma_skipped(toks, pos + 1, line);
    }
}

/// A statement that cannot be parsed raises a diagnostic, yields one
/// `Invalid` node and costs no more than the rest of the line on which it
/// stopped: the statements after it are those that parsing yields from the
/// first token behind that line.
pub proof fn lemma_resynchronization(toks: Seq<TokenView>, eof: TokenView, pos: int)
    requires
        0 <= pos < toks.len(),
        spec_statement(toks, eof, pos).node.kind is Invalid,
    ensures
        spec_statement(toks, eof, pos).errors.len() > 0,
        exists|stop: int|
            {
                &&& pos <= stop
                &&& spec_statement(toks, eof, pos).node.kind == (NodeKindView::Invalid {
                    tk: token_at(toks, eof, stop),
                })
                &&& #[trigger] resync(toks, stop) == spec_statement(toks, eof, pos).next
                &&& program_nodes(toks, eof, pos) == seq![spec_statement(toks, eof, pos).node]
                    + program_nodes(toks, eof, resync(toks, stop))
                &&& forall|k: int|
                    stop < k < resync(toks, stop) ==> (#[trigger] toks[k]).line == token_at(
                        toks,
                        eof,
                        stop,
                    ).line
            },
{
    lemma_assignment(toks, eof, pos);
    lemma_assignment(toks, eof, advance(toks, pos, 3));
    if spec_assignment(toks, eof, pos).node is None {
        lemma_assignment_failure(toks, eof, pos);
    }
    if spec_assignment(toks, eof, advance(toks, pos, 3)).node is None {
        lemma_assignment_failure(toks, eof, advance(toks, pos, 3));
    }
    let first = token_at(toks, eof, pos);
    let name_pos = advance(toks, pos, 1);
    let arrow_pos = advance(toks, pos, 2);
    let stop = if is_keyword(first) {
        if token_at(toks, eof, name_pos).kind != TokenKind::Identifier {
            name_pos
        } else if token_at(toks, eof, arrow_pos).kind != TokenKind::Arrow {
            arrow_pos
        } else {
            spec_assignment(toks, eof, advance(toks, pos, 3)).pos
        }
    } else {
        spec_assignment(toks, eof, pos).pos
    };
    if 0 <= stop < toks.len() {
        lemma_skipped(toks, stop + 1, toks[stop].line);
    }
}

/// What being cut into lines says of line `j`.
pub proof fn lemma_cut(toks: Seq<TokenView>, cuts: Seq<int>, j: int)
    requires
        cut_into_lines(toks, cuts),
        0 <= j < cuts.len() - 1,
    ensures
        0 <= cuts[j] < cuts[j + 1] <= toks.len(),
        forall|k: int|
            cuts[j] <= k < cuts[j + 1] ==> (#[trigger] toks[k]).line == toks[cuts[j]].line,
        cuts[j + 1] < toks.len() ==> toks[cuts[j + 1]].line != toks[cuts[j]].line,
        cuts[j + 1] < toks.len() <==> j + 1 < cuts.len() - 1,
{
    reveal(cut_into_lines);
    lemma_cut_order(toks, cuts, j + 1);
    if j + 1 < cuts.len() - 1 {
        assert(toks[cuts[j + 1]].line != toks[cuts[j + 1] - 1].line);
        assert(toks[cuts[j + 1] - 1].line == toks[cuts[j]].line);
    }
}

/// The lines start in order: each cut lies before the last, which is the
/// number of tokens.
proof fn lemma_cut_order(toks: Seq<TokenView>, cuts: Seq<int>, j: int)
    requires
        cut_into_lines(toks, cuts),
        0 <= j <= cuts.len() - 1,
    ensures
        cuts[j] <= toks.len(),
        j < cuts.len() - 1 ==> cuts[j] < toks.len(),
        j == cuts.len() - 1 ==> cuts[j] == toks.len(),
    decreases cuts.len() - j,
{
    reveal(cut_into_lines);
    if j < cuts.len() - 1 {
        lemma_cut_order(toks, cuts, j + 1);
        assert(cuts[j] < cuts[j + 1]);
    }
}

/// Skipping a line from inside a run of tokens that stand on it ends where
/// the run ends.
pub proof fn lemma_skip_run(toks: Seq<TokenView>, pos: int, end: int, line: nat)
    requires
        0 <= pos <= end <= toks.len(),
        forall|k: int| pos <= k < end ==> (#[trigger] toks[k]).line == line,
        end < toks.len() ==> toks[end].line != line,
    ensures
        skip_line(toks, pos, line) == end,
    decreases end - pos,
{
    if pos < end {
        lemma_skip_run(toks, pos + 1, end, line);
    }
}

/// A factor within a part of the tokens is read as it is read in the part
/// alone, where the token behind the part continues no expression.
pub proof fn lemma_factor_local(
    toks: Seq<TokenView>,
    eof: TokenView,
    from: int,
    to: int,
    pos: int,
)
    requires
        0 <= from <= to <= toks.len(),
        0 <= pos,
        spec_factor(toks.subrange(from, to), eof, pos).pos < to - from,
        !continues_expression(token_at(toks, eof, to).kind),
    ensures
        spec_factor(toks, eof, from + pos) == (Parsed {
            pos: from + spec_factor(toks.subrange(from, to), eof, pos).pos,
            ..spec_factor(toks.subrange(from, to), eof, pos)
        }),
    decreases to - from - pos,
{
    let part = toks.subrange(from, to);
    lemma_factor(part, eof, pos);
    assert(token_at(part, eof, pos) == token_at(toks, eof, from + pos));
    let first = spec_literal(token_at(part, eof, pos));
    if first.node is Some {
        if pos + 1 < part.len() {
            assert(token_at(part, eof, pos + 1) == token_at(toks, eof, from + pos + 1));
            let op = token_at(part, eof, pos + 1);
            if op.kind == TokenKind::Plus || op.kind == TokenKind::Minus {
                lemma_factor(part, eof, advance(part, pos, 2));
                lemma_factor_local(toks, eof, from, to, pos + 2);
            }
        } else {
            let op = token_at(part, eof, pos + 1);
            if op.kind == TokenKind::Plus || op.kind == TokenKind::Minus {
                lemma_factor(part, eof, advance(part, pos, 2));
            }
        }
    }
}

/// An assignment within a part of the tokens is read as it is read in the
/// part alone, where the token behind the part continues no expression.
pub proof fn lemma_assignment_local(
    toks: Seq<TokenView>,
    eof: TokenView,
    from: int,
    to: int,
    pos: int,
)
    requires
        0 <= from <= to <= toks.len(),
        0 <= pos,
        spec_assignment(toks.subrange(from, to), eof, pos).pos < to - from,
        !continues_expression(token_at(toks, eof, to).kind),
    ensures
        spec_assignment(toks, eof, from + pos) == (Parsed {
            pos: from + spec_assignment(toks.subrange(from, to), eof, pos).pos,
            ..spec_assignment(toks.subrange(from, to), eof, pos)
        }),
    decreases to - from - pos,
{
    let part = toks.subrange(from, to);
    lemma_factor(part, eof, pos);
    let target = spec_factor(part, eof, pos);
    let op = token_at(part, eof, target.pos + 1);
    if target.node is Some && op.kind == TokenKind::Arrow {
        lemma_assignment(part, eof, advance(part, target.pos, 2));
        lemma_factor_local(toks, eof, from, to, pos);
        assert(token_at(part, eof, target.pos + 1) == token_at(toks, eof, from + target.pos + 1));
        lemma_assignment_local(toks, eof, from, to, target.pos + 2);
    } else {
        lemma_factor_local(toks, eof, from, to, pos);
        if target.node is Some && target.pos + 1 < part.len() {
            assert(token_at(part, eof, target.pos + 1) == token_at(
                toks,
                eof,
                from + target.pos + 1,
            ));
        }
    }
}

/// The end of a statement whose last part is the assignment at `pos` of a
/// line: read among the other lines, the assignment is what it is in the
/// line alone, and what follows it, the next statement or the rest of the
/// line that is skipped, ends where the line ends.
proof fn lemma_local_end(toks: Seq<TokenView>, eof: TokenView, from: int, to: int, pos: int)
    requires
        0 <= from < to <= toks.len(),
        0 <= pos <= 3,
        pos < to - from,
        eof.kind == TokenKind::Eof,
        forall|k: int| from <= k < to ==> (#[trigger] toks[k]).kind != TokenKind::Eof,
        forall|k: int| from <= k < to ==> (#[trigger] toks[k]).line == toks[from].line,
        to < toks.len() ==> toks[to].line != toks[from].line,
        !continues_expression(token_at(toks, eof, to).kind),
        ({
            let part = toks.subrange(from, to);
            let read = spec_assignment(part, eof, advance(part, 0, pos));
            &&& read.node is Some ==> advance(part, read.pos, 1) == part.len()
            &&& read.node is None ==> token_at(part, eof, read.pos).kind != TokenKind::Eof
        }),
    ensures
        ({
            let part = toks.subrange(from, to);
            let read = spec_assignment(part, eof, advance(part, 0, pos));
            &&& advance(part, 0, pos) == pos
            &&& advance(toks, from, pos) == from + pos
            &&& spec_assignment(toks, eof, from + pos) == (Parsed { pos: from + read.pos, ..read })
            &&& read.node is Some ==> advance(toks, from + read.pos, 1) == to
            &&& resync(part, read.pos) == part.len()
            &&& resync(toks, from + read.pos) == to
            &&& token_at(part, eof, read.pos) == token_at(toks, eof, from + read.pos)
        }),
{
    let part = toks.subrange(from, to);
    let line = toks[from].line;
    let read = spec_assignment(part, eof, pos);
    lemma_assignment(part, eof, pos);
    assert forall|k: int| 0 <= k < part.len() implies (#[trigger] part[k]).line == line by {
        assert(part[k] == toks[from + k]);
    }
    assert(read.pos < part.len());
    assert(part[read.pos] == toks[from + read.pos]);
    lemma_assignment_local(toks, eof, from, to, pos);
    lemma_skip_run(part, read.pos + 1, part.len() as int, line);
    lemma_skip_run(toks, from + read.pos + 1, to, line);
}

/// A line that holds one statement is read, where it stands among the
/// other lines, as it is read alone, and the next statement starts where
/// the next line does.
pub proof fn lemma_statement_local(toks: Seq<TokenView>, eof: TokenView, from: int, to: int)
    requires
        0 <= from < to <= toks.len(),
        eof.kind == TokenKind::Eof,
        forall|k: int| from <= k < to ==> (#[trigger] toks[k]).kind != TokenKind::Eof,
        forall|k: int| from <= k < to ==> (#[trigger] toks[k]).line == toks[from].line,
        to < toks.len() ==> toks[to].line != toks[from].line,
        !continues_expression(token_at(toks, eof, to).kind),
        one_statement(toks.subrange(from, to), eof),
    ensures
        spec_statement(toks, eof, from) == (Statement {
            next: to,
            ..spec_statement(toks.subrange(from, to), eof, 0)
        }),
{
    let part = toks.subrange(from, to);
    let line = toks[from].line;
    let first = token_at(part, eof, 0);
    assert(first == token_at(toks, eof, from));
    assert forall|k: int| 0 <= k < part.len() implies (#[trigger] part[k]).line == line
        && part[k].kind != TokenKind::Eof by {
        assert(part[k] == toks[from + k]);
    }
    if is_keyword(first) {
        let name = token_at(part, eof, advance(part, 0, 1));
        let arrow = token_at(part, eof, advance(part, 0, 2));
        if name.kind != TokenKind::Identifier {
            assert(part.len() > 1);
            assert(name == toks[from + 1]);
            lemma_skip_run(part, 2, part.len() as int, line);
            lemma_skip_run(toks, from + 2, to, line);
        } else if arrow.kind != TokenKind::Arrow {
            assert(part.len() > 2);
            assert(name == toks[from + 1]);
            assert(arrow == toks[from + 2]);
            lemma_skip_run(part, 3, part.len() as int, line);
            lemma_skip_run(toks, from + 3, to, line);
        } else {
            assert(part.len() > 2);
            assert(name == toks[from + 1]);
            assert(arrow == toks[from + 2]);
            lemma_local_end(toks, eof, from, to, 3);
        }
    } else {
        lemma_local_end(toks, eof, from, to, 0);
    }
}

/// The statements from line `j` on are read line by line.
proof fn lemma_lines_from(toks: Seq<TokenView>, eof: TokenView, cuts: Seq<int>, j: int)
    requires
        eof.kind == TokenKind::Eof,
        forall|k: int| 0 <= k < toks.len() ==> (#[trigger] toks[k]).kind != TokenKind::Eof,
        cut_into_lines(toks, cuts),
        forall|j: int|
            0 <= j < cuts.len() - 1 ==> one_statement(#[trigger] line_at(toks, cuts, j), eof),
        forall|j: int|
            0 < j < cuts.len() - 1 ==> !continues_expression(toks[#[trigger] cuts[j]].kind),
        0 <= j <= cuts.len() - 1,
    ensures
        program_nodes(toks, eof, cuts[j]) == nodes_by_line(toks, eof, cuts, j),
        program_errors(toks, eof, cuts[j]) == errors_by_line(toks, eof, cuts, j),
        nodes_by_line(toks, eof, cuts, j).len() == cuts.len() - 1 - j,
    decreases cuts.len() - j,
{
    if j < cuts.len() - 1 {
        let from = cuts[j];
        let to = cuts[j + 1];
        let alone = spec_statement(toks.subrange(from, to), eof, 0);
        lemma_cut(toks, cuts, j);
        assert(spec_statement(toks, eof, from) == (Statement { next: to, ..alone })) by {
            assert(one_statement(line_at(toks, cuts, j), eof));
            if to < toks.len() {
                assert(!continues_expression(toks[cuts[j + 1]].kind));
            }
            lemma_statement_local(toks, eof, from, to);
        }
        lemma_lines_from(toks, eof, cuts, j + 1);
        assert(program_nodes(toks, eof, from) == seq![alone.node] + program_nodes(toks, eof, to));
        assert(program_errors(toks, eof, from) == alone.errors + program_errors(toks, eof, to));
    } else {
        lemma_cut_order(toks, cuts, j);
    }
}

/// Where every line holds one statement, and no line but the first starts
/// with a token that continues an expression, the statements are read
/// line by line: the tree holds, for each line and in the order of the
/// lines, the node that the line gives when it is parsed alone, and the
/// diagnostics are those of the lines, in that order.  A line that cannot
/// be parsed gives its `Invalid` node and nothing else, and takes nothing
/// from the lines around it.
pub proof fn lemma_line_by_line(toks: Seq<TokenView>, eof: TokenView, cuts: Seq<int>)
    requires
        eof.kind == TokenKind::Eof,
        forall|k: int| 0 <= k < toks.len() ==> (#[trigger] toks[k]).kind != TokenKind::Eof,
        cut_into_lines(toks, cuts),
        forall|j: int|
            0 <= j < cuts.len() - 1 ==> one_statement(#[trigger] line_at(toks, cuts, j), eof),
        forall|j: int|
            0 < j < cuts.len() - 1 ==> !continues_expression(toks[#[trigger] cuts[j]].kind),
    ensures
        program_nodes(toks, eof, 0) == nodes_by_line(toks, eof, cuts, 0),
        program_errors(toks, eof, 0) == errors_by_line(toks, eof, cuts, 0),
        program_nodes(toks, eof, 0).len() == cuts.len() - 1,
{
    reveal(cut_into_lines);
    lemma_lines_from(toks, eof, cuts, 0);
}

/// A number that the scanner yields is read without a diagnostic, unless
/// it is an integer that does not fit in 32 bits or a float with more than
/// one point.
pub proof fn lemma_number_token(token: TokenView)
    requires
        shaped(token),
        token.kind == TokenKind::LiteralInt || token.kind == TokenKind::LiteralFloat,
    ensures
        spec_literal(token).node is Some,
        token.kind == TokenKind::LiteralInt ==> (spec_literal(token).errors.len() == 0
            <==> digits_value(without(token.lexeme, '_')) <= i32::MAX),
        token.kind == TokenKind::LiteralFloat ==> (spec_literal(token).errors.len() == 0
            <==> count_of(token.lexeme, '.') == 1),
{
    let lexeme = token.lexeme;
    let digits = without(lexeme, '_');
    lemma_without_first(lexeme, '_');
    lemma_without_count(lexeme, '_', '.');
    lemma_count_of(lexeme, '.');
    lemma_count_of(digits, '.');
    if token.kind == TokenKind::LiteralInt {
        assert forall|i: int| 0 <= i < lexeme.len() && lexeme[i] != '_' implies is_digit(
            #[trigger] lexeme[i],
        ) by {
            assert(in_run(Run::Number, lexeme[i]));
        }
        lemma_without_chars(lexeme, '_', |c: char| is_digit(c));
    } else {
        assert forall|i: int| 0 <= i < lexeme.len() && lexeme[i] != '_' implies is_digit(
            #[trigger] lexeme[i],
        ) || lexeme[i] == '.' by {
            assert(in_run(Run::Number, lexeme[i]));
        }
        lemma_without_chars(lexeme, '_', |c: char| is_digit(c) || c == '.');
        lemma_plain_float(digits);
    }
}

/// Every diagnostic of a factor is syntactic.
pub proof fn lemma_factor_errors(toks: Seq<TokenView>, eof: TokenView, pos: int)
    ensures
        forall|k: int|
            0 <= k < spec_factor(toks, eof, pos).errors.len() ==> is_syntactic(
                #[trigger] spec_factor(toks, eof, pos).errors[k],
            ),
    decreases toks.len() - pos, 0int,
{
    let first = spec_literal(token_at(toks, eof, pos));
    let op = token_at(toks, eof, pos + 1);
    if first.node is Some && (op.kind == TokenKind::Plus || op.kind == TokenKind::Minus) {
        lemma_factor_errors(toks, eof, advance(toks, pos, 2));
    }
}

/// Every diagnostic of an expression is syntactic.
pub proof fn lemma_expression_errors(toks: Seq<TokenView>, eof: TokenView, pos: int)
    ensures
        forall|k: int|
            0 <= k < spec_factor(toks, eof, pos).errors.len() ==> is_syntactic(
                #[trigger] spec_factor(toks, eof, pos).errors[k],
            ),
        forall|k: int|
            0 <= k < spec_assignment(toks, eof, pos).errors.len() ==> is_syntactic(
                #[trigger] spec_assignment(toks, eof, pos).errors[k],
            ),
    decreases toks.len() - pos, 1int,
{
    lemma_factor_errors(toks, eof, pos);
    lemma_factor(toks, eof, pos);
    let target = spec_factor(toks, eof, pos);
    let op = token_at(toks, eof, target.pos + 1);
    if target.node is Some && op.kind == TokenKind::Arrow {
        lemma_expression_errors(toks, eof, advance(toks, target.pos, 2));
    }
}

/// Every diagnostic of a program is syntactic.
pub proof fn lemma_program_errors(toks: Seq<TokenView>, eof: TokenView, pos: int)
    ensures
        syntactic(program_errors(toks, eof, pos)),
    decreases toks.len() - pos,
{
    if 0 <= pos < toks.len() {
        lemma_statement(toks, eof, pos);
        lemma_expression_errors(toks, eof, pos);
        lemma_expression_errors(toks, eof, advance(toks, pos, 3));
        let first = spec_statement(toks, eof, pos);
        lemma_program_errors(toks, eof, first.next);
    }
}

/// The parser's state: the tokens, the cursor, and what was read so far.
pub struct Parser<'a> {
    /// The statements read, in source order.
    pub tree: Vec<Node<'a>>,
    /// The diagnostics raised, in the order met.
    pub errors: Vec<ChaoError<'a>>,
    /// The tokens, without the one that marks the end.
    pub input: Vec<Token<'a>>,
    /// The cursor: the position of the current token.
    pub pos: usize,
    /// The token that marks the end of the input.
    pub eof: Token<'a>,
}

impl<'a> Parser<'a> {
    /// The tokens as mathematical values.
    pub open spec fn toks(&self) -> Seq<TokenView> {
        self.input.deep_view()
    }

    /// Whether two states differ in nothing but the cursor and the diagnostics.
    pub open spec fn same_input(&self, other: &Self) -> bool {
        &&& self.input == other.input
        &&& self.eof == other.eof
        &&& self.tree == other.tree
    }

    /// A parser over `tokens`, of which the last marks the end of the
    /// input.  Fails exactly if the input is empty: if no token stands
    /// before the one that marks the end.
    pub fn from_tokens(tokens: Vec<Token<'a>>) -> (parser: Result<Parser<'a>, ()>)
        ensures
            parser is Err <==> tokens@.len() <= 1,
            parser matches Ok(p) ==> {
                &&& p.input@ == tokens@.drop_last()
                &&& p.eof == tokens@.last()
                &&& p.pos == 0
                &&& p.tree@.len() == 0
                &&& p.errors@.len() == 0
            },
    {
        let mut input = tokens;
        if input.len() <= 1 {
            return Err(());
        }
        match input.pop() {
            None => Err(()),
            Some(eof) => Ok(Parser { tree: Vec::new(), errors: Vec::new(), input, pos: 0, eof }),
        }
    }

    /// Runs the scanner to the end and sets a parser on its tokens.  The
    /// scanner's diagnostics go before the parser's.  Fails exactly if the
    /// scanner has no token to give but the one that marks the end.
    pub fn new(lexer: Lexer<'a>) -> (parser: Result<Parser<'a>, ()>)
        ensures
            parser is Err <==> lexer.tokens@.len() + tokens_between(
                lexer.lines(),
                lexer.line as int,
                lexer.input.len() as int,
            ).len() == 0,
            parser matches Ok(p) ==> {
                &&& p.toks().push(p.eof@) == (lexer.tokens.deep_view() + tokens_between(
                    lexer.lines(),
                    lexer.line as int,
                    lexer.input.len() as int,
                )).push(
                    eof_view(
                        mark_between(
                            lexer.lines(),
                            lexer.line as int,
                            lexer.input.len() as int,
                            lexer.mark as nat,
                        ),
                        lexer.input.len() as nat,
                    ),
                )
                &&& p.errors.deep_view() == lexer.errors.deep_view() + errors_between(
                    lexer.lines(),
                    lexer.line as int,
                    lexer.input.len() as int,
                )
                &&& p.pos == 0
                &&& p.tree@.len() == 0
            },
    {
        let mut lexer = lexer;
        lexer.scan();
        let ghost scanned = lexer.tokens.deep_view();
        assert(lexer.tokens@.len() == scanned.len());
        let Lexer { tokens, errors, input: _, line: _, mark: _, taken: _ } = lexer;
        match Parser::from_tokens(tokens) {
            Err(e) => Err(e),
            Ok(parser) => {
                let mut parser = parser;
                parser.errors = errors;
                Ok(parser)
            },
        }
    }

    /// The token under the cursor.
    pub fn current(&self) -> (token: Token<'a>)
        ensures
            token@ == token_at(self.toks(), self.eof@, self.pos as int),
            self.pos < self.input.len() ==> token == self.input@[self.pos as int],
            self.pos >= self.input.len() ==> token == self.eof,
    {
        if self.pos < self.input.len() {
            self.input[self.pos]
        } else {
            self.eof
        }
    }

    /// The token behind the one under the cursor.
    pub fn peek(&self) -> (token: Token<'a>)
        ensures
            token@ == token_at(self.toks(), self.eof@, self.pos + 1),
    {
        if self.pos < self.input.len() && self.pos + 1 < self.input.len() {
            self.input[self.pos + 1]
        } else {
            self.eof
        }
    }

    /// Moves the cursor `n` tokens on, never past the end, and hands out the
    /// token it then stands on.
    pub fn next(&mut self, n: usize) -> (token: Token<'a>)
        ensures
            final(self).same_input(old(self)),
            final(self).errors == old(self).errors,
            final(self).pos == advance(old(self).toks(), old(self).pos as int, n as int),
            token@ == token_at(final(self).toks(), final(self).eof@, final(self).pos as int),
    {
        let len = self.input.len();
        if self.pos < len {
            if n >= len - self.pos {
                self.pos = len;
            } else {
                self.pos = self.pos + n;
            }
        }
        self.current()
    }

    /// Raises an error that stops compilation.
    fn report(&mut self, base: ErrorBase<'a>, msg: &'static str)
        ensures
            final(self).same_input(old(self)),
            final(self).pos == old(self).pos,
            final(self).errors.deep_view() == old(self).errors.deep_view().push(fault(base@, msg@)),
    {
        let error = ChaoError::new(base, ErrorSeverity::Error, false, msg);
        self.errors.push(error);
    }

    /// Reads the token under the cursor as a literal, without moving the cursor.
    pub fn parse_literal(&mut self) -> (node: Option<Node<'a>>)
        ensures
            final(self).same_input(old(self)),
            final(self).pos == old(self).pos,
            ({
                let read = spec_literal(
                    token_at(old(self).toks(), old(self).eof@, old(self).pos as int),
                );
                &&& final(self).errors.deep_view() == old(self).errors.deep_view() + read.errors
                &&& match node {
                    Some(n) => read.node == Some(n@),
                    None => read.node is None,
                }
            }),
    {
        let token = self.current();
        let length = byte_length(token.lexeme);
        match token.kind {
            TokenKind::LiteralString => Some(Node::str(&token)),
            TokenKind::Identifier => Some(Node::ident(&token)),
            TokenKind::LiteralFloat => match Node::float(&token) {
                Ok(node) => Some(node),
                Err(_) => {
                    self.report(ErrorBase::ParseError { token }, "could not parse float literal");
                    Some(
                        Node::new(
                            NodeKind::LiteralFloat { text: "0.0".to_owned() },
                            token.line,
                            token.offset,
                            length,
                        ),
                    )
                },
            },
            TokenKind::LiteralInt => match Node::integer(&token) {
                Ok(node) => Some(node),
                Err(_) => {
                    self.report(ErrorBase::ParseError { token }, "could not parse integer literal");
                    Some(Node::new(NodeKind::LiteralInt { val: 0 }, token.line, token.offset, length))
                },
            },
            TokenKind::True => Some(Node::new(NodeKind::LiteralTrue, token.line, token.offset, length)),
            TokenKind::False => Some(Node::new(NodeKind::LiteralFalse, token.line, token.offset, length)),
            TokenKind::Nil => Some(Node::new(NodeKind::LiteralNil, token.line, token.offset, length)),
            _ => {
                self.report(ErrorBase::SyntaxError { token }, "expected an expression here");
                None
            },
        }
    }

    /// Reads a factor.  The cursor is left on its last token, or on the
    /// token that stopped the parser.
    pub fn parse_factor(&mut self) -> (node: Option<Node<'a>>)
        ensures
            final(self).same_input(old(self)),
            ({
                let parsed = spec_factor(old(self).toks(), old(self).eof@, old(self).pos as int);
                &&& final(self).pos == parsed.pos
                &&& final(self).errors.deep_view() == old(self).errors.deep_view() + parsed.errors
                &&& match node {
                    Some(n) => parsed.node == Some(n@),
                    None => parsed.node is None,
                }
            }),
        decreases old(self).input.len() - old(self).pos,
    {
        let ghost toks = self.toks();
        let ghost eof = self.eof@;
        let ghost pos = self.pos as int;
        let lhs = match self.parse_literal() {
            None => {
                return None;
            },
            Some(lhs) => lhs,
        };
        let op = self.peek();
        if op.kind == TokenKind::Plus || op.kind == TokenKind::Minus {
            self.next(2);
            let rhs = self.parse_factor();
            match rhs {
                None => None,
                Some(rhs) => {
                    let kind = NodeKind::ExprBinary {
                        lhs: Box::new(lhs),
                        op: op.kind,
                        rhs: Box::new(rhs),
                    };
                    Some(Node::new(kind, op.line, op.offset, byte_length(op.lexeme)))
                },
            }
        } else {
            Some(lhs)
        }
    }

    /// Reads an assignment.  The cursor is left on its last token, or on
    /// the token that stopped the parser.
    pub fn parse_assignment(&mut self) -> (node: Option<Node<'a>>)
        ensures
            final(self).same_input(old(self)),
            ({
                let parsed = spec_assignment(
                    old(self).toks(),
                    old(self).eof@,
                    old(self).pos as int,
                );
                &&& final(self).pos == parsed.pos
                &&& final(self).errors.deep_view() == old(self).errors.deep_view() + parsed.errors
                &&& match node {
                    Some(n) => parsed.node == Some(n@),
                    None => parsed.node is None,
                }
            }),
        decreases old(self).input.len() - old(self).pos,
    {
        let ghost toks = self.toks();
        let ghost eof = self.eof@;
        let ghost pos = self.pos as int;
        proof {
            lemma_factor(toks, eof, pos);
        }
        let id = match self.parse_factor() {
            None => {
                return None;
            },
            Some(id) => id,
        };
        let op = self.peek();
        if op.kind == TokenKind::Arrow {
            self.next(2);
            let val = self.parse_assignment();
            match val {
                None => None,
                Some(val) => {
                    let kind = NodeKind::ExprAssignment {
                        id: Box::new(id),
                        op: op.kind,
                        val: Box::new(val),
                    };
                    Some(Node::new(kind, op.line, op.offset, byte_length(op.lexeme)))
                },
            }
        } else {
            Some(id)
        }
    }

    /// Moves the cursor behind the current token and behind every token
    /// that follows it on its line.
    fn resynchronize(&mut self)
        ensures
            final(self).same_input(old(self)),
            final(self).errors == old(self).errors,
            final(self).pos == resync(old(self).toks(), old(self).pos as int),
    {
        let len = self.input.len();
        if self.pos < len {
            let line = self.input[self.pos].line;
            let ghost start = self.pos + 1;
            self.pos = self.pos + 1;
            while self.pos < len && self.input[self.pos].line == line
                invariant
                    self.same_input(old(self)),
                    self.errors == old(self).errors,
                    len == self.input.len(),
                    self.pos <= len,
                    skip_line(self.toks(), self.pos as int, line as nat) == skip_line(
                        self.toks(),
                        start,
                        line as nat,
                    ),
                decreases len - self.pos,
            {
                self.pos = self.pos + 1;
            }
        }
    }

    /// Gives up the statement at the current token: the `Invalid` node for
    /// it, with the cursor moved behind the token's line.
    fn reject(&mut self) -> (node: Node<'a>)
        ensures
            final(self).same_input(old(self)),
            final(self).errors == old(self).errors,
            final(self).pos == resync(old(self).toks(), old(self).pos as int),
            ({
                let tk = token_at(old(self).toks(), old(self).eof@, old(self).pos as int);
                node@ == leaf(NodeKindView::Invalid { tk }, tk)
            }),
    {
        let tk = self.current();
        self.resynchronize();
        Node::invalid(tk)
    }

    /// Reads one statement and leaves the cursor where the next one starts.
    pub fn parse_statement(&mut self) -> (node: Node<'a>)
        ensures
            final(self).same_input(old(self)),
            ({
                let read = spec_statement(old(self).toks(), old(self).eof@, old(self).pos as int);
                &&& final(self).pos == read.next
                &&& final(self).errors.deep_view() == old(self).errors.deep_view() + read.errors
                &&& node@ == read.node
            }),
    {
        let ghost toks = self.toks();
        let ghost eof = self.eof@;
        let ghost pos = self.pos as int;
        let first = self.current();
        let constant = str_eq(first.lexeme, "const");
        let variable = str_eq(first.lexeme, "let");
        if first.kind == TokenKind::Identifier && (constant || variable) {
            let name = self.next(1);
            if name.kind != TokenKind::Identifier {
                self.report(
                    ErrorBase::ExpectedToken { line: name.line, offset: name.offset, offender: name },
                    "expected a name after the keyword",
                );
                return self.reject();
            }
            let arrow = self.next(1);
            if arrow.kind != TokenKind::Arrow {
                self.report(
                    ErrorBase::ExpectedToken {
                        line: arrow.line,
                        offset: arrow.offset,
                        offender: arrow,
                    },
                    "expected '->' after the name",
                );
                return self.reject();
            }
            self.next(1);
            match self.parse_assignment() {
                None => self.reject(),
                Some(val) => {
                    self.next(1);
                    let id = name.lexeme.to_owned();
                    let kind = if constant {
                        NodeKind::StmtConstant { id, val: Box::new(val) }
                    } else {
                        NodeKind::StmtVariable { id, val: Box::new(val) }
                    };
                    Node::new(kind, first.line, first.offset, byte_length(first.lexeme))
                },
            }
        } else {
            match self.parse_assignment() {
                None => self.reject(),
                Some(expr) => {
                    self.next(1);
                    let line = expr.line;
                    let offset = expr.offset;
                    let length = expr.length;
                    Node::new(NodeKind::StmtExpression { expr: Box::new(expr) }, line, offset, length)
                },
            }
        }
    }

    /// Reads every statement from the cursor to the end of the input.
    pub fn parse(&mut self)
        ensures
            final(self).input == old(self).input,
            final(self).eof == old(self).eof,
            final(self).tree.deep_view() == old(self).tree.deep_view() + program_nodes(
                old(self).toks(),
                old(self).eof@,
                old(self).pos as int,
            ),
            final(self).errors.deep_view() == old(self).errors.deep_view() + program_errors(
                old(self).toks(),
                old(self).eof@,
                old(self).pos as int,
            ),
            final(self).pos >= final(self).input.len(),
    {
        let ghost tree0 = self.tree.deep_view();
        let ghost errors0 = self.errors.deep_view();
        let ghost toks = self.toks();
        let ghost eof = self.eof@;
        let ghost pos0 = self.pos as int;
        while self.pos < self.input.len()
            invariant
                self.input == old(self).input,
                self.eof == old(self).eof,
                toks == self.toks(),
                eof == self.eof@,
                self.tree.deep_view() + program_nodes(toks, eof, self.pos as int) == tree0
                    + program_nodes(toks, eof, pos0),
                self.errors.deep_view() + program_errors(toks, eof, self.pos as int) == errors0
                    + program_errors(toks, eof, pos0),
            decreases self.input.len() - self.pos,
        {
            let ghost pos1 = self.pos as int;
            proof {
                lemma_statement(toks, eof, pos1);
            }
            let node = self.parse_statement();
            self.tree.push(node);
        }
    }
}

/// Parses a token sequence whose last token marks its end: the statements
/// and the syntactic diagnostics.  Fails exactly if the input is empty: if
/// no token stands before the one that marks the end.
pub fn parse<'a>(tokens: Vec<Token<'a>>) -> (out: Result<(Vec<Node<'a>>, Vec<ChaoError<'a>>), ()>)
    ensures
        out is Err <==> tokens@.len() <= 1,
        out matches Ok(read) ==> {
            &&& read.0.deep_view() == parse_nodes(tokens.deep_view())
            &&& read.1.deep_view() == parse_errors(tokens.deep_view())
            &&& syntactic(read.1.deep_view())
        },
{
    let ghost all = tokens.deep_view();
    match Parser::from_tokens(tokens) {
        Err(e) => Err(e),
        Ok(parser) => {
            let mut parser = parser;
            proof {
                assert(parser.toks() =~= all.drop_last());
            }
            parser.parse();
            proof {
                lemma_program_errors(all.drop_last(), all.last(), 0);
            }
            Ok((parser.tree, parser.errors))
        },
    }
}

} // verus!
