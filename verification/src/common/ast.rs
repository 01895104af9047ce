//! The syntax tree.
//!
//! A [`Node`] is a kind together with the span of source it was read from.
//! Compound nodes own their children.  Numeric literals are converted when
//! the node is built.  An integer literal holds its value.  A float literal
//! holds its numeral, checked and with the separators taken out: no
//! floating-point arithmetic is done here, and the value is for the caller
//! to compute.

use vstd::prelude::*;
use crate::common::text::all_digits;
use crate::common::text::byte_len;
use crate::common::text::byte_length;
use crate::common::text::chars_of;
use crate::common::text::count_of;
use crate::common::text::digits_value;
use crate::common::text::is_digit;
use crate::common::text::lemma_digits_prefix;
use crate::common::text::strip_separators;
use crate::common::text::without;
use crate::common::token::Token;
use crate::common::token::TokenKind;
use crate::common::token::TokenView;

verus! {

/// What a node is, with its children.
#[allow(inconsistent_fields)]
#[derive(Debug, PartialEq, Eq)]
pub enum NodeKind<'a> {
    /// An integer literal and its value.
    LiteralInt { val: i32 },
    /// A float literal as it is written, without separators.
    LiteralFloat { text: String },
    /// A string literal and its raw text.
    LiteralStr { val: String },
    /// A name.
    LiteralIdent { id: String },
    LiteralFalse,
    LiteralTrue,
    LiteralNil,
    /// `id -> val`.
    ExprAssignment { id: Box<Node<'a>>, op: TokenKind, val: Box<Node<'a>> },
    /// `lhs op rhs`.
    ExprBinary { lhs: Box<Node<'a>>, op: TokenKind, rhs: Box<Node<'a>> },
    /// `op operand`.
    ExprUnary { op: TokenKind, operand: Box<Node<'a>> },
    /// `let id -> val`.
    StmtVariable { id: String, val: Box<Node<'a>> },
    /// `const id -> val`.
    StmtConstant { id: String, val: Box<Node<'a>> },
    /// An expression that stands as a statement.
    StmtExpression { expr: Box<Node<'a>> },
    /// What is left of a statement that could not be parsed: the token that stopped it.
    Invalid { tk: Token<'a> },
}

/// A node of the syntax tree: its kind and its span, which is a line counted
/// from one, a byte offset into that line and a length in bytes.
#[derive(Debug, PartialEq, Eq)]
pub struct Node<'a> {
    pub kind: NodeKind<'a>,
    pub line: usize,
    pub offset: usize,
    pub length: usize,
}

/// A [`NodeKind`] as a mathematical value.
#[allow(inconsistent_fields)]
pub enum NodeKindView {
    LiteralInt { val: int },
    LiteralFloat { text: Seq<char> },
    LiteralStr { val: Seq<char> },
    LiteralIdent { id: Seq<char> },
    LiteralFalse,
    LiteralTrue,
    LiteralNil,
    ExprAssignment { id: Box<NodeView>, op: TokenKind, val: Box<NodeView> },
    ExprBinary { lhs: Box<NodeView>, op: TokenKind, rhs: Box<NodeView> },
    ExprUnary { op: TokenKind, operand: Box<NodeView> },
    StmtVariable { id: Seq<char>, val: Box<NodeView> },
    StmtConstant { id: Seq<char>, val: Box<NodeView> },
    StmtExpression { expr: Box<NodeView> },
    Invalid { tk: TokenView },
}

/// A [`Node`] as a mathematical value.
pub struct NodeView {
    pub kind: NodeKindView,
    pub line: nat,
    pub offset: nat,
    pub length: nat,
}

/// The mathematical value of a node: the same tree over sequences and
/// unbounded integers.
pub open spec fn node_view<'a>(node: Node<'a>) -> NodeView
    decreases node,
{
    NodeView {
        kind: match node.kind {
            NodeKind::LiteralInt { val } => NodeKindView::LiteralInt { val: val as int },
            NodeKind::LiteralFloat { text } => NodeKindView::LiteralFloat { text: text@ },
            NodeKind::LiteralStr { val } => NodeKindView::LiteralStr { val: val@ },
            NodeKind::LiteralIdent { id } => NodeKindView::LiteralIdent { id: id@ },
            NodeKind::LiteralFalse => NodeKindView::LiteralFalse,
            NodeKind::LiteralTrue => NodeKindView::LiteralTrue,
            NodeKind::LiteralNil => NodeKindView::LiteralNil,
            NodeKind::ExprAssignment { id, op, val } => NodeKindView::ExprAssignment {
                id: Box::new(node_view(*id)),
                op,
                val: Box::new(node_view(*val)),
            },
            NodeKind::ExprBinary { lhs, op, rhs } => NodeKindView::ExprBinary {
                lhs: Box::new(node_view(*lhs)),
                op,
                rhs: Box::new(node_view(*rhs)),
            },
            NodeKind::ExprUnary { op, operand } => NodeKindView::ExprUnary {
                op,
                operand: Box::new(node_view(*operand)),
            },
            NodeKind::StmtVariable { id, val } => NodeKindView::StmtVariable {
                id: id@,
                val: Box::new(node_view(*val)),
            },
            NodeKind::StmtConstant { id, val } => NodeKindView::StmtConstant {
                id: id@,
                val: Box::new(node_view(*val)),
            },
            NodeKind::StmtExpression { expr } => NodeKindView::StmtExpression {
                expr: Box::new(node_view(*expr)),
            },
            NodeKind::Invalid { tk } => NodeKindView::Invalid { tk: tk@ },
        },
        line: node.line as nat,
        offset: node.offset as nat,
        length: node.length as nat,
    }
}

impl<'a> View for Node<'a> {
    type V = NodeView;

    open spec fn view(&self) -> NodeView {
        node_view(*self)
    }
}

impl<'a> DeepView for Node<'a> {
    type V = NodeView;

    open spec fn deep_view(&self) -> NodeView {
        node_view(*self)
    }
}

/// The integer a numeral denotes: an optional sign, then one digit or more,
/// read in base ten.  `None` where `s` is no such numeral or its value does
/// not fit in 32 bits.
pub open spec fn int_value(s: Seq<char>) -> Option<int> {
    let signed = s.len() > 0 && (s[0] == '+' || s[0] == '-');
    let digits = if signed {
        s.drop_first()
    } else {
        s
    };
    let value = if signed && s[0] == '-' {
        -(digits_value(digits) as int)
    } else {
        digits_value(digits) as int
    };
    if digits.len() > 0 && all_digits(digits) && i32::MIN <= value <= i32::MAX {
        Some(value)
    } else {
        None
    }
}

/// Whether `s` is a decimal numeral: digits around at most one point, with
/// at least one digit.
pub open spec fn is_decimal(s: Seq<char>) -> bool {
    &&& forall|i: int| 0 <= i < s.len() ==> is_digit(#[trigger] s[i]) || s[i] == '.'
    &&& count_of(s, '.') <= 1
    &&& count_of(s, '.') < s.len()
}

/// `s` without its sign, if it starts with one.
pub open spec fn unsigned(s: Seq<char>) -> Seq<char> {
    if s.len() > 0 && (s[0] == '+' || s[0] == '-') {
        s.drop_first()
    } else {
        s
    }
}

/// Whether `c` is the small letter `letter`, or the capital that belongs to it.
pub open spec fn same_letter(c: char, letter: char) -> bool {
    c == letter || c as u32 + 32 == letter as u32
}

/// Whether `s` spells `word`, which is written in small letters, in
/// letters small or capital.
pub open spec fn spells(s: Seq<char>, word: Seq<char>) -> bool {
    &&& s.len() == word.len()
    &&& forall|i: int| 0 <= i < s.len() ==> same_letter(#[trigger] s[i], word[i])
}

/// The first position from `i` on that holds an `e` or an `E`, or the end of `s`.
pub open spec fn exponent_at(s: Seq<char>, i: int) -> int
    decreases s.len() - i,
{
    if 0 <= i < s.len() && s[i] != 'e' && s[i] != 'E' {
        exponent_at(s, i + 1)
    } else {
        i
    }
}

/// Whether `s` is a floating-point numeral: an optional sign, then `inf`,
/// `infinity` or `nan` in letters small or capital, or a decimal numeral
/// that an `e` or `E`, an optional sign and one digit or more may follow.
pub open spec fn is_float(s: Seq<char>) -> bool {
    let body = unsigned(s);
    let mark = exponent_at(body, 0);
    let power = unsigned(body.skip(mark + 1));
    ||| spells(body, seq!['i', 'n', 'f'])
    ||| spells(body, seq!['i', 'n', 'f', 'i', 'n', 'i', 't', 'y'])
    ||| spells(body, seq!['n', 'a', 'n'])
    ||| is_decimal(body.take(mark)) && (mark == body.len() || (power.len() > 0 && all_digits(
        power,
    )))
}

/// Digits and points that start with a digit are a floating-point numeral
/// exactly if they are a decimal numeral.
pub proof fn lemma_plain_float(s: Seq<char>)
    requires
        s.len() > 0,
        is_digit(s[0]),
        forall|i: int| 0 <= i < s.len() ==> is_digit(#[trigger] s[i]) || s[i] == '.',
    ensures
        is_float(s) == is_decimal(s),
{
    lemma_no_exponent(s, 0);
    assert(s.take(s.len() as int) =~= s);
}

/// Where neither `e` nor `E` stands from `i` on, there is no exponent.
proof fn lemma_no_exponent(s: Seq<char>, i: int)
    requires
        0 <= i <= s.len(),
        forall|k: int| i <= k < s.len() ==> #[trigger] s[k] != 'e' && s[k] != 'E',
    ensures
        exponent_at(s, i) == s.len(),
    decreases s.len() - i,
{
    if i < s.len() {
        lemma_no_exponent(s, i + 1);
    }
}

/// The node that stands for a token of a literal kind.
pub open spec fn leaf(kind: NodeKindView, token: TokenView) -> NodeView {
    NodeView { kind, line: token.line, offset: token.offset, length: byte_len(token.lexeme) }
}

/// The integer that the characters denote, if they denote one that fits.
pub fn parse_i32(chars: &Vec<char>) -> (value: Option<i32>)
    ensures
        match int_value(chars@) {
            Some(v) => value == Some(v as i32),
            None => value is None,
        },
{
    let n = chars.len();
    if n == 0 {
        return None;
    }
    let negative = chars[0] == '-';
    let start: usize = if chars[0] == '+' || chars[0] == '-' {
        1
    } else {
        0
    };
    if start == n {
        return None;
    }
    let ghost digits = chars@.subrange(start as int, n as int);
    assert(digits == if start == 1 {
        chars@.drop_first()
    } else {
        chars@
    }) by {
        assert(chars@.subrange(0, n as int) =~= chars@);
    }
    let mut acc: i64 = 0;
    let mut i: usize = start;
    while i < n
        invariant
            n == chars.len(),
            n > 0,
            start == if chars@[0] == '+' || chars@[0] == '-' {
                1int
            } else {
                0int
            },
            start <= i <= n,
            digits == chars@.subrange(start as int, n as int),
            digits == if start == 1 {
                chars@.drop_first()
            } else {
                chars@
            },
            all_digits(digits.take(i - start)),
            acc == digits_value(digits.take(i - start)),
            acc <= 2147483648,
        decreases n - i,
    {
        let c = chars[i];
        if !(c >= '0' && c <= '9') {
            assert(!is_digit(digits[i - start]));
            return None;
        }
        let digit: i64 = (c as u32 - '0' as u32) as i64;
        proof {
            assert(digits.take(i + 1 - start).drop_last() =~= digits.take(i - start));
        }
        acc = acc * 10 + digit;
        if acc > 2147483648 {
            proof {
                if all_digits(digits) {
                    lemma_digits_prefix(digits, i + 1 - start);
                }
            }
            return None;
        }
        i += 1;
    }
    assert(digits.take(n - start) =~= digits);
    if negative {
        Some((-acc) as i32)
    } else if acc <= 2147483647 {
        Some(acc as i32)
    } else {
        None
    }
}

/// Characters `from` to `to` of `chars`.
fn part(chars: &Vec<char>, from: usize, to: usize) -> (out: Vec<char>)
    requires
        from <= to <= chars.len(),
    ensures
        out@ == chars@.subrange(from as int, to as int),
{
    let mut out: Vec<char> = Vec::new();
    let mut i = from;
    while i < to
        invariant
            from <= i <= to <= chars.len(),
            out@ == chars@.subrange(from as int, i as int),
        decreases to - i,
    {
        out.push(chars[i]);
        i += 1;
    }
    out
}

/// Whether the characters spell `word`, in letters small or capital.
fn spells_word(chars: &Vec<char>, word: &Vec<char>) -> (yes: bool)
    ensures
        yes == spells(chars@, word@),
{
    if chars.len() != word.len() {
        return false;
    }
    let mut i: usize = 0;
    while i < chars.len()
        invariant
            chars.len() == word.len(),
            i <= chars.len(),
            forall|k: int| 0 <= k < i ==> same_letter(#[trigger] chars@[k], word@[k]),
        decreases chars.len() - i,
    {
        let c = chars[i];
        let letter = word[i];
        let code: u32 = c as u32;
        let wanted: u32 = letter as u32;
        if !(c == letter || (code < wanted && wanted - code == 32)) {
            return false;
        }
        i += 1;
    }
    true
}

/// Whether the characters are digits only.
fn digits_only(chars: &Vec<char>) -> (yes: bool)
    ensures
        yes == all_digits(chars@),
{
    let mut i: usize = 0;
    while i < chars.len()
        invariant
            i <= chars.len(),
            forall|k: int| 0 <= k < i ==> is_digit(#[trigger] chars@[k]),
        decreases chars.len() - i,
    {
        if !(chars[i] >= '0' && chars[i] <= '9') {
            return false;
        }
        i += 1;
    }
    true
}

/// Whether the characters are a decimal numeral.
fn decimal_numeral(chars: &Vec<char>) -> (yes: bool)
    ensures
        yes == is_decimal(chars@),
{
    let mut points: usize = 0;
    let mut i: usize = 0;
    while i < chars.len()
        invariant
            i <= chars.len(),
            points == count_of(chars@.take(i as int), '.'),
            points <= i,
            forall|k: int| 0 <= k < i ==> is_digit(#[trigger] chars@[k]) || chars@[k] == '.',
        decreases chars.len() - i,
    {
        let c = chars[i];
        assert(chars@.take(i + 1).drop_last() =~= chars@.take(i as int));
        if c == '.' {
            points += 1;
        } else if !(c >= '0' && c <= '9') {
            return false;
        }
        i += 1;
    }
    assert(chars@.take(i as int) =~= chars@);
    points <= 1 && points < chars.len()
}

/// Whether the text is a floating-point numeral.
pub fn check_float(text: &str) -> (yes: bool)
    ensures
        yes == is_float(text@),
{
    let chars = chars_of(text);
    let n = chars.len();
    let start: usize = if n > 0 && (chars[0] == '+' || chars[0] == '-') {
        1
    } else {
        0
    };
    let body = part(&chars, start, n);
    assert(body@ =~= unsigned(chars@));
    if spells_word(&body, &vec!['i', 'n', 'f']) || spells_word(
        &body,
        &vec!['i', 'n', 'f', 'i', 'n', 'i', 't', 'y'],
    ) || spells_word(&body, &vec!['n', 'a', 'n']) {
        return true;
    }
    let m = body.len();
    let mut mark: usize = 0;
    while mark < m && body[mark] != 'e' && body[mark] != 'E'
        invariant
            m == body.len(),
            mark <= m,
            exponent_at(body@, mark as int) == exponent_at(body@, 0),
        decreases m - mark,
    {
        mark += 1;
    }
    let mantissa = part(&body, 0, mark);
    if !decimal_numeral(&mantissa) {
        return false;
    }
    if mark == m {
        return true;
    }
    let signed = mark + 1 < m && (body[mark + 1] == '+' || body[mark + 1] == '-');
    let from: usize = if signed {
        mark + 2
    } else {
        mark + 1
    };
    let power = part(&body, from, m);
    assert(power@ =~= unsigned(body@.skip(mark + 1)));
    power.len() > 0 && digits_only(&power)
}

impl<'a> Node<'a> {
    /// A node of the given kind and span.
    pub fn new(kind: NodeKind<'a>, line: usize, offset: usize, length: usize) -> (node: Node<'a>)
        ensures
            node == (Node { kind, line, offset, length }),
    {
        Node { kind, line, offset, length }
    }

    /// The placeholder for a statement that `tk` stopped.
    pub fn invalid(tk: Token<'a>) -> (node: Node<'a>)
        ensures
            node@ == leaf(NodeKindView::Invalid { tk: tk@ }, tk@),
    {
        let length = byte_length(tk.lexeme);
        Node { kind: NodeKind::Invalid { tk }, line: tk.line, offset: tk.offset, length }
    }

    /// The integer literal a token denotes once its separators are taken
    /// out, or `Err` where what is left is no numeral that fits in 32 bits.
    pub fn integer(token: &Token) -> (node: Result<Node<'a>, ()>)
        ensures
            match int_value(without(token.lexeme@, '_')) {
                Some(value) => node is Ok && node->Ok_0@ == leaf(
                    NodeKindView::LiteralInt { val: value },
                    token@,
                ),
                None => node is Err,
            },
    {
        let raw = strip_separators(token.lexeme);
        let chars = chars_of(raw.as_str());
        match parse_i32(&chars) {
            Some(val) => Ok(
                Node {
                    kind: NodeKind::LiteralInt { val },
                    line: token.line,
                    offset: token.offset,
                    length: byte_length(token.lexeme),
                },
            ),
            None => Err(()),
        }
    }

    /// The float literal a token denotes once its separators are taken out,
    /// or `Err` where what is left is no floating-point numeral.
    pub fn float(token: &Token) -> (node: Result<Node<'a>, ()>)
        ensures
            if is_float(without(token.lexeme@, '_')) {
                node is Ok && node->Ok_0@ == leaf(
                    NodeKindView::LiteralFloat { text: without(token.lexeme@, '_') },
                    token@,
                )
            } else {
                node is Err
            },
    {
        let text = strip_separators(token.lexeme);
        if check_float(text.as_str()) {
            Ok(
                Node {
                    kind: NodeKind::LiteralFloat { text },
                    line: token.line,
                    offset: token.offset,
                    length: byte_length(token.lexeme),
                },
            )
        } else {
            Err(())
        }
    }

    /// The name a token spells.
    pub fn ident(token: &Token) -> (node: Node<'a>)
        ensures
            node@ == leaf(NodeKindView::LiteralIdent { id: token.lexeme@ }, token@),
    {
        Node {
            kind: NodeKind::LiteralIdent { id: token.lexeme.to_owned() },
            line: token.line,
            offset: token.offset,
            length: byte_length(token.lexeme),
        }
    }

    /// The string literal a token holds, copied.
    pub fn str(token: &Token) -> (node: Node<'a>)
        ensures
            node@ == leaf(NodeKindView::LiteralStr { val: token.lexeme@ }, token@),
    {
        Node {
            kind: NodeKind::LiteralStr { val: token.lexeme.to_owned() },
            line: token.line,
            offset: token.offset,
            length: byte_length(token.lexeme),
        }
    }
}

} // verus!
