//! The lexical alphabet and the token record.

use vstd::prelude::*;
use vstd::string::*;
use crate::common::text::decimal;
use crate::common::text::push_decimal;
use crate::common::text::str_eq;

verus! {

/// The kinds of token the scanner can hand to the parser.
#[derive(Debug, Clone, Copy, PartialEq, Eq, Hash, Structural)]
pub enum TokenKind {
    Eof,
    LParen,
    RParen,
    Plus,
    PlusEqual,
    PlusPlus,
    Minus,
    MinusEqual,
    MinusMinus,
    Equal,
    Arrow,
    Semicolon,
    LiteralString,
    LiteralInt,
    LiteralFloat,
    LiteralChar,
    Identifier,
    True,
    False,
    Nil,
}

/// A token: its kind, where its lexeme starts, and the lexeme itself.
///
/// `line` counts from one, `offset` is a byte offset into that line, and
/// `lexeme` borrows from the source text.
#[derive(Debug, Clone, Copy, PartialEq, Eq)]
pub struct Token<'a> {
    pub kind: TokenKind,
    pub offset: usize,
    pub line: usize,
    pub lexeme: &'a str,
}

/// A token as a mathematical value.
pub struct TokenView {
    pub kind: TokenKind,
    pub offset: nat,
    pub line: nat,
    pub lexeme: Seq<char>,
}

impl<'a> View for Token<'a> {
    type V = TokenView;

    open spec fn view(&self) -> TokenView {
        TokenView {
            kind: self.kind,
            offset: self.offset as nat,
            line: self.line as nat,
            lexeme: self.lexeme@,
        }
    }
}

impl<'a> DeepView for Token<'a> {
    type V = TokenView;

    open spec fn deep_view(&self) -> TokenView {
        self@
    }
}

/// The end-of-input token placed at `offset` of `line`.
pub open spec fn eof_view(offset: nat, line: nat) -> TokenView {
    TokenView { kind: TokenKind::Eof, offset, line, lexeme: "<EOF>"@ }
}

/// The kind of a word: one of the three keyword literals, or an identifier.
pub open spec fn keyword_kind(lexeme: Seq<char>) -> TokenKind {
    if lexeme == "true"@ {
        TokenKind::True
    } else if lexeme == "false"@ {
        TokenKind::False
    } else if lexeme == "nil"@ {
        TokenKind::Nil
    } else {
        TokenKind::Identifier
    }
}

/// The printed name of a token kind.
pub open spec fn kind_name(kind: TokenKind) -> Seq<char> {
    match kind {
        TokenKind::Eof => "EOF"@,
        TokenKind::LParen => "LParen"@,
        TokenKind::RParen => "RParen"@,
        TokenKind::Plus => "Plus"@,
        TokenKind::PlusEqual => "PlusEqual"@,
        TokenKind::PlusPlus => "PlusPlus"@,
        TokenKind::Minus => "Minus"@,
        TokenKind::MinusEqual => "MinusEqual"@,
        TokenKind::MinusMinus => "MinusMinus"@,
        TokenKind::Equal => "Equal"@,
        TokenKind::Arrow => "Arrow"@,
        TokenKind::Semicolon => "Semicolin"@,
        TokenKind::LiteralString => "String"@,
        TokenKind::LiteralInt => "Integer"@,
        TokenKind::LiteralFloat => "Float"@,
        TokenKind::LiteralChar => "Char"@,
        TokenKind::Identifier => "Ident"@,
        TokenKind::True => "True"@,
        TokenKind::False => "False"@,
        TokenKind::Nil => "Nil"@,
    }
}

impl TokenKind {
    /// Classifies a word by exact, case-sensitive match against the keyword literals.
    pub fn as_keyword(lexeme: &str) -> (kind: TokenKind)
        ensures
            kind == keyword_kind(lexeme@),
    {
        if str_eq(lexeme, "true") {
            TokenKind::True
        } else if str_eq(lexeme, "false") {
            TokenKind::False
        } else if str_eq(lexeme, "nil") {
            TokenKind::Nil
        } else {
            TokenKind::Identifier
        }
    }

    /// The name under which the kind is printed.
    pub fn name(&self) -> (text: &'static str)
        ensures
            text@ == kind_name(*self),
    {
        match self {
            TokenKind::Eof => "EOF",
            TokenKind::LParen => "LParen",
            TokenKind::RParen => "RParen",
            TokenKind::Plus => "Plus",
            TokenKind::PlusEqual => "PlusEqual",
            TokenKind::PlusPlus => "PlusPlus",
            TokenKind::Minus => "Minus",
            TokenKind::MinusEqual => "MinusEqual",
            TokenKind::MinusMinus => "MinusMinus",
            TokenKind::Equal => "Equal",
            TokenKind::Arrow => "Arrow",
            TokenKind::Semicolon => "Semicolin",
            TokenKind::LiteralString => "String",
            TokenKind::LiteralInt => "Integer",
            TokenKind::LiteralFloat => "Float",
            TokenKind::LiteralChar => "Char",
            TokenKind::Identifier => "Ident",
            TokenKind::True => "True",
            TokenKind::False => "False",
            TokenKind::Nil => "Nil",
        }
    }
}

/// A token as one line of text: line, offset, kind and lexeme.
pub open spec fn token_text(token: TokenView) -> Seq<char> {
    decimal(token.line) + ":"@ + decimal(token.offset) + " "@ + kind_name(token.kind) + " '"@
        + token.lexeme + "'"@
}

impl<'a> Token<'a> {
    /// The token as one line of text: line, offset, kind and lexeme.
    pub fn text(&self) -> (text: String)
        ensures
            text@ == token_text(self@),
    {
        let mut text = String::new();
        push_decimal(&mut text, self.line);
        text.append(":");
        push_decimal(&mut text, self.offset);
        text.append(" ");
        text.append(self.kind.name());
        text.append(" '");
        text.append(self.lexeme);
        text.append("'");
        text
    }

    /// A token of the given kind at `offset` of `line`.
    pub fn new(kind: TokenKind, offset: usize, line: usize, lexeme: &'a str) -> (token: Token<'a>)
        ensures
            token@ == (TokenView {
                kind,
                offset: offset as nat,
                line: line as nat,
                lexeme: lexeme@,
            }),
    {
        Token { kind, offset, line, lexeme }
    }

    /// The end-of-input token at `offset` of `line`.
    pub fn eof(offset: usize, line: usize) -> (token: Token<'a>)
        ensures
            token@ == eof_view(offset as nat, line as nat),
    {
        Token { kind: TokenKind::Eof, offset, line, lexeme: "<EOF>" }
    }
}

} // verus!
