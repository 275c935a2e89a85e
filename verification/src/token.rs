//! Tokens. Mundane keywords are plain (`define let var while if else return`);
//! evocative vocabulary names the intelligence/human boundary (`oracle summon
//! divine enact fallback speak listen`). `fn` and `print` are accepted as
//! spellings of `define` and `speak`. Type names `spark`/`glyph` arrive as
//! identifiers and are resolved in type position.

use vstd::prelude::*;
use crate::num::Num;
use crate::span::Span;
use crate::text::str_eq;

verus! {

/// A segment of a `glyph` literal: literal text, or an interpolated expression
/// captured as raw source to be parsed later (`${ ... }`).
#[derive(Clone, Debug)]
pub enum StrPart {
    Lit(String),
    Expr(String),
}

#[derive(Clone, Copy, Debug, PartialEq, Eq, Structural)]
pub enum TokenKind {
    Number,
    Str,
    True,
    False,
    Ident,
    Define,
    Let,
    Var,
    While,
    If,
    Else,
    Return,
    Oracle,
    Summon,
    Divine,
    Enact,
    Fallback,
    Speak,
    Listen,
    Type,
    OneOf,
    In,
    From,
    Using,
    With,
    Confidence,
    Requires,
    Grant,
    Memory,
    Within,
    Familiar,
    Permits,
    And,
    Or,
    Not,
    LParen,
    RParen,
    LBrace,
    RBrace,
    LBracket,
    RBracket,
    Comma,
    Colon,
    Dot,
    DotDot,
    FatArrow,
    Plus,
    Minus,
    Star,
    Slash,
    Lt,
    Le,
    Gt,
    Ge,
    EqEq,
    Ne,
    Eq,
    Eof,
}

/// A token: its kind, its payload (the identifier text, the number, or the
/// parts of a glyph literal; empty otherwise) and its source position.
#[derive(Clone, Debug)]
pub struct Token {
    pub kind: TokenKind,
    pub text: String,
    pub number: Num,
    pub parts: Vec<StrPart>,
    pub span: Span,
}

impl Token {
    /// A token without payload.
    pub fn new(kind: TokenKind, span: Span) -> (t: Token)
        ensures
            t.kind == kind,
            t.span == span,
            t.text@ == Seq::<char>::empty(),
            t.parts@.len() == 0,
            t.number.spec_mantissa() == 0,
            t.number.spec_scale() == 0,
    {
        Token { kind, text: String::new(), number: Num::zero(), parts: Vec::new(), span }
    }
}

/// The keyword an identifier spells, if any.
pub open spec fn spec_keyword(s: Seq<char>) -> Option<TokenKind> {
    if s == "define"@ || s == "fn"@ {
        Some(TokenKind::Define)
    } else if s == "let"@ {
        Some(TokenKind::Let)
    } else if s == "var"@ {
        Some(TokenKind::Var)
    } else if s == "while"@ {
        Some(TokenKind::While)
    } else if s == "if"@ {
        Some(TokenKind::If)
    } else if s == "else"@ {
        Some(TokenKind::Else)
    } else if s == "return"@ {
        Some(TokenKind::Return)
    } else if s == "speak"@ || s == "print"@ {
        Some(TokenKind::Speak)
    } else if s == "listen"@ {
        Some(TokenKind::Listen)
    } else if s == "oracle"@ {
        Some(TokenKind::Oracle)
    } else if s == "summon"@ {
        Some(TokenKind::Summon)
    } else if s == "divine"@ {
        Some(TokenKind::Divine)
    } else if s == "enact"@ {
        Some(TokenKind::Enact)
    } else if s == "fallback"@ {
        Some(TokenKind::Fallback)
    } else if s == "type"@ {
        Some(TokenKind::Type)
    } else if s == "one_of"@ {
        Some(TokenKind::OneOf)
    } else if s == "in"@ {
        Some(TokenKind::In)
    } else if s == "from"@ {
        Some(TokenKind::From)
    } else if s == "using"@ {
        Some(TokenKind::Using)
    } else if s == "with"@ {
        Some(TokenKind::With)
    } else if s == "confidence"@ {
        Some(TokenKind::Confidence)
    } else if s == "requires"@ {
        Some(TokenKind::Requires)
    } else if s == "grant"@ {
        Some(TokenKind::Grant)
    } else if s == "memory"@ {
        Some(TokenKind::Memory)
    } else if s == "within"@ {
        Some(TokenKind::Within)
    } else if s == "familiar"@ {
        Some(TokenKind::Familiar)
    } else if s == "permits"@ {
        Some(TokenKind::Permits)
    } else if s == "and"@ {
        Some(TokenKind::And)
    } else if s == "or"@ {
        Some(TokenKind::Or)
    } else if s == "not"@ {
        Some(TokenKind::Not)
    } else if s == "true"@ {
        Some(TokenKind::True)
    } else if s == "false"@ {
        Some(TokenKind::False)
    } else {
        None
    }
}

/// Maps an identifier to its keyword token, if it is one.
pub fn keyword(ident: &str) -> (r: Option<TokenKind>)
    ensures
        r == spec_keyword(ident@),
{
    if str_eq(ident, "define") || str_eq(ident, "fn") {
        Some(TokenKind::Define)
    } else if str_eq(ident, "let") {
        Some(TokenKind::Let)
    } else if str_eq(ident, "var") {
        Some(TokenKind::Var)
    } else if str_eq(ident, "while") {
        Some(TokenKind::While)
    } else if str_eq(ident, "if") {
        Some(TokenKind::If)
    } else if str_eq(ident, "else") {
        Some(TokenKind::Else)
    } else if str_eq(ident, "return") {
        Some(TokenKind::Return)
    } else if str_eq(ident, "speak") || str_eq(ident, "print") {
        Some(TokenKind::Speak)
    } else if str_eq(ident, "listen") {
        Some(TokenKind::Listen)
    } else if str_eq(ident, "oracle") {
        Some(TokenKind::Oracle)
    } else if str_eq(ident, "summon") {
        Some(TokenKind::Summon)
    } else if str_eq(ident, "divine") {
        Some(TokenKind::Divine)
    } else if str_eq(ident, "enact") {
        Some(TokenKind::Enact)
    } else if str_eq(ident, "fallback") {
        Some(TokenKind::Fallback)
    } else if str_eq(ident, "type") {
        Some(TokenKind::Type)
    } else if str_eq(ident, "one_of") {
        Some(TokenKind::OneOf)
    } else if str_eq(ident, "in") {
        Some(TokenKind::In)
    } else if str_eq(ident, "from") {
        Some(TokenKind::From)
    } else if str_eq(ident, "using") {
        Some(TokenKind::Using)
    } else if str_eq(ident, "with") {
        Some(TokenKind::With)
    } else if str_eq(ident, "confidence") {
        Some(TokenKind::Confidence)
    } else if str_eq(ident, "requires") {
        Some(TokenKind::Requires)
    } else if str_eq(ident, "grant") {
        Some(TokenKind::Grant)
    } else if str_eq(ident, "memory") {
        Some(TokenKind::Memory)
    } else if str_eq(ident, "within") {
        Some(TokenKind::Within)
    } else if str_eq(ident, "familiar") {
        Some(TokenKind::Familiar)
    } else if str_eq(ident, "permits") {
        Some(TokenKind::Permits)
    } else if str_eq(ident, "and") {
        Some(TokenKind::And)
    } else if str_eq(ident, "or") {
        Some(TokenKind::Or)
    } else if str_eq(ident, "not") {
        Some(TokenKind::Not)
    } else if str_eq(ident, "true") {
        Some(TokenKind::True)
    } else if str_eq(ident, "false") {
        Some(TokenKind::False)
    } else {
        None
    }
}

/// The name a token kind is shown by in syntax errors.
pub open spec fn spec_kind_name(k: TokenKind) -> Seq<char> {
    match k {
        TokenKind::Number => "Number"@,
        TokenKind::Str => "Str"@,
        TokenKind::True => "True"@,
        TokenKind::False => "False"@,
        TokenKind::Ident => "Ident"@,
        TokenKind::Define => "Define"@,
        TokenKind::Let => "Let"@,
        TokenKind::Var => "Var"@,
        TokenKind::While => "While"@,
        TokenKind::If => "If"@,
        TokenKind::Else => "Else"@,
        TokenKind::Return => "Return"@,
        TokenKind::Oracle => "Oracle"@,
        TokenKind::Summon => "Summon"@,
        TokenKind::Divine => "Divine"@,
        TokenKind::Enact => "Enact"@,
        TokenKind::Fallback => "Fallback"@,
        TokenKind::Speak => "Speak"@,
        TokenKind::Listen => "Listen"@,
        TokenKind::Type => "Type"@,
        TokenKind::OneOf => "OneOf"@,
        TokenKind::In => "In"@,
        TokenKind::From => "From"@,
        TokenKind::Using => "Using"@,
        TokenKind::With => "With"@,
        TokenKind::Confidence => "Confidence"@,
        TokenKind::Requires => "Requires"@,
        TokenKind::Grant => "Grant"@,
        TokenKind::Memory => "Memory"@,
        TokenKind::Within => "Within"@,
        TokenKind::Familiar => "Familiar"@,
        TokenKind::Permits => "Permits"@,
        TokenKind::And => "And"@,
        TokenKind::Or => "Or"@,
        TokenKind::Not => "Not"@,
        TokenKind::LParen => "LParen"@,
        TokenKind::RParen => "RParen"@,
        TokenKind::LBrace => "LBrace"@,
        TokenKind::RBrace => "RBrace"@,
        TokenKind::LBracket => "LBracket"@,
        TokenKind::RBracket => "RBracket"@,
        TokenKind::Comma => "Comma"@,
        TokenKind::Colon => "Colon"@,
        TokenKind::Dot => "Dot"@,
        TokenKind::DotDot => "DotDot"@,
        TokenKind::FatArrow => "FatArrow"@,
        TokenKind::Plus => "Plus"@,
        TokenKind::Minus => "Minus"@,
        TokenKind::Star => "Star"@,
        TokenKind::Slash => "Slash"@,
        TokenKind::Lt => "Lt"@,
        TokenKind::Le => "Le"@,
        TokenKind::Gt => "Gt"@,
        TokenKind::Ge => "Ge"@,
        TokenKind::EqEq => "EqEq"@,
        TokenKind::Ne => "Ne"@,
        TokenKind::Eq => "Eq"@,
        TokenKind::Eof => "Eof"@,
    }
}

pub fn kind_name(k: TokenKind) -> (r: &'static str)
    ensures
        r@ == spec_kind_name(k),
{
    match k {
        TokenKind::Number => "Number",
        TokenKind::Str => "Str",
        TokenKind::True => "True",
        TokenKind::False => "False",
        TokenKind::Ident => "Ident",
        TokenKind::Define => "Define",
        TokenKind::Let => "Let",
        TokenKind::Var => "Var",
        TokenKind::While => "While",
        TokenKind::If => "If",
        TokenKind::Else => "Else",
        TokenKind::Return => "Return",
        TokenKind::Oracle => "Oracle",
        TokenKind::Summon => "Summon",
        TokenKind::Divine => "Divine",
        TokenKind::Enact => "Enact",
        TokenKind::Fallback => "Fallback",
        TokenKind::Speak => "Speak",
        TokenKind::Listen => "Listen",
        TokenKind::Type => "Type",
        TokenKind::OneOf => "OneOf",
        TokenKind::In => "In",
        TokenKind::From => "From",
        TokenKind::Using => "Using",
        TokenKind::With => "With",
        TokenKind::Confidence => "Confidence",
        TokenKind::Requires => "Requires",
        TokenKind::Grant => "Grant",
        TokenKind::Memory => "Memory",
        TokenKind::Within => "Within",
        TokenKind::Familiar => "Familiar",
        TokenKind::Permits => "Permits",
        TokenKind::And => "And",
        TokenKind::Or => "Or",
        TokenKind::Not => "Not",
        TokenKind::LParen => "LParen",
        TokenKind::RParen => "RParen",
        TokenKind::LBrace => "LBrace",
        TokenKind::RBrace => "RBrace",
        TokenKind::LBracket => "LBracket",
        TokenKind::RBracket => "RBracket",
        TokenKind::Comma => "Comma",
        TokenKind::Colon => "Colon",
        TokenKind::Dot => "Dot",
        TokenKind::DotDot => "DotDot",
        TokenKind::FatArrow => "FatArrow",
        TokenKind::Plus => "Plus",
        TokenKind::Minus => "Minus",
        TokenKind::Star => "Star",
        TokenKind::Slash => "Slash",
        TokenKind::Lt => "Lt",
        TokenKind::Le => "Le",
        TokenKind::Gt => "Gt",
        TokenKind::Ge => "Ge",
        TokenKind::EqEq => "EqEq",
        TokenKind::Ne => "Ne",
        TokenKind::Eq => "Eq",
        TokenKind::Eof => "Eof",
    }
}

} // verus!
