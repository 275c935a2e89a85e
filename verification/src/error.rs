//! Diagnostics. Every user-facing error carries a stage, a message and, where
//! one is known, a source position.

use vstd::prelude::*;
use crate::span::Span;
use crate::text::{nat_to_dec, owned, push_char, push_str, push_u64};

verus! {

#[derive(Clone, Copy, Debug, PartialEq, Eq, Structural)]
pub enum Stage {
    Lex,
    Parse,
    Type,
    Runtime,
    Io,
}

impl Stage {
    pub open spec fn spec_label(self) -> Seq<char> {
        match self {
            Stage::Lex => "lex"@,
            Stage::Parse => "syntax"@,
            Stage::Type => "type"@,
            Stage::Runtime => "runtime"@,
            Stage::Io => "io"@,
        }
    }

    /// The stage's name as it appears in rendered diagnostics.
    pub fn label(self) -> (r: &'static str)
        ensures
            r@ == self.spec_label(),
    {
        match self {
            Stage::Lex => "lex",
            Stage::Parse => "syntax",
            Stage::Type => "type",
            Stage::Runtime => "runtime",
            Stage::Io => "io",
        }
    }
}

#[derive(Clone, Debug)]
pub struct Diagnostic {
    pub stage: Stage,
    pub message: String,
    pub span: Option<Span>,
}

impl Diagnostic {
    pub fn new(stage: Stage, message: String, span: Option<Span>) -> (d: Diagnostic)
        ensures
            d.stage == stage,
            d.message@ == message@,
            d.span == span,
    {
        Diagnostic { stage, message, span }
    }

    pub fn lex(message: String, span: Span) -> (d: Diagnostic)
        ensures
            d.stage == Stage::Lex,
            d.message@ == message@,
            d.span == Some(span),
    {
        Diagnostic::new(Stage::Lex, message, Some(span))
    }

    pub fn parse(message: String, span: Span) -> (d: Diagnostic)
        ensures
            d.stage == Stage::Parse,
            d.message@ == message@,
            d.span == Some(span),
    {
        Diagnostic::new(Stage::Parse, message, Some(span))
    }

    pub fn type_error(message: String, span: Span) -> (d: Diagnostic)
        ensures
            d.stage == Stage::Type,
            d.message@ == message@,
            d.span == Some(span),
    {
        Diagnostic::new(Stage::Type, message, Some(span))
    }

    pub fn runtime(message: String, span: Span) -> (d: Diagnostic)
        ensures
            d.stage == Stage::Runtime,
            d.message@ == message@,
            d.span == Some(span),
    {
        Diagnostic::new(Stage::Runtime, message, Some(span))
    }

    pub fn io(message: String) -> (d: Diagnostic)
        ensures
            d.stage == Stage::Io,
            d.message@ == message@,
            d.span == None::<Span>,
    {
        Diagnostic::new(Stage::Io, message, None)
    }

    /// `error[<stage>] at <line>:<col>: <message>`, or without the position
    /// when none is known.
    pub open spec fn spec_render(self) -> Seq<char> {
        match self.span {
            Some(sp) => "error["@ + self.stage.spec_label() + "] at "@ + sp.spec_render() + ": "@
                + self.message@,
            None => "error["@ + self.stage.spec_label() + "]: "@ + self.message@,
        }
    }

    /// Human-readable, positioned rendering for the command line.
    pub fn render(&self) -> (r: String)
        ensures
            r@ == self.spec_render(),
    {
        let mut s = owned("error[");
        push_str(&mut s, self.stage.label());
        match self.span {
            Some(sp) => {
                push_str(&mut s, "] at ");
                let pos = sp.render();
                push_str(&mut s, pos.as_str());
                push_str(&mut s, ": ");
            },
            None => {
                push_str(&mut s, "]: ");
            },
        }
        push_str(&mut s, self.message.as_str());
        assert(s@ =~= self.spec_render());
        s
    }
}

} // verus!
