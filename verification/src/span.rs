//! Source positions.

use vstd::prelude::*;
use crate::text::{nat_to_dec, owned, push_char, push_str, push_u64};

verus! {

/// A 1-based line/column position in the source text.
#[derive(Clone, Copy, Debug, PartialEq, Eq)]
pub struct Span {
    pub line: u32,
    pub col: u32,
}

impl Span {
    pub fn new(line: u32, col: u32) -> (s: Span)
        ensures
            s.line == line,
            s.col == col,
    {
        Span { line, col }
    }

    /// The rendering `line:col`.
    pub open spec fn spec_render(self) -> Seq<char> {
        nat_to_dec(self.line as nat) + seq![':'] + nat_to_dec(self.col as nat)
    }

    /// Renders the position as `line:col`.
    pub fn render(&self) -> (r: String)
        ensures
            r@ == self.spec_render(),
    {
        let mut s = String::new();
        push_u64(&mut s, self.line as u64);
        push_char(&mut s, ':');
        push_u64(&mut s, self.col as u64);
        assert(s@ =~= self.spec_render());
        s
    }
}

} // verus!
