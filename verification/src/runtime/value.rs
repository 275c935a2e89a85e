//! Where a compiled program's inferred value came from.

use vstd::prelude::*;
use crate::text::{nat_to_dec, owned, push_str, push_u64};

verus! {

/// Where an inferred value came from, on the compiled path: the intent, the
/// model, and the seed (the compiled path decodes with the Mock).
#[derive(Clone, Debug, PartialEq)]
pub struct Provenance {
    pub oracle: String,
    pub model: String,
    pub seed: u64,
}

impl Provenance {
    pub open spec fn spec_render(&self) -> Seq<char> {
        "intent="@ + self.oracle@ + " model="@ + self.model@ + " version=mock backend=mock seed="@
            + nat_to_dec(self.seed as nat) + " sampling=deterministic"@
    }

    /// `intent=<oracle> model=<model> version=mock backend=mock seed=<seed>
    /// sampling=deterministic`.
    pub fn render(&self) -> (r: String)
        ensures
            r@ == self.spec_render(),
    {
        let mut s = owned("intent=");
        push_str(&mut s, self.oracle.as_str());
        push_str(&mut s, " model=");
        push_str(&mut s, self.model.as_str());
        push_str(&mut s, " version=mock backend=mock seed=");
        push_u64(&mut s, self.seed);
        push_str(&mut s, " sampling=deterministic");
        assert(s@ =~= self.spec_render());
        s
    }
}

} // verus!
