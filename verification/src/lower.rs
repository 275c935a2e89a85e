//! Lowering: type-checked AST to [`ir`](crate::ir). Control flow becomes
//! basic blocks; locals become numbered slots; `divine` becomes a runtime
//! `Decode` plus, when discharged, a confidence branch; `enact` becomes a
//! tag `Switch`. Inference is never evaluated here. Capabilities are erased:
//! a `with grant` or `within` region lowers to its body.

use vstd::prelude::*;
use crate::ast::{BinOp, DivineStmt, EnactArm, Expr, Item, Param, Program, StrSeg, Stmt};
use crate::ir;
use crate::error::{Diagnostic, Stage};
use crate::grammar::{compile, Grammar, GLYPH_MAX_LEN};
use crate::ir::{function_wf, instr_ok, program_wf, term_ok, Block, Function, Instr, Operand, Terminator};
use crate::text::{owned, push_str, str_eq};
use crate::policy::summon_table;
use crate::typeck::{build_type_table, resolve_type};
use crate::types::Type;

verus! {

/// The innermost binding of `name` in a stack of scopes.
pub open spec fn scope_lookup(scopes: Seq<Seq<(Seq<char>, u32)>>, name: Seq<char>) -> Option<u32>
    decreases scopes.len(),
{
    if scopes.len() == 0 {
        None
    } else {
        match binding_in(scopes.last(), name) {
            Some(l) => Some(l),
            None => scope_lookup(scopes.drop_last(), name),
        }
    }
}

/// The binding of `name` in one scope (the last one made).
pub open spec fn binding_in(scope: Seq<(Seq<char>, u32)>, name: Seq<char>) -> Option<u32>
    decreases scope.len(),
{
    if scope.len() == 0 {
        None
    } else if scope.last().0 == name {
        Some(scope.last().1)
    } else {
        binding_in(scope.drop_last(), name)
    }
}

spec fn scopes_view(scopes: Seq<Vec<(String, u32)>>) -> Seq<Seq<(Seq<char>, u32)>> {
    scopes.map_values(|s: Vec<(String, u32)>| s@.map_values(|e: (String, u32)| (e.0@, e.1)))
}

fn too_large() -> (d: Diagnostic)
    ensures
        d.stage == Stage::Runtime,
{
    Diagnostic::new(Stage::Runtime, owned("program too large to compile"), None)
}

/// Per-function block builder with lexical scopes mapping names to slots.
struct FnBuilder {
    blocks: Vec<Block>,
    cur: u32,
    next_tmp: u32,
    next_local: u32,
    scopes: Vec<Vec<(String, u32)>>,
    last_value: Option<Operand>,
}

impl FnBuilder {
    /// Blocks are numbered by position, the current block exists, and every
    /// named slot exists.
    spec fn shape(&self) -> bool {
        &&& 1 <= self.blocks@.len() <= u32::MAX
        &&& self.cur < self.blocks@.len()
        &&& forall|b: int| 0 <= b < self.blocks@.len() ==> (#[trigger] self.blocks@[b]).id == b
        &&& forall|s: int, k: int|
            0 <= s < self.scopes@.len() && 0 <= k < self.scopes@[s]@.len() ==> (
            #[trigger] self.scopes@[s]@[k]).1 < self.next_local
    }

    /// Every reference a block makes is in range, given `ng` grammars and
    /// `nv` interned variants.
    spec fn refs(&self, ng: nat, nv: nat) -> bool {
        forall|b: int|
            #![trigger self.blocks@[b]]
            0 <= b < self.blocks@.len() ==> term_ok(self.blocks@[b].term, self.blocks@.len(), nv)
                && forall|j: int|
                0 <= j < self.blocks@[b].instrs@.len() ==> instr_ok(
                    #[trigger] self.blocks@[b].instrs@[j],
                    self.next_local as nat,
                    ng,
                    nv,
                )
    }

    fn new() -> (fb: FnBuilder)
        ensures
            fb.shape(),
            forall|ng: nat, nv: nat| #[trigger] fb.refs(ng, nv),
            fb.scopes@.len() == 0,
            fb.next_local == 0,
    {
        let mut blocks: Vec<Block> = Vec::new();
        blocks.push(Block { id: 0, instrs: Vec::new(), term: Terminator::Unreachable });
        FnBuilder { blocks, cur: 0, next_tmp: 0, next_local: 0, scopes: Vec::new(), last_value: None }
    }

    proof fn lemma_grow(&self, ng: nat, nv: nat, ng2: nat, nv2: nat)
        requires
            self.refs(ng, nv),
            ng <= ng2,
            nv <= nv2,
        ensures
            self.refs(ng2, nv2),
    {
        assert forall|b: int| #![trigger self.blocks@[b]] 0 <= b < self.blocks@.len() implies term_ok(
            self.blocks@[b].term,
            self.blocks@.len(),
            nv2,
        ) by {
            if let Terminator::Switch { arms, .. } = self.blocks@[b].term {
                assert forall|k: int| 0 <= k < arms@.len() implies (#[trigger] arms@[k]).0 < nv2 && arms@[k].1
                    < self.blocks@.len() by {}
            }
        }
    }

    fn new_block(&mut self) -> (r: Result<u32, Diagnostic>)
        requires
            old(self).shape(),
        ensures
            final(self).shape(),
            forall|ng: nat, nv: nat| #[trigger] old(self).refs(ng, nv) ==> final(self).refs(ng, nv),
            final(self).scopes@ == old(self).scopes@,
            final(self).next_local == old(self).next_local,
            final(self).cur == old(self).cur,
            r matches Ok(id) ==> id == old(self).blocks@.len() && final(self).blocks@.len() == id + 1,
            r is Err ==> final(self).blocks@.len() == old(self).blocks@.len(),
            r matches Err(d) ==> d.stage == Stage::Runtime,
    {
        let n = self.blocks.len();
        if n >= 0xFFFF_FFFF {
            return Err(too_large());
        }
        let id = n as u32;
        self.blocks.push(Block { id, instrs: Vec::new(), term: Terminator::Unreachable });
        proof {
            let bs = self.blocks@;
            assert forall|b: int| 0 <= b < bs.len() implies (#[trigger] bs[b]).id == b by {
                if b < n {
                    assert(bs[b] == old(self).blocks@[b]);
                }
            }
            assert forall|ng: nat, nv: nat| #[trigger] old(self).refs(ng, nv) implies self.refs(ng, nv) by {
                assert forall|b: int| #![trigger bs[b]] 0 <= b < bs.len() implies term_ok(bs[b].term, bs.len(), nv)
                    && forall|j: int| 0 <= j < bs[b].instrs@.len() ==> instr_ok(
                    #[trigger] bs[b].instrs@[j],
                    self.next_local as nat,
                    ng,
                    nv,
                ) by {
                    if b < n {
                        assert(bs[b] == old(self).blocks@[b]);
                        if let Terminator::Switch { arms, .. } = bs[b].term {
                            assert forall|k: int| 0 <= k < arms@.len() implies (#[trigger] arms@[k]).0 < nv
                                && arms@[k].1 < bs.len() by {}
                        }
                    }
                }
            }
        }
        Ok(id)
    }

    fn switch_to(&mut self, id: u32)
        requires
            old(self).shape(),
            id < old(self).blocks@.len(),
        ensures
            final(self).shape(),
            forall|ng: nat, nv: nat| #[trigger] old(self).refs(ng, nv) ==> final(self).refs(ng, nv),
            final(self).blocks@ == old(self).blocks@,
            final(self).scopes@ == old(self).scopes@,
            final(self).next_local == old(self).next_local,
            final(self).cur == id,
    {
        self.cur = id;
    }

    fn emit(&mut self, instr: Instr)
        requires
            old(self).shape(),
        ensures
            final(self).shape(),
            final(self).blocks@[old(self).cur as int].instrs@ == old(self).blocks@[old(self).cur as int].instrs@.push(instr),
            final(self).blocks@[old(self).cur as int].term == old(self).blocks@[old(self).cur as int].term,
            forall|k: int| 0 <= k < old(self).blocks@.len() && k != old(self).cur ==> #[trigger] final(self).blocks@[k] == old(self).blocks@[k],
            final(self).next_tmp == old(self).next_tmp,
            final(self).last_value == old(self).last_value,
            forall|ng: nat, nv: nat|
                #[trigger] old(self).refs(ng, nv) && instr_ok(instr, old(self).next_local as nat, ng, nv)
                    ==> final(self).refs(ng, nv),
            final(self).blocks@.len() == old(self).blocks@.len(),
            final(self).scopes@ == old(self).scopes@,
            final(self).next_local == old(self).next_local,
            final(self).cur == old(self).cur,
    {
        let c = self.cur as usize;
        let ghost before = self.blocks@;
        let mut b = self.blocks.remove(c);
        b.instrs.push(instr);
        self.blocks.insert(c, b);
        proof {
            let bs = self.blocks@;
            assert(bs =~= before.update(c as int, b));
            assert forall|k: int| 0 <= k < bs.len() implies (#[trigger] bs[k]).id == k by {
                if k != c {
                    assert(bs[k] == before[k]);
                }
            }
            assert forall|ng: nat, nv: nat|
                #[trigger] old(self).refs(ng, nv) && instr_ok(instr, old(self).next_local as nat, ng, nv)
                implies self.refs(ng, nv) by {
                assert forall|k: int| #![trigger bs[k]] 0 <= k < bs.len() implies term_ok(bs[k].term, bs.len(), nv)
                    && forall|j: int| 0 <= j < bs[k].instrs@.len() ==> instr_ok(
                    #[trigger] bs[k].instrs@[j],
                    self.next_local as nat,
                    ng,
                    nv,
                ) by {
                    assert(term_ok(before[k].term, before.len(), nv));
                    if k == c {
                        assert forall|j: int| 0 <= j < bs[k].instrs@.len() implies instr_ok(
                            #[trigger] bs[k].instrs@[j],
                            self.next_local as nat,
                            ng,
                            nv,
                        ) by {
                            if j < before[k].instrs@.len() {
                                assert(bs[k].instrs@[j] == before[k].instrs@[j]);
                            }
                        }
                    } else {
                        assert(bs[k] == before[k]);
                    }
                }
            }
        }
    }

    fn set_term(&mut self, term: Terminator)
        requires
            old(self).shape(),
        ensures
            final(self).shape(),
            final(self).blocks@[old(self).cur as int].term == term,
            final(self).blocks@[old(self).cur as int].instrs@ == old(self).blocks@[old(self).cur as int].instrs@,
            forall|k: int| 0 <= k < old(self).blocks@.len() && k != old(self).cur ==> #[trigger] final(self).blocks@[k] == old(self).blocks@[k],
            final(self).next_tmp == old(self).next_tmp,
            final(self).last_value == old(self).last_value,
            forall|ng: nat, nv: nat|
                #[trigger] old(self).refs(ng, nv) && term_ok(term, old(self).blocks@.len() as nat, nv)
                    ==> final(self).refs(ng, nv),
            final(self).blocks@.len() == old(self).blocks@.len(),
            final(self).scopes@ == old(self).scopes@,
            final(self).next_local == old(self).next_local,
            final(self).cur == old(self).cur,
    {
        let c = self.cur as usize;
        let ghost before = self.blocks@;
        let mut b = self.blocks.remove(c);
        b.term = term;
        self.blocks.insert(c, b);
        proof {
            let bs = self.blocks@;
            assert(bs =~= before.update(c as int, b));
            assert forall|k: int| 0 <= k < bs.len() implies (#[trigger] bs[k]).id == k by {
                if k != c {
                    assert(bs[k] == before[k]);
                }
            }
            assert forall|ng: nat, nv: nat|
                #[trigger] old(self).refs(ng, nv) && term_ok(term, old(self).blocks@.len() as nat, nv)
                implies self.refs(ng, nv) by {
                assert forall|k: int| #![trigger bs[k]] 0 <= k < bs.len() implies term_ok(bs[k].term, bs.len(), nv)
                    && forall|j: int| 0 <= j < bs[k].instrs@.len() ==> instr_ok(
                    #[trigger] bs[k].instrs@[j],
                    self.next_local as nat,
                    ng,
                    nv,
                ) by {
                    assert(term_ok(before[k].term, before.len(), nv));
                    if k == c {
                        assert forall|j: int| 0 <= j < bs[k].instrs@.len() implies instr_ok(
                            #[trigger] bs[k].instrs@[j],
                            self.next_local as nat,
                            ng,
                            nv,
                        ) by {
                            assert(bs[k].instrs@[j] == before[k].instrs@[j]);
                        }
                    } else {
                        assert(bs[k] == before[k]);
                    }
                }
            }
        }
    }

    fn fresh_tmp(&mut self) -> (r: Result<u32, Diagnostic>)
        ensures
            old(self).shape() ==> final(self).shape(),
            forall|ng: nat, nv: nat| #[trigger] old(self).refs(ng, nv) ==> final(self).refs(ng, nv),
            final(self).blocks@ == old(self).blocks@,
            final(self).scopes@ == old(self).scopes@,
            final(self).next_local == old(self).next_local,
            final(self).cur == old(self).cur,
            r matches Err(d) ==> d.stage == Stage::Runtime,
            r is Err <==> old(self).next_tmp == 0xFFFF_FFFF,
            r matches Ok(t) ==> t == old(self).next_tmp && final(self).next_tmp == old(self).next_tmp + 1,
            r is Err ==> final(self).next_tmp == old(self).next_tmp,
            final(self).last_value == old(self).last_value,
    {
        if self.next_tmp == 0xFFFF_FFFF {
            return Err(too_large());
        }
        let t = self.next_tmp;
        self.next_tmp = self.next_tmp + 1;
        proof {
            assert forall|ng: nat, nv: nat| #[trigger] old(self).refs(ng, nv) implies self.refs(ng, nv) by {
                old(self).lemma_more_locals(self, ng, nv);
            }
        }
        Ok(t)
    }

    proof fn lemma_more_locals(&self, other: &FnBuilder, ng: nat, nv: nat)
        requires
            self.refs(ng, nv),
            other.blocks@ == self.blocks@,
            other.next_local >= self.next_local,
        ensures
            other.refs(ng, nv),
    {
        assert forall|b: int| #![trigger other.blocks@[b]] 0 <= b < other.blocks@.len() implies term_ok(
            other.blocks@[b].term,
            other.blocks@.len(),
            nv,
        ) && forall|j: int| 0 <= j < other.blocks@[b].instrs@.len() ==> instr_ok(
            #[trigger] other.blocks@[b].instrs@[j],
            other.next_local as nat,
            ng,
            nv,
        ) by {
            assert(self.blocks@[b] == other.blocks@[b]);
        }
    }

    /// A slot no name refers to.
    fn fresh_anon_local(&mut self) -> (r: Result<u32, Diagnostic>)
        requires
            old(self).shape(),
        ensures
            final(self).shape(),
            forall|ng: nat, nv: nat| #[trigger] old(self).refs(ng, nv) ==> final(self).refs(ng, nv),
            final(self).blocks@ == old(self).blocks@,
            final(self).scopes@ == old(self).scopes@,
            final(self).cur == old(self).cur,
            final(self).next_local >= old(self).next_local,
            r matches Ok(l) ==> l < final(self).next_local,
            r matches Err(d) ==> d.stage == Stage::Runtime,
    {
        if self.next_local == 0xFFFF_FFFF {
            return Err(too_large());
        }
        let l = self.next_local;
        self.next_local = self.next_local + 1;
        proof {
            assert forall|ng: nat, nv: nat| #[trigger] old(self).refs(ng, nv) implies self.refs(ng, nv) by {
                old(self).lemma_more_locals(self, ng, nv);
            }
        }
        Ok(l)
    }

    /// A slot bound to `name` in the innermost scope.
    fn declare_local(&mut self, name: &str) -> (r: Result<u32, Diagnostic>)
        requires
            old(self).shape(),
            old(self).scopes@.len() > 0,
        ensures
            final(self).shape(),
            forall|ng: nat, nv: nat| #[trigger] old(self).refs(ng, nv) ==> final(self).refs(ng, nv),
            final(self).blocks@ == old(self).blocks@,
            final(self).scopes@.len() == old(self).scopes@.len(),
            final(self).cur == old(self).cur,
            final(self).next_local >= old(self).next_local,
            r matches Ok(l) ==> l < final(self).next_local && scope_lookup(
                scopes_view(final(self).scopes@),
                name@,
            ) == Some(l),
            r matches Err(d) ==> d.stage == Stage::Runtime,
    {
        if self.next_local == 0xFFFF_FFFF {
            return Err(too_large());
        }
        let l = self.next_local;
        self.next_local = self.next_local + 1;
        let last = self.scopes.len() - 1;
        let ghost before = self.scopes@;
        let mut scope = self.scopes.remove(last);
        scope.push((owned(name), l));
        self.scopes.push(scope);
        proof {
            let ss = self.scopes@;
            assert(ss =~= before.update(last as int, scope));
            assert forall|a: int, k: int| 0 <= a < ss.len() && 0 <= k < ss[a]@.len() implies (
            #[trigger] ss[a]@[k]).1 < self.next_local by {
                if a != last {
                    assert(ss[a] == before[a]);
                } else if k < before[a]@.len() {
                    assert(ss[a]@[k] == before[a]@[k]);
                }
            }
            assert forall|ng: nat, nv: nat| #[trigger] old(self).refs(ng, nv) implies self.refs(ng, nv) by {
                old(self).lemma_more_locals(self, ng, nv);
            }
            let sv = scopes_view(ss);
            assert(sv.last() == scopes_view(ss)[last as int]);
            assert(sv.last().last() == (name@, l));
        }
        Ok(l)
    }

    /// The slot `name` refers to: its innermost binding.
    fn lookup_local(&self, name: &str) -> (r: Option<u32>)
        requires
            self.shape(),
        ensures
            r == scope_lookup(scopes_view(self.scopes@), name@),
            r matches Some(l) ==> l < self.next_local,
    {
        let ghost sv = scopes_view(self.scopes@);
        let mut s = self.scopes.len();
        assert(sv.take(s as int) =~= sv);
        while s > 0
            invariant
                s <= self.scopes@.len(),
                sv == scopes_view(self.scopes@),
                self.shape(),
                scope_lookup(sv, name@) == scope_lookup(sv.take(s as int), name@),
            decreases s,
        {
            let scope = &self.scopes[s - 1];
            let mut k = scope.len();
            let ghost sc = sv[s - 1];
            assert(sc == scope@.map_values(|e: (String, u32)| (e.0@, e.1)));
            assert(sc.take(k as int) =~= sc);
            assert(sv.take(s as int).last() == sc);
            assert(sv.take(s as int).drop_last() =~= sv.take(s - 1));
            while k > 0
                invariant
                    0 < s <= self.scopes@.len(),
                    *scope == self.scopes@[s - 1],
                    k <= scope@.len(),
                    sc == scope@.map_values(|e: (String, u32)| (e.0@, e.1)),
                    sv.take(s as int).last() == sc,
                    binding_in(sc, name@) == binding_in(sc.take(k as int), name@),
                    self.shape(),
                    sv == scopes_view(self.scopes@),
                    scope_lookup(sv, name@) == scope_lookup(sv.take(s as int), name@),
                decreases k,
            {
                if str_eq(scope[k - 1].0.as_str(), name) {
                    proof {
                        assert(sc.take(k as int).last() == sc[k - 1]);
                        assert(sc[k - 1] == (scope@[k - 1].0@, scope@[k - 1].1));
                        assert(self.scopes@[s - 1]@[k - 1] == scope@[k - 1]);
                    }
                    return Some(scope[k - 1].1);
                }
                proof {
                    assert(sc.take(k as int).drop_last() =~= sc.take(k - 1));
                    assert(sc.take(k as int).last() == sc[k - 1]);
                }
                k = k - 1;
            }
            proof {
                assert(sc.take(0) =~= Seq::<(Seq<char>, u32)>::empty());
            }
            s = s - 1;
        }
        proof {
            assert(sv.take(0) =~= Seq::<Seq<(Seq<char>, u32)>>::empty());
        }
        None
    }

    fn set_last_value(&mut self, v: Option<Operand>)
        ensures
            old(self).shape() ==> final(self).shape(),
            forall|ng: nat, nv: nat| #[trigger] old(self).refs(ng, nv) ==> final(self).refs(ng, nv),
            final(self).blocks@ == old(self).blocks@,
            final(self).scopes@ == old(self).scopes@,
            final(self).next_local == old(self).next_local,
            final(self).cur == old(self).cur,
            final(self).last_value == v,
    {
        self.last_value = v;
        proof {
            assert forall|ng: nat, nv: nat| #[trigger] old(self).refs(ng, nv) implies self.refs(ng, nv) by {
                old(self).lemma_more_locals(self, ng, nv);
            }
        }
    }

    fn push_scope(&mut self)
        requires
            old(self).shape(),
        ensures
            final(self).shape(),
            forall|ng: nat, nv: nat| #[trigger] old(self).refs(ng, nv) ==> final(self).refs(ng, nv),
            final(self).blocks@ == old(self).blocks@,
            final(self).scopes@.len() == old(self).scopes@.len() + 1,
            final(self).cur == old(self).cur,
            final(self).next_local == old(self).next_local,
            final(self).last_value == old(self).last_value,
            final(self).next_tmp == old(self).next_tmp,
    {
        self.scopes.push(Vec::new());
        proof {
            let ss = self.scopes@;
            assert forall|a: int, k: int| 0 <= a < ss.len() && 0 <= k < ss[a]@.len() implies (
            #[trigger] ss[a]@[k]).1 < self.next_local by {
                assert(ss[a] == old(self).scopes@[a]);
            }
        }
    }

    fn pop_scope(&mut self)
        requires
            old(self).shape(),
            old(self).scopes@.len() > 0,
        ensures
            final(self).shape(),
            forall|ng: nat, nv: nat| #[trigger] old(self).refs(ng, nv) ==> final(self).refs(ng, nv),
            final(self).blocks@ == old(self).blocks@,
            final(self).scopes@.len() == old(self).scopes@.len() - 1,
            final(self).cur == old(self).cur,
            final(self).next_local == old(self).next_local,
            final(self).last_value == old(self).last_value,
            final(self).next_tmp == old(self).next_tmp,
    {
        self.scopes.pop();
        proof {
            let ss = self.scopes@;
            assert forall|a: int, k: int| 0 <= a < ss.len() && 0 <= k < ss[a]@.len() implies (
            #[trigger] ss[a]@[k]).1 < self.next_local by {
                assert(ss[a] == old(self).scopes@[a]);
            }
        }
    }
}

/// A grammar lowering can produce for a `divine` site: the compilation of
/// the site's output type or, weakened, bounded free text.
pub open spec fn site_grammar(g: Grammar, weaken: bool) -> bool {
    if weaken {
        g == (Grammar::Text { max_len: GLYPH_MAX_LEN })
    } else {
        exists|t: Type| crate::grammar::compiles_to(t, g)
    }
}

/// The model the latest summon of `name` bound, in a table of summons.
pub open spec fn oracle_lookup(oracles: Seq<(String, String)>, name: Seq<char>) -> Option<Seq<char>>
    decreases oracles.len(),
{
    if oracles.len() == 0 {
        None
    } else if oracles.last().0@ == name {
        Some(oracles.last().1@)
    } else {
        oracle_lookup(oracles.drop_last(), name)
    }
}

struct LowerCtx {
    types: Vec<(String, Type)>,
    /// `(oracle, model)` for every summon, in program order.
    oracles: Vec<(String, String)>,
    grammars: Vec<Grammar>,
    variant_names: Vec<String>,
    weaken: bool,
}

impl LowerCtx {
    spec fn ng(&self) -> nat {
        self.grammars@.len()
    }

    spec fn nv(&self) -> nat {
        self.variant_names@.len()
    }

    /// Every grammar is a site grammar; variant names are interned once;
    /// every id fits.
    spec fn inv(&self) -> bool {
        &&& forall|i: int| 0 <= i < self.grammars@.len() ==> site_grammar(#[trigger] self.grammars@[i], self.weaken)
        &&& forall|i: int, j: int|
            0 <= i < j < self.variant_names@.len() ==> self.variant_names@[i]@ != self.variant_names@[j]@
        &&& self.grammars@.len() <= u32::MAX
        &&& self.variant_names@.len() <= u32::MAX
    }

    /// The context only grows: the tables keep what they had.
    spec fn grows(&self, next: &LowerCtx) -> bool {
        &&& next.inv()
        &&& next.types@ == self.types@
        &&& next.oracles@ == self.oracles@
        &&& next.weaken == self.weaken
        &&& self.grammars@.len() <= next.grammars@.len()
        &&& self.variant_names@.len() <= next.variant_names@.len()
        &&& forall|i: int| 0 <= i < self.grammars@.len() ==> next.grammars@[i] == #[trigger] self.grammars@[i]
        &&& forall|i: int|
            0 <= i < self.variant_names@.len() ==> next.variant_names@[i] == #[trigger] self.variant_names@[i]
    }

    /// The tag of variant `name`, interning it on first use.
    fn intern_variant(&mut self, name: &str) -> (r: Result<u32, Diagnostic>)
        requires
            old(self).inv(),
        ensures
            old(self).grows(final(self)),
            r matches Ok(t) ==> t < final(self).nv() && final(self).variant_names@[t as int]@ == name@,
            r matches Err(d) ==> d.stage == Stage::Runtime,
    {
        let n = self.variant_names.len();
        let mut i: usize = 0;
        while i < n
            invariant
                n == self.variant_names@.len(),
                i <= n,
                forall|k: int| 0 <= k < i ==> self.variant_names@[k]@ != name@,
                self == old(self),
                self.inv(),
            decreases n - i,
        {
            if str_eq(self.variant_names[i].as_str(), name) {
                return Ok(i as u32);
            }
            i = i + 1;
        }
        if n >= 0xFFFF_FFFF {
            return Err(too_large());
        }
        self.variant_names.push(owned(name));
        proof {
            let v = self.variant_names@;
            assert forall|a: int, b: int| 0 <= a < b < v.len() implies v[a]@ != v[b]@ by {
                assert(v[a] == old(self).variant_names@[a]);
                if b < n {
                    assert(v[b] == old(self).variant_names@[b]);
                }
            }
        }
        Ok(n as u32)
    }

    /// Adds a site's grammar to the table.
    fn add_grammar(&mut self, g: Grammar) -> (r: Result<u32, Diagnostic>)
        requires
            old(self).inv(),
            site_grammar(g, old(self).weaken),
        ensures
            old(self).grows(final(self)),
            r matches Ok(id) ==> id < final(self).ng(),
            r matches Err(d) ==> d.stage == Stage::Runtime,
    {
        let n = self.grammars.len();
        if n >= 0xFFFF_FFFF {
            return Err(too_large());
        }
        self.grammars.push(g);
        proof {
            assert forall|i: int| 0 <= i < self.grammars@.len() implies site_grammar(
                #[trigger] self.grammars@[i],
                self.weaken,
            ) by {
                if i < n {
                    assert(self.grammars@[i] == old(self).grammars@[i]);
                }
            }
        }
        Ok(n as u32)
    }

    /// The model the latest summon of `oracle` bound, or `unknown`.
    fn oracle_model(&self, oracle: &str) -> (r: String)
        ensures
            r@ == (match oracle_lookup(self.oracles@, oracle@) {
                Some(m) => m,
                None => "unknown"@,
            }),
    {
        let mut k = self.oracles.len();
        assert(self.oracles@.take(k as int) =~= self.oracles@);
        while k > 0
            invariant
                k <= self.oracles@.len(),
                oracle_lookup(self.oracles@, oracle@) == oracle_lookup(self.oracles@.take(k as int), oracle@),
            decreases k,
        {
            proof {
                assert(self.oracles@.take(k as int).last() == self.oracles@[k - 1]);
                assert(self.oracles@.take(k as int).drop_last() =~= self.oracles@.take(k - 1));
            }
            if str_eq(self.oracles[k - 1].0.as_str(), oracle) {
                return self.oracles[k - 1].1.clone();
            }
            k = k - 1;
        }
        assert(self.oracles@.take(0) =~= Seq::<(String, String)>::empty());
        owned("unknown")
    }
}

/// The lowering state holds: the context's invariant, the builder's shape,
/// references in range, a scope open.
/// The compiler refuses `e` wherever it lowers it: a method call or a list
/// literal stands in a part of it that is lowered.
pub open spec fn expr_refused(e: Expr) -> bool
    decreases e, 1int,
{
    match e {
        Expr::Method { .. } => true,
        Expr::List { .. } => true,
        Expr::Str(segs, _) => segs_refused(segs@),
        Expr::Unary { rhs, .. } => expr_refused(*rhs),
        Expr::Binary { lhs, rhs, .. } => expr_refused(*lhs) || expr_refused(*rhs),
        Expr::Call { args, .. } => exprs_refused(args@),
        Expr::Field { recv, .. } => expr_refused(*recv),
        Expr::Variant { fields, .. } => fields_refused(fields@),
        Expr::Record { fields, .. } => fields_refused(fields@),
        _ => false,
    }
}

pub open spec fn exprs_refused(es: Seq<Expr>) -> bool
    decreases es, 0int,
{
    es.len() > 0 && (exprs_refused(es.drop_last()) || expr_refused(es.last()))
}

pub open spec fn fields_refused(fs: Seq<(String, Expr)>) -> bool
    decreases fs, 0int,
{
    fs.len() > 0 && (fields_refused(fs.drop_last()) || expr_refused(fs.last().1))
}

pub open spec fn segs_refused(segs: Seq<StrSeg>) -> bool
    decreases segs, 0int,
{
    segs.len() > 0 && (segs_refused(segs.drop_last()) || match segs.last() {
        StrSeg::Interp(inner) => expr_refused(*inner),
        StrSeg::Lit(_) => false,
    })
}

/// The compiler refuses statement `s`: it declares governed memory, or a
/// refused expression stands where it is lowered (in it or in a nested
/// block or arm).
pub open spec fn stmt_refused(s: Stmt) -> bool
    decreases s, 2int,
{
    match s {
        Stmt::Let { value, .. } => expr_refused(value),
        Stmt::Var { value, .. } => expr_refused(value),
        Stmt::Assign { value, .. } => expr_refused(value),
        Stmt::Speak { value, .. } => expr_refused(value),
        Stmt::Return { value, .. } => match value {
            Some(v) => expr_refused(v),
            None => false,
        },
        Stmt::While { cond, body, .. } => expr_refused(cond) || block_refused(body@),
        Stmt::If { cond, then_branch, else_branch, .. } => expr_refused(cond) || block_refused(then_branch@)
            || match else_branch {
            Some(eb) => block_refused(eb@),
            None => false,
        },
        Stmt::Divine(d) => divine_refused(d),
        Stmt::Enact { subject, arms, .. } => expr_refused(subject) || arms_refused(arms@),
        Stmt::Grant { body, .. } => block_refused(body@),
        Stmt::Within { body, .. } => block_refused(body@),
        Stmt::MemoryDecl(_) => true,
        Stmt::Expr(e) => expr_refused(e),
        Stmt::Summon { .. } => false,
    }
}

/// A `divine` whose inputs, or whose fallback (taken only with a discharge
/// threshold), are refused.
pub open spec fn divine_refused(d: DivineStmt) -> bool {
    exprs_refused(d.inputs@) || (d.threshold is Some && match d.fallback {
        Some(f) => expr_refused(f),
        None => false,
    })
}

pub open spec fn block_refused(ss: Seq<Stmt>) -> bool
    decreases ss, 1int,
{
    ss.len() > 0 && (block_refused(ss.drop_last()) || stmt_refused(ss.last()))
}

pub open spec fn arms_refused(arms: Seq<EnactArm>) -> bool
    decreases arms, 1int,
{
    arms.len() > 0 && (arms_refused(arms.drop_last()) || block_refused(arms.last().body@))
}

/// The temporary an instruction defines, if any.
pub open spec fn instr_dst(i: Instr) -> Option<u32> {
    match i {
        Instr::LoadLocal { dst, .. } => Some(dst),
        Instr::Glyph { dst, .. } => Some(dst),
        Instr::Render { dst, .. } => Some(dst),
        Instr::Concat { dst, .. } => Some(dst),
        Instr::Bin { dst, .. } => Some(dst),
        Instr::Un { dst, .. } => Some(dst),
        Instr::MakeRecord { dst, .. } => Some(dst),
        Instr::MakeVariant { dst, .. } => Some(dst),
        Instr::Field { dst, .. } => Some(dst),
        Instr::VariantField { dst, .. } => Some(dst),
        Instr::VariantTag { dst, .. } => Some(dst),
        Instr::ProvenanceGlyph { dst, .. } => Some(dst),
        Instr::Call { dst, .. } => Some(dst),
        Instr::MakeInferred { dst, .. } => Some(dst),
        Instr::Decode { dst_conf, .. } => Some(dst_conf),
        Instr::StoreLocal { .. } => None,
        Instr::Speak { .. } => None,
    }
}

/// The value of an expression is the temporary last allocated, defined by
/// the last instruction of the current block.
spec fn last_defines(fb: &FnBuilder, o: Operand) -> bool {
    let ins = fb.blocks@[fb.cur as int].instrs@;
    &&& o matches Operand::Tmp(t)
    &&& o->Tmp_0 + 1 == fb.next_tmp
    &&& ins.len() > 0
    &&& instr_dst(ins.last()) == Some(o->Tmp_0)
}

/// The statement just lowered stored into the slot that now names `name`.
spec fn stored_into(fb: &FnBuilder, name: Seq<char>) -> bool {
    let ins = fb.blocks@[fb.cur as int].instrs@;
    &&& ins.len() > 0
    &&& ins.last() is StoreLocal
    &&& scope_lookup(scopes_view(fb.scopes@), name) == Some(ins.last()->StoreLocal_local)
}

/// A `let` or `var` just lowered stored into its name's slot.
spec fn binding_stored(s: Stmt, fb: &FnBuilder) -> bool {
    match s {
        Stmt::Let { name, .. } => stored_into(fb, name@),
        Stmt::Var { name, .. } => stored_into(fb, name@),
        _ => true,
    }
}

/// The statement just lowered ended in `speak`.
spec fn spoke(fb: &FnBuilder) -> bool {
    let ins = fb.blocks@[fb.cur as int].instrs@;
    ins.len() > 0 && ins.last() is Speak
}

/// A numeric or boolean literal: it lowers to a constant operand.
pub open spec fn constant_expr(e: Expr) -> bool {
    e is Number || e is Bool
}

/// A statement that lowers without allocating anything and so always
/// succeeds: a `summon`, or `speak` or an expression statement of a
/// constant.
pub open spec fn constant_stmt(s: Stmt) -> bool {
    match s {
        Stmt::Summon { .. } => true,
        Stmt::Speak { value, .. } => constant_expr(value),
        Stmt::Expr(e) => constant_expr(e),
        _ => false,
    }
}

/// A program of such statements only.
pub open spec fn constant_program(items: Seq<Item>) -> bool {
    forall|i: int| 0 <= i < items.len() ==> (#[trigger] items[i] matches Item::Stmt(st) && constant_stmt(st))
}

spec fn ready(ctx: &LowerCtx, fb: &FnBuilder) -> bool {
    &&& ctx.inv()
    &&& fb.shape()
    &&& fb.refs(ctx.ng(), ctx.nv())
    &&& fb.scopes@.len() > 0
}

/// A lowering step kept the state ready, grew the context and left the
/// scope depth as it was.
spec fn stepped(c0: &LowerCtx, c1: &LowerCtx, f0: &FnBuilder, f1: &FnBuilder) -> bool {
    &&& c0.grows(c1)
    &&& ready(c1, f1)
    &&& f1.scopes@.len() == f0.scopes@.len()
    &&& f1.blocks@.len() >= f0.blocks@.len()
    &&& f1.next_local >= f0.next_local
}

proof fn lemma_stepped_trans(
    c0: &LowerCtx,
    c1: &LowerCtx,
    c2: &LowerCtx,
    f0: &FnBuilder,
    f1: &FnBuilder,
    f2: &FnBuilder,
)
    requires
        stepped(c0, c1, f0, f1),
        stepped(c1, c2, f1, f2),
    ensures
        stepped(c0, c2, f0, f2),
{
    lemma_grows_trans(c0, c1, c2);
}

/// A lowering error is a compile-time (type) or unsupported-construct
/// (runtime) diagnostic.
pub open spec fn lower_error(d: Diagnostic) -> bool {
    d.stage == Stage::Type || d.stage == Stage::Runtime
}

proof fn lemma_grows_trans(a: &LowerCtx, b: &LowerCtx, c: &LowerCtx)
    requires
        a.grows(b),
        b.grows(c),
    ensures
        a.grows(c),
{
    assert forall|i: int| 0 <= i < a.grammars@.len() implies c.grammars@[i] == #[trigger] a.grammars@[i] by {
        assert(b.grammars@[i] == a.grammars@[i]);
    }
    assert forall|i: int| 0 <= i < a.variant_names@.len() implies c.variant_names@[i]
        == #[trigger] a.variant_names@[i] by {
        assert(b.variant_names@[i] == a.variant_names@[i]);
    }
}

/// A variant named `n` is interned in `c`.
spec fn variant_in(c: &LowerCtx, n: Seq<char>) -> bool {
    exists|t: int| 0 <= t < c.variant_names@.len() && (#[trigger] c.variant_names@[t])@ == n
}

proof fn lemma_variants_kept(a: &LowerCtx, b: &LowerCtx, names: Seq<Seq<char>>)
    requires
        a.grows(b),
        forall|k: int| 0 <= k < names.len() ==> variant_in(a, #[trigger] names[k]),
    ensures
        forall|k: int| 0 <= k < names.len() ==> variant_in(b, #[trigger] names[k]),
{
    assert forall|k: int| 0 <= k < names.len() implies variant_in(b, #[trigger] names[k]) by {
        assert(variant_in(a, names[k]));
        let t = choose|t: int| 0 <= t < a.variant_names@.len() && (#[trigger] a.variant_names@[t])@ == names[k];
        assert(b.variant_names@[t] == a.variant_names@[t]);
    }
}

/// The names of the arms' variants.
spec fn arm_names(arms: Seq<EnactArm>) -> Seq<Seq<char>> {
    arms.map_values(|a: EnactArm| a.variant@)
}

proof fn lemma_grows_refl(a: &LowerCtx)
    requires
        a.inv(),
    ensures
        a.grows(a),
{
}

fn message2(a: &str, b: &str, c: &str) -> (r: String)
    ensures
        r@ == a@ + b@ + c@,
{
    let mut m = owned(a);
    push_str(&mut m, b);
    push_str(&mut m, c);
    m
}

impl LowerCtx {
    fn lower_expr(&mut self, fb: &mut FnBuilder, e: &Expr) -> (r: Result<Operand, Diagnostic>)
        requires
            ready(old(self), old(fb)),
        ensures
            !(*e is Number || *e is Bool) ==> (r matches Ok(o) ==> last_defines(final(fb), o)),
            *e matches Expr::Number(n, _) ==> r == Ok::<Operand, Diagnostic>(Operand::Spark(n)),
            *e matches Expr::Bool(b, _) ==> r == Ok::<Operand, Diagnostic>(Operand::Bool(b)),
            r is Ok ==> !expr_refused(*e),
            r is Ok ==> stepped(old(self), final(self), old(fb), final(fb)),
            r matches Err(d) ==> lower_error(d),
        decreases e, 1int,
    {
        proof {
            lemma_grows_refl(self);
        }
        match e {
            Expr::Number(n, _) => Ok(Operand::Spark(*n)),
            Expr::Bool(b, _) => Ok(Operand::Bool(*b)),
            Expr::Str(segs, _) => self.lower_glyph(fb, segs),
            Expr::Ident(name, span) => {
                match fb.lookup_local(name.as_str()) {
                    None => Err(Diagnostic::runtime(message2("undefined name `", name.as_str(), "`"), *span)),
                    Some(l) => {
                        let dst = fb.fresh_tmp()?;
                        fb.emit(Instr::LoadLocal { dst, local: l });
                        Ok(Operand::Tmp(dst))
                    },
                }
            },
            Expr::Unary { op, rhs, .. } => {
                let v = self.lower_expr(fb, rhs)?;
                let dst = fb.fresh_tmp()?;
                fb.emit(Instr::Un { dst, op: *op, val: v });
                Ok(Operand::Tmp(dst))
            },
            Expr::Binary { .. } => self.lower_binary(fb, e),
            Expr::Call { callee, args, .. } => {
                let argv = self.lower_args(fb, args)?;
                let dst = fb.fresh_tmp()?;
                fb.emit(Instr::Call { dst, callee: callee.clone(), args: argv });
                Ok(Operand::Tmp(dst))
            },
            Expr::Method { method, span, .. } => Err(
                Diagnostic::runtime(
                    message2("method `", method.as_str(), "` is not supported by the compiler yet"),
                    *span,
                ),
            ),
            Expr::Field { recv, field, .. } => {
                let rv = self.lower_expr(fb, recv)?;
                let dst = fb.fresh_tmp()?;
                fb.emit(Instr::Field { dst, recv: rv, field: field.clone() });
                Ok(Operand::Tmp(dst))
            },
            Expr::Variant { name, fields, .. } => {
                let fv = self.lower_fields(fb, fields)?;
                let ghost c1 = *self;
                let tag = self.intern_variant(name.as_str())?;
                proof {
                    fb.lemma_grow(c1.ng(), c1.nv(), self.ng(), self.nv());
                }
                let dst = fb.fresh_tmp()?;
                fb.emit(Instr::MakeVariant { dst, name: name.clone(), tag, fields: fv });
                proof {
                    lemma_grows_trans(old(self), &c1, self);
                }
                Ok(Operand::Tmp(dst))
            },
            Expr::List { span, .. } => Err(
                Diagnostic::runtime(
                    owned("list literals are not supported by the compiler yet (use `witch run`)"),
                    *span,
                ),
            ),
            Expr::Record { fields, .. } => {
                let fv = self.lower_fields(fb, fields)?;
                let dst = fb.fresh_tmp()?;
                fb.emit(Instr::MakeRecord { dst, fields: fv });
                Ok(Operand::Tmp(dst))
            },
        }
    }

    fn lower_args(&mut self, fb: &mut FnBuilder, args: &Vec<Expr>) -> (r: Result<Vec<Operand>, Diagnostic>)
        requires
            ready(old(self), old(fb)),
        ensures
            r is Ok ==> !exprs_refused(args@),
            r is Ok ==> stepped(old(self), final(self), old(fb), final(fb)),
            r matches Ok(v) ==> v@.len() == args@.len(),
            r matches Err(d) ==> lower_error(d),
        decreases args@, 1int,
    {
        proof {
            lemma_grows_refl(self);
        }
        let mut out: Vec<Operand> = Vec::new();
        let n = args.len();
        let mut i: usize = 0;
        while i < n
            invariant
                n == args@.len(),
                i <= n,
                out@.len() == i,
                !exprs_refused(args@.take(i as int)),
                stepped(old(self), self, old(fb), fb),
            decreases n - i,
        {
            let ghost c1 = *self;
            let ghost f1 = *fb;
            let o = self.lower_expr(fb, &args[i])?;
            proof {
                lemma_stepped_trans(old(self), &c1, self, old(fb), &f1, fb);
            }
            proof {
                assert(args@.take(i + 1).drop_last() =~= args@.take(i as int));
                assert(args@.take(i + 1).last() == args@[i as int]);
            }
            out.push(o);
            i = i + 1;
        }
        assert(args@.take(n as int) =~= args@);
        Ok(out)
    }

    fn lower_fields(&mut self, fb: &mut FnBuilder, fields: &Vec<(String, Expr)>) -> (r: Result<Vec<(String, Operand)>, Diagnostic>)
        requires
            ready(old(self), old(fb)),
        ensures
            r matches Ok(v) ==> v@.len() == fields@.len() && forall|i: int| 0 <= i < v@.len() ==> (#[trigger] v@[i]).0@ == fields@[i].0@,
            r is Ok ==> !fields_refused(fields@),
            r is Ok ==> stepped(old(self), final(self), old(fb), final(fb)),
            r matches Err(d) ==> lower_error(d),
        decreases fields@, 1int,
    {
        proof {
            lemma_grows_refl(self);
        }
        let mut out: Vec<(String, Operand)> = Vec::new();
        let n = fields.len();
        let mut i: usize = 0;
        while i < n
            invariant
                n == fields@.len(),
                i <= n,
                out@.len() == i,
                forall|k: int| 0 <= k < i ==> (#[trigger] out@[k]).0@ == fields@[k].0@,
                !fields_refused(fields@.take(i as int)),
                stepped(old(self), self, old(fb), fb),
            decreases n - i,
        {
            let ghost c1 = *self;
            let ghost f1 = *fb;
            let o = self.lower_expr(fb, &fields[i].1)?;
            proof {
                lemma_stepped_trans(old(self), &c1, self, old(fb), &f1, fb);
            }
            proof {
                assert(fields@.take(i + 1).drop_last() =~= fields@.take(i as int));
                assert(fields@.take(i + 1).last() == fields@[i as int]);
            }
            out.push((fields[i].0.clone(), o));
            i = i + 1;
        }
        assert(fields@.take(n as int) =~= fields@);
        Ok(out)
    }

    /// A binary operation; `and`/`or` short-circuit through control flow
    /// and a result slot.
    fn lower_binary(&mut self, fb: &mut FnBuilder, e: &Expr) -> (r: Result<Operand, Diagnostic>)
        requires
            ready(old(self), old(fb)),
            e is Binary,
        ensures
            r matches Ok(o) ==> last_defines(final(fb), o),
            r is Ok ==> !expr_refused(*e),
            r is Ok ==> stepped(old(self), final(self), old(fb), final(fb)),
            r matches Err(d) ==> lower_error(d),
        decreases e, 0int,
    {
        proof {
            lemma_grows_refl(self);
        }
        let (op, lhs, rhs) = match e {
            Expr::Binary { op, lhs, rhs, .. } => (*op, lhs, rhs),
            _ => {
                return Ok(Operand::Unit);
            },
        };
        if op == BinOp::And || op == BinOp::Or {
            let result = fb.fresh_anon_local()?;
            let ghost c1 = *self;
            let ghost f1 = *fb;
            let l = self.lower_expr(fb, lhs)?;
            let rhs_blk = fb.new_block()?;
            let short_blk = fb.new_block()?;
            let join = fb.new_block()?;
            let (then_blk, else_blk) = if op == BinOp::And {
                (rhs_blk, short_blk)
            } else {
                (short_blk, rhs_blk)
            };
            fb.set_term(Terminator::Branch { cond: l, then_blk, else_blk });
            fb.switch_to(rhs_blk);
            let ghost c2 = *self;
            let ghost f2 = *fb;
            let r = self.lower_expr(fb, rhs)?;
            fb.emit(Instr::StoreLocal { local: result, src: r });
            fb.set_term(Terminator::Jump(join));
            fb.switch_to(short_blk);
            fb.emit(Instr::StoreLocal { local: result, src: Operand::Bool(op == BinOp::Or) });
            fb.set_term(Terminator::Jump(join));
            fb.switch_to(join);
            let dst = fb.fresh_tmp()?;
            fb.emit(Instr::LoadLocal { dst, local: result });
            proof {
                lemma_grows_trans(old(self), &c1, &c2);
                lemma_grows_trans(old(self), &c2, self);
            }
            return Ok(Operand::Tmp(dst));
        }
        let ghost c1 = *self;
        let ghost f1 = *fb;
        let l = self.lower_expr(fb, lhs)?;
        let ghost c2 = *self;
        let ghost f2 = *fb;
        let r = self.lower_expr(fb, rhs)?;
        proof {
            lemma_stepped_trans(old(self), &c2, self, old(fb), &f2, fb);
        }
        let dst = fb.fresh_tmp()?;
        fb.emit(Instr::Bin { dst, op, lhs: l, rhs: r });
        Ok(Operand::Tmp(dst))
    }

    /// A glyph: one literal is a constant; otherwise each segment is a
    /// glyph and the parts are concatenated.
    fn lower_glyph(&mut self, fb: &mut FnBuilder, segs: &Vec<StrSeg>) -> (r: Result<Operand, Diagnostic>)
        requires
            ready(old(self), old(fb)),
        ensures
            r matches Ok(o) ==> last_defines(final(fb), o),
            r is Ok ==> !segs_refused(segs@),
            r is Ok ==> stepped(old(self), final(self), old(fb), final(fb)),
            r matches Err(d) ==> lower_error(d),
        decreases segs@, 1int,
    {
        proof {
            lemma_grows_refl(self);
        }
        proof {
            if segs@.len() == 1 {
                assert(segs@.drop_last() =~= Seq::<StrSeg>::empty());
                assert(!segs_refused(segs@.drop_last()));
                assert(segs@.last() == segs@[0]);
            }
        }
        if segs.len() == 1 {
            if let StrSeg::Lit(t) = &segs[0] {
                let dst = fb.fresh_tmp()?;
                fb.emit(Instr::Glyph { dst, text: t.clone() });
                return Ok(Operand::Tmp(dst));
            }
        }
        if segs.len() == 0 {
            let dst = fb.fresh_tmp()?;
            fb.emit(Instr::Glyph { dst, text: String::new() });
            return Ok(Operand::Tmp(dst));
        }
        let mut parts: Vec<Operand> = Vec::new();
        let n = segs.len();
        let mut i: usize = 0;
        while i < n
            invariant
                n == segs@.len(),
                i <= n,
                !segs_refused(segs@.take(i as int)),
                stepped(old(self), self, old(fb), fb),
            decreases n - i,
        {
            match &segs[i] {
                StrSeg::Lit(t) => {
                    let dst = fb.fresh_tmp()?;
                    fb.emit(Instr::Glyph { dst, text: t.clone() });
                    parts.push(Operand::Tmp(dst));
                },
                StrSeg::Interp(inner) => {
                    let ghost c1 = *self;
                    let ghost f1 = *fb;
                    let v = self.lower_expr(fb, inner)?;
                    proof {
                        lemma_stepped_trans(old(self), &c1, self, old(fb), &f1, fb);
                    }
                    let dst = fb.fresh_tmp()?;
                    fb.emit(Instr::Render { dst, val: v });
                    parts.push(Operand::Tmp(dst));
                },
            }
            proof {
                assert(segs@.take(i + 1).drop_last() =~= segs@.take(i as int));
                assert(segs@.take(i + 1).last() == segs@[i as int]);
            }
            i = i + 1;
        }
        assert(segs@.take(n as int) =~= segs@);
        let dst = fb.fresh_tmp()?;
        fb.emit(Instr::Concat { dst, parts });
        Ok(Operand::Tmp(dst))
    }
}

proof fn lemma_function_wf_grow(f: Function, ng: nat, nv: nat, ng2: nat, nv2: nat)
    requires
        function_wf(f, ng, nv),
        ng <= ng2,
        nv <= nv2,
    ensures
        function_wf(f, ng2, nv2),
{
    assert forall|b: int| #![trigger f.blocks@[b]] 0 <= b < f.blocks@.len() implies term_ok(
        f.blocks@[b].term,
        f.blocks@.len(),
        nv2,
    ) by {
        if let Terminator::Switch { arms, .. } = f.blocks@[b].term {
            assert forall|k: int| 0 <= k < arms@.len() implies (#[trigger] arms@[k]).0 < nv2 && arms@[k].1
                < f.blocks@.len() by {}
        }
    }
}

impl LowerCtx {
    /// A block of statements, in a scope of its own.
    fn lower_block(&mut self, fb: &mut FnBuilder, stmts: &Vec<Stmt>) -> (r: Result<(), Diagnostic>)
        requires
            ready(old(self), old(fb)),
        ensures
            r is Ok && stmts@.len() > 0 ==> (final(fb).last_value is Some <==> stmts@.last() is Expr),
            r is Ok ==> !block_refused(stmts@),
            r is Ok ==> stepped(old(self), final(self), old(fb), final(fb)),
            r matches Err(d) ==> lower_error(d),
        decreases stmts@, 1int,
    {
        proof {
            lemma_grows_refl(self);
        }
        fb.push_scope();
        let n = stmts.len();
        let mut i: usize = 0;
        while i < n
            invariant
                n == stmts@.len(),
                i <= n,
                i > 0 ==> (fb.last_value is Some <==> stmts@[i - 1] is Expr),
                !block_refused(stmts@.take(i as int)),
                old(self).grows(self),
                ready(self, fb),
                fb.scopes@.len() == old(fb).scopes@.len() + 1,
                fb.blocks@.len() >= old(fb).blocks@.len(),
                fb.next_local >= old(fb).next_local,
            decreases n - i,
        {
            let ghost c1 = *self;
            let ghost f1 = *fb;
            self.lower_stmt(fb, &stmts[i])?;
            proof {
                lemma_grows_trans(old(self), &c1, self);
            }
            proof {
                assert(stmts@.take(i + 1).drop_last() =~= stmts@.take(i as int));
                assert(stmts@.take(i + 1).last() == stmts@[i as int]);
            }
            i = i + 1;
        }
        assert(stmts@.take(n as int) =~= stmts@);
        fb.pop_scope();
        Ok(())
    }

    fn lower_stmt(&mut self, fb: &mut FnBuilder, s: &Stmt) -> (r: Result<(), Diagnostic>)
        requires
            ready(old(self), old(fb)),
        ensures
            constant_stmt(*s) ==> r is Ok,
            r is Ok ==> (final(fb).last_value is Some <==> *s is Expr),
            r is Ok ==> binding_stored(*s, final(fb)),
            (*s is Speak && r is Ok) ==> spoke(final(fb)),
            r is Ok ==> !stmt_refused(*s),
            r is Ok ==> stepped(old(self), final(self), old(fb), final(fb)),
            r matches Err(d) ==> lower_error(d),
        decreases s, 1int,
    {
        proof {
            lemma_grows_refl(self);
        }
        match s {
            Stmt::Let { name, value, .. } | Stmt::Var { name, value, .. } => {
                let op = self.lower_expr(fb, value)?;
                let l = fb.declare_local(name.as_str())?;
                fb.emit(Instr::StoreLocal { local: l, src: op });
                fb.set_last_value(None);
                Ok(())
            },
            Stmt::Assign { name, value, span } => {
                let op = self.lower_expr(fb, value)?;
                let l = match fb.lookup_local(name.as_str()) {
                    Some(l) => l,
                    None => {
                        return Err(
                            Diagnostic::runtime(message2("undefined variable `", name.as_str(), "`"), *span),
                        );
                    },
                };
                fb.emit(Instr::StoreLocal { local: l, src: op });
                fb.set_last_value(None);
                Ok(())
            },
            Stmt::Speak { value, .. } => {
                let op = self.lower_expr(fb, value)?;
                fb.emit(Instr::Speak { val: op });
                fb.set_last_value(None);
                Ok(())
            },
            Stmt::Summon { .. } => {
                fb.set_last_value(None);
                Ok(())
            },
            Stmt::Return { value, .. } => {
                let op = match value {
                    Some(e) => Some(self.lower_expr(fb, e)?),
                    None => None,
                };
                fb.set_term(Terminator::Return(op));
                let dead = fb.new_block()?;
                fb.switch_to(dead);
                fb.set_last_value(None);
                Ok(())
            },
            Stmt::While { cond, body, .. } => {
                let header = fb.new_block()?;
                let body_blk = fb.new_block()?;
                let exit = fb.new_block()?;
                fb.set_term(Terminator::Jump(header));
                fb.switch_to(header);
                let ghost c1 = *self;
                let c = self.lower_expr(fb, cond)?;
                fb.set_term(Terminator::Branch { cond: c, then_blk: body_blk, else_blk: exit });
                fb.switch_to(body_blk);
                let ghost c2 = *self;
                self.lower_block(fb, body)?;
                fb.set_term(Terminator::Jump(header));
                fb.switch_to(exit);
                fb.set_last_value(None);
                proof {
                    lemma_grows_trans(old(self), &c2, self);
                }
                Ok(())
            },
            Stmt::If { cond, then_branch, else_branch, .. } => {
                let c = self.lower_expr(fb, cond)?;
                let then_blk = fb.new_block()?;
                let else_blk = fb.new_block()?;
                let join = fb.new_block()?;
                fb.set_term(Terminator::Branch { cond: c, then_blk, else_blk });
                fb.switch_to(then_blk);
                let ghost c1 = *self;
                self.lower_block(fb, then_branch)?;
                fb.set_term(Terminator::Jump(join));
                fb.switch_to(else_blk);
                let ghost c2 = *self;
                proof {
                    lemma_grows_trans(old(self), &c1, &c2);
                }
                match else_branch {
                    Some(eb) => {
                        self.lower_block(fb, eb)?;
                    },
                    None => {},
                }
                fb.set_term(Terminator::Jump(join));
                fb.switch_to(join);
                fb.set_last_value(None);
                proof {
                    lemma_grows_trans(old(self), &c2, self);
                }
                Ok(())
            },
            Stmt::Divine(d) => {
                self.lower_divine(fb, d)?;
                fb.set_last_value(None);
                Ok(())
            },
            Stmt::Enact { subject, arms, .. } => {
                let subj = self.lower_expr(fb, subject)?;
                let ghost c1 = *self;
                self.lower_enact(fb, subj, arms)?;
                fb.set_last_value(None);
                proof {
                    lemma_grows_trans(old(self), &c1, self);
                }
                Ok(())
            },
            Stmt::Grant { body, .. } | Stmt::Within { body, .. } => {
                self.lower_block(fb, body)?;
                fb.set_last_value(None);
                Ok(())
            },
            Stmt::MemoryDecl(m) => Err(
                Diagnostic::runtime(
                    owned("governed memory is not supported by the compiler yet (use `witch run`)"),
                    m.span,
                ),
            ),
            Stmt::Expr(e) => {
                let op = self.lower_expr(fb, e)?;
                fb.set_last_value(Some(op));
                Ok(())
            },
        }
    }
}

impl LowerCtx {
    /// `divine`: the site's grammar joins the table, the runtime decodes
    /// under it; a threshold branches on the confidence (the fallback
    /// returns), without one the value is bound as inferred.
    fn lower_divine(&mut self, fb: &mut FnBuilder, d: &DivineStmt) -> (r: Result<(), Diagnostic>)
        requires
            ready(old(self), old(fb)),
        ensures
            crate::typeck::resolved(d.out_ty, crate::types::fields_v(old(self).types@)) is None ==> r is Err,
            r is Ok ==> !divine_refused(*d),
            r is Ok ==> stepped(old(self), final(self), old(fb), final(fb)),
            r matches Err(e) ==> lower_error(e),
        decreases d, 1int,
    {
        proof {
            lemma_grows_refl(self);
        }
        let out_ty = match resolve_type(&d.out_ty, &self.types) {
            Ok(t) => t,
            Err(e) => {
                return Err(Diagnostic::type_error(e.message, d.span));
            },
        };
        let g = compile(&out_ty, self.weaken, d.span)?;
        let ghost c0 = *self;
        let gid = self.add_grammar(g)?;
        proof {
            fb.lemma_grow(c0.ng(), c0.nv(), self.ng(), self.nv());
        }
        let model = self.oracle_model(d.oracle.as_str());
        let ghost c1 = *self;
        let inputs = self.lower_args(fb, &d.inputs)?;
        proof {
            lemma_grows_trans(old(self), &c1, self);
        }
        let dst_val = fb.fresh_tmp()?;
        let dst_conf = fb.fresh_tmp()?;
        fb.emit(Instr::Decode { dst_val, dst_conf, grammar: gid, intent: model, inputs });
        match &d.threshold {
            Some(threshold) => {
                let cmp = fb.fresh_tmp()?;
                fb.emit(
                    Instr::Bin {
                        dst: cmp,
                        op: BinOp::Ge,
                        lhs: Operand::Tmp(dst_conf),
                        rhs: Operand::Spark(*threshold),
                    },
                );
                let cont = fb.new_block()?;
                let fail = fb.new_block()?;
                fb.set_term(Terminator::Branch { cond: Operand::Tmp(cmp), then_blk: cont, else_blk: fail });
                fb.switch_to(fail);
                let ghost c2 = *self;
                let fb_op = match &d.fallback {
                    Some(e) => Some(self.lower_expr(fb, e)?),
                    None => None,
                };
                proof {
                    lemma_grows_trans(old(self), &c2, self);
                }
                fb.set_term(Terminator::Return(fb_op));
                fb.switch_to(cont);
                let l = fb.declare_local(d.name.as_str())?;
                fb.emit(Instr::StoreLocal { local: l, src: Operand::Tmp(dst_val) });
            },
            None => {
                let inf = fb.fresh_tmp()?;
                let model2 = self.oracle_model(d.oracle.as_str());
                fb.emit(
                    Instr::MakeInferred {
                        dst: inf,
                        val: Operand::Tmp(dst_val),
                        conf: Operand::Tmp(dst_conf),
                        oracle: d.oracle.clone(),
                        intent: model2,
                    },
                );
                let l = fb.declare_local(d.name.as_str())?;
                fb.emit(Instr::StoreLocal { local: l, src: Operand::Tmp(inf) });
            },
        }
        Ok(())
    }

    /// `enact`: dispatch on the subject's tag, one block per arm binding the
    /// payload and the provenance, all arms joining after; the default is
    /// unreachable (the checker proved the arms exhaustive).
    fn lower_enact(&mut self, fb: &mut FnBuilder, subj: Operand, arms: &Vec<EnactArm>) -> (r: Result<(), Diagnostic>)
        requires
            ready(old(self), old(fb)),
        ensures
            r is Ok ==> forall|k: int| 0 <= k < arms@.len() ==> variant_in(final(self), #[trigger] arm_names(arms@)[k]),
            r is Ok ==> !arms_refused(arms@),
            r is Ok ==> stepped(old(self), final(self), old(fb), final(fb)),
            r matches Err(e) ==> lower_error(e),
        decreases arms@, 1int,
    {
        proof {
            lemma_grows_refl(self);
        }
        let tag = fb.fresh_tmp()?;
        fb.emit(Instr::VariantTag { dst: tag, recv: subj });
        let join = fb.new_block()?;
        let default = fb.new_block()?;
        let mut targets: Vec<(u32, u32)> = Vec::new();
        let mut blocks: Vec<u32> = Vec::new();
        let n = arms.len();
        let mut i: usize = 0;
        while i < n
            invariant
                n == arms@.len(),
                i <= n,
                old(self).grows(self),
                ready(self, fb),
                fb.scopes@.len() == old(fb).scopes@.len(),
                fb.blocks@.len() >= old(fb).blocks@.len(),
                fb.next_local >= old(fb).next_local,
                join < fb.blocks@.len(),
                default < fb.blocks@.len(),
                forall|kk: int| 0 <= kk < i ==> variant_in(self, #[trigger] arm_names(arms@)[kk]),
                targets@.len() == i,
                blocks@.len() == i,
                forall|k: int|
                    0 <= k < i ==> (#[trigger] targets@[k]).0 < self.nv() && targets@[k].1 < fb.blocks@.len(),
                forall|k: int| 0 <= k < i ==> #[trigger] blocks@[k] < fb.blocks@.len(),
            decreases n - i,
        {
            let ghost c1 = *self;
            let tid = self.intern_variant(arms[i].variant.as_str())?;
            proof {
                fb.lemma_grow(c1.ng(), c1.nv(), self.ng(), self.nv());
                lemma_grows_trans(old(self), &c1, self);
                lemma_variants_kept(&c1, self, arm_names(arms@).take(i as int));
                assert forall|kk: int| 0 <= kk < i + 1 implies variant_in(self, #[trigger] arm_names(arms@)[kk]) by {
                    if kk < i {
                        assert(arm_names(arms@).take(i as int)[kk] == arm_names(arms@)[kk]);
                    } else {
                        assert(self.variant_names@[tid as int]@ == arm_names(arms@)[kk]);
                    }
                }
            }
            let blk = fb.new_block()?;
            targets.push((tid, blk));
            blocks.push(blk);
            i = i + 1;
        }
        fb.set_term(Terminator::Switch { tag: Operand::Tmp(tag), arms: targets, default });
        fb.switch_to(default);
        fb.set_term(Terminator::Unreachable);
        let ghost cm = *self;
        proof {
            lemma_grows_refl(self);
        }
        let mut k: usize = 0;
        while k < n
            invariant
                n == arms@.len(),
                k <= n,
                cm.grows(self),
                forall|kk: int| 0 <= kk < n ==> variant_in(&cm, #[trigger] arm_names(arms@)[kk]),
                !arms_refused(arms@.take(k as int)),
                blocks@.len() == n,
                old(self).grows(self),
                ready(self, fb),
                fb.scopes@.len() == old(fb).scopes@.len(),
                fb.blocks@.len() >= old(fb).blocks@.len(),
                fb.next_local >= old(fb).next_local,
                join < fb.blocks@.len(),
                forall|q: int| 0 <= q < n ==> #[trigger] blocks@[q] < fb.blocks@.len(),
            decreases n - k,
        {
            let arm = &arms[k];
            fb.switch_to(blocks[k]);
            fb.push_scope();
            let nb = arm.bindings.len();
            let mut j: usize = 0;
            while j < nb
                invariant
                    k < n,
                    n == arms@.len(),
                    *arm == arms@[k as int],
                    nb == arm.bindings@.len(),
                    j <= nb,
                    ready(self, fb),
                    fb.scopes@.len() == old(fb).scopes@.len() + 1,
                    fb.blocks@.len() >= old(fb).blocks@.len(),
                    fb.next_local >= old(fb).next_local,
                    join < fb.blocks@.len(),
                    forall|q: int| 0 <= q < n ==> #[trigger] blocks@[q] < fb.blocks@.len(),
                decreases nb - j,
            {
                let dst = fb.fresh_tmp()?;
                fb.emit(Instr::VariantField { dst, recv: subj, index: j as u32 });
                let l = fb.declare_local(arm.bindings[j].as_str())?;
                fb.emit(Instr::StoreLocal { local: l, src: Operand::Tmp(dst) });
                j = j + 1;
            }
            let pd = fb.fresh_tmp()?;
            fb.emit(Instr::ProvenanceGlyph { dst: pd, recv: subj });
            let pl = fb.declare_local("provenance")?;
            fb.emit(Instr::StoreLocal { local: pl, src: Operand::Tmp(pd) });
            let nbody = arm.body.len();
            let mut q: usize = 0;
            while q < nbody
                invariant
                    k < n,
                    n == arms@.len(),
                    *arm == arms@[k as int],
                    nbody == arm.body@.len(),
                    q <= nbody,
                    cm.grows(self),
                    forall|kk: int| 0 <= kk < n ==> variant_in(&cm, #[trigger] arm_names(arms@)[kk]),
                    !block_refused(arm.body@.take(q as int)),
                    !arms_refused(arms@.take(k as int)),
                    old(self).grows(self),
                    ready(self, fb),
                    fb.scopes@.len() == old(fb).scopes@.len() + 1,
                    fb.blocks@.len() >= old(fb).blocks@.len(),
                    fb.next_local >= old(fb).next_local,
                    join < fb.blocks@.len(),
                    forall|p: int| 0 <= p < n ==> #[trigger] blocks@[p] < fb.blocks@.len(),
                decreases nbody - q,
            {
                let ghost c1 = *self;
                proof {
                    assert(decreases_to!(arms@ => arms@[k as int]));
                    assert(decreases_to!(arms@[k as int] => arms@[k as int].body));
                    assert(decreases_to!(arms@[k as int].body => arms@[k as int].body@));
                    assert(decreases_to!(arms@[k as int].body@ => arms@[k as int].body@[q as int]));
                }
                self.lower_stmt(fb, &arm.body[q])?;
                proof {
                    lemma_grows_trans(old(self), &c1, self);
                    lemma_grows_trans(&cm, &c1, self);
                }
                proof {
                    assert(arm.body@.take(q + 1).drop_last() =~= arm.body@.take(q as int));
                    assert(arm.body@.take(q + 1).last() == arm.body@[q as int]);
                }
                q = q + 1;
            }
            proof {
                assert(arm.body@.take(nbody as int) =~= arm.body@);
                assert(arms@.take(k + 1).drop_last() =~= arms@.take(k as int));
                assert(arms@.take(k + 1).last() == arms@[k as int]);
            }
            fb.pop_scope();
            fb.set_term(Terminator::Jump(join));
            k = k + 1;
        }
        proof {
            lemma_variants_kept(&cm, self, arm_names(arms@));
        }
        assert(arms@.take(n as int) =~= arms@);
        fb.switch_to(join);
        Ok(())
    }
}

/// The name and arity of each definition and familiar, in order.
pub open spec fn routines(items: Seq<Item>) -> Seq<(Seq<char>, nat)>
    decreases items.len(),
{
    if items.len() == 0 {
        Seq::empty()
    } else {
        routines(items.drop_last()) + match items.last() {
            Item::Define(f) => seq![(f.name@, f.params@.len())],
            Item::Familiar(f) => seq![(f.name@, f.params@.len())],
            _ => Seq::empty(),
        }
    }
}

pub open spec fn signatures(fs: Seq<Function>) -> Seq<(Seq<char>, nat)> {
    fs.map_values(|f: Function| (f.name@, f.params@.len()))
}

impl LowerCtx {
    /// The IR function of a definition or familiar: parameters are the
    /// first slots; the body falls through to return the value of its last
    /// expression statement (unit when there is none).
    fn lower_function(&mut self, name: &String, params: &Vec<Param>, body: &Vec<Stmt>) -> (r: Result<Function, Diagnostic>)
        requires
            old(self).inv(),
        ensures
            r matches Ok(f) ==> old(self).grows(final(self)) && function_wf(f, final(self).ng(), final(self).nv())
                && f.name@ == name@ && f.params@.len() == params@.len(),
            r matches Err(d) ==> lower_error(d),
    {
        let mut fb = FnBuilder::new();
        assert(fb.refs(self.ng(), self.nv()));
        fb.push_scope();
        let mut locals: Vec<u32> = Vec::new();
        let n = params.len();
        let mut i: usize = 0;
        while i < n
            invariant
                n == params@.len(),
                i <= n,
                self == old(self),
                ready(self, &fb),
                fb.scopes@.len() == 1,
                locals@.len() == i,
                forall|k: int| 0 <= k < i ==> #[trigger] locals@[k] < fb.next_local,
            decreases n - i,
        {
            let l = fb.declare_local(params[i].name.as_str())?;
            locals.push(l);
            i = i + 1;
        }
        let ghost f1 = fb;
        self.lower_block(&mut fb, body)?;
        let ret = fb.last_value;
        fb.set_term(Terminator::Return(ret));
        fb.pop_scope();
        let f = Function { name: name.clone(), params: locals, num_locals: fb.next_local, blocks: fb.blocks, entry: 0 };
        proof {
            assert forall|p: int| 0 <= p < f.params@.len() implies #[trigger] f.params@[p] < f.num_locals by {
                assert(locals@[p] < f1.next_local);
            }
        }
        Ok(f)
    }

    /// `main`: the top-level statements, in order, in one scope.
    fn lower_main(&mut self, items: &Vec<Item>) -> (r: Result<Function, Diagnostic>)
        requires
            old(self).inv(),
        ensures
            r matches Ok(f) ==> old(self).grows(final(self)) && function_wf(f, final(self).ng(), final(self).nv())
                && f.name@ == "main"@ && f.params@.len() == 0,
            r matches Err(d) ==> lower_error(d),
            constant_program(items@) ==> r is Ok,
            items@.len() == 0 ==> r is Ok,
    {
        proof {
            lemma_grows_refl(self);
        }
        let mut fb = FnBuilder::new();
        assert(fb.refs(self.ng(), self.nv()));
        fb.push_scope();
        fb.push_scope();
        let n = items.len();
        let mut i: usize = 0;
        while i < n
            invariant
                n == items@.len(),
                i <= n,
                old(self).grows(self),
                ready(self, &fb),
                fb.scopes@.len() == 2,
            decreases n - i,
        {
            if let Item::Stmt(st) = &items[i] {
                let ghost c1 = *self;
                self.lower_stmt(&mut fb, st)?;
                proof {
                    lemma_grows_trans(old(self), &c1, self);
                }
            }
            i = i + 1;
        }
        fb.pop_scope();
        let ret = fb.last_value;
        fb.set_term(Terminator::Return(ret));
        fb.pop_scope();
        let f = Function { name: owned("main"), params: Vec::new(), num_locals: fb.next_local, blocks: fb.blocks, entry: 0 };
        Ok(f)
    }
}

/// Lowers a type-checked program, optionally weakening every `divine` output
/// type to free text (as if the type were deleted): the compiled litmus
/// knob. The result is well formed (every block, slot, grammar and tag it
/// refers to exists), has one function per definition and familiar, and
/// every grammar is a site grammar.
pub fn lower_program_weaken(prog: &Program, weaken: bool) -> (r: Result<ir::Program, Diagnostic>)
    ensures
        r matches Ok(p) ==> program_wf(p) && signatures(p.functions@) == routines(prog.items@)
            && p.main.name@ == "main"@ && p.main.params@.len() == 0 && forall|i: int|
            0 <= i < p.grammars@.len() ==> site_grammar(#[trigger] p.grammars@[i], weaken),
        r matches Err(d) ==> lower_error(d),
        constant_program(prog.items@) ==> r is Ok,
        prog.items@.len() == 0 ==> r is Ok,
{
    let types = build_type_table(prog);
    let oracles = summon_table(prog);
    let ctx0 = LowerCtx { types, oracles, grammars: Vec::new(), variant_names: Vec::new(), weaken };
    let mut ctx = ctx0;
    let mut functions: Vec<Function> = Vec::new();
    let n = prog.items.len();
    let mut i: usize = 0;
    assert(prog.items@.take(0) =~= Seq::<Item>::empty());
    assert(signatures(functions@) =~= routines(prog.items@.take(0)));
    while i < n
        invariant
            n == prog.items@.len(),
            i <= n,
            ctx.inv(),
            ctx.weaken == weaken,
            forall|k: int| 0 <= k < functions@.len() ==> function_wf(#[trigger] functions@[k], ctx.ng(), ctx.nv()),
            signatures(functions@) == routines(prog.items@.take(i as int)),
        decreases n - i,
    {
        let ghost c0 = ctx;
        let ghost before = functions@;
        match &prog.items[i] {
            Item::Define(f) => {
                let func = ctx.lower_function(&f.name, &f.params, &f.body)?;
                functions.push(func);
            },
            Item::Familiar(f) => {
                let func = ctx.lower_function(&f.name, &f.params, &f.body)?;
                functions.push(func);
            },
            _ => {},
        }
        proof {
            assert forall|k: int| 0 <= k < before.len() implies function_wf(#[trigger] functions@[k], ctx.ng(), ctx.nv()) by {
                assert(functions@[k] == before[k]);
                lemma_function_wf_grow(before[k], c0.ng(), c0.nv(), ctx.ng(), ctx.nv());
            }
            let t = prog.items@.take(i + 1);
            assert(t.drop_last() =~= prog.items@.take(i as int));
            assert(t.last() == prog.items@[i as int]);
            assert(signatures(functions@) =~= routines(t));
        }
        i = i + 1;
    }
    assert(prog.items@.take(n as int) =~= prog.items@);
    let ghost c0 = ctx;
    let main = ctx.lower_main(&prog.items)?;
    proof {
        assert forall|k: int| 0 <= k < functions@.len() implies function_wf(#[trigger] functions@[k], ctx.ng(), ctx.nv()) by {
            lemma_function_wf_grow(functions@[k], c0.ng(), c0.nv(), ctx.ng(), ctx.nv());
        }
    }
    let p = ir::Program { functions, main, grammars: ctx.grammars, variant_names: ctx.variant_names };
    Ok(p)
}

/// Lowers a type-checked program (see `lower_program_weaken`).
pub fn lower_program(prog: &Program) -> (r: Result<ir::Program, Diagnostic>)
    ensures
        r matches Ok(p) ==> program_wf(p) && signatures(p.functions@) == routines(prog.items@)
            && p.main.name@ == "main"@ && p.main.params@.len() == 0 && forall|i: int|
            0 <= i < p.grammars@.len() ==> site_grammar(#[trigger] p.grammars@[i], false),
        r matches Err(d) ==> lower_error(d),
        constant_program(prog.items@) ==> r is Ok,
        prog.items@.len() == 0 ==> r is Ok,
{
    lower_program_weaken(prog, false)
}

} // verus!
