//! The deterministic mock decoder: seeded, yet it honours the grammar, so a
//! value outside the output type is unreachable. Confidence is reported as the
//! 53-bit numerator of a fraction of `2^53` (a value in `[0, 1)`).

use vstd::prelude::*;
use crate::grammar::{Grammar, GrammarVariant};
use crate::text::push_char;

verus! {

pub const SPLITMIX_GAMMA: u64 = 0x9E37_79B9_7F4A_7C15;

/// SplitMix64 — a small, deterministic PRNG.
#[derive(Clone, Debug)]
pub struct Rng {
    state: u64,
}

/// One SplitMix64 step from `state`: the next state and the output.
pub open spec fn splitmix(state: u64) -> (u64, u64) {
    let s = state.wrapping_add(SPLITMIX_GAMMA);
    let z1 = (s ^ (s >> 30u64)).wrapping_mul(0xBF58_476D_1CE4_E5B9u64);
    let z2 = (z1 ^ (z1 >> 27u64)).wrapping_mul(0x94D0_49BB_1331_11EBu64);
    (s, z2 ^ (z2 >> 31u64))
}

impl Rng {
    pub closed spec fn spec_state(&self) -> u64 {
        self.state
    }

    pub fn new(seed: u64) -> (r: Rng)
        ensures
            r.spec_state() == seed.wrapping_add(SPLITMIX_GAMMA),
    {
        Rng { state: seed.wrapping_add(SPLITMIX_GAMMA) }
    }

    pub fn next_u64(&mut self) -> (r: u64)
        ensures
            (final(self).spec_state(), r) == splitmix(old(self).spec_state()),
    {
        self.state = self.state.wrapping_add(SPLITMIX_GAMMA);
        let mut z = self.state;
        z = (z ^ (z >> 30u64)).wrapping_mul(0xBF58_476D_1CE4_E5B9u64);
        z = (z ^ (z >> 27u64)).wrapping_mul(0x94D0_49BB_1331_11EBu64);
        z ^ (z >> 31u64)
    }

    /// A draw in `0..n` (0 when `n` is 0).
    pub fn below(&mut self, n: u64) -> (r: u64)
        ensures
            n == 0 ==> r == 0 && final(self).spec_state() == old(self).spec_state(),
            n > 0 ==> r == splitmix(old(self).spec_state()).1 % n && final(self).spec_state()
                == splitmix(old(self).spec_state()).0,
    {
        if n == 0 {
            0
        } else {
            self.next_u64() % n
        }
    }
}

/// (Re)seeds a decoder's generator for a new run.
pub fn reset(rng: &mut Rng, seed: u64)
    ensures
        final(rng).spec_state() == seed.wrapping_add(SPLITMIX_GAMMA),
        final(rng).spec_state() == seeded(seed),
{
    *rng = Rng::new(seed);
}

/// A generated value, in the shape of the grammar it was generated under.
#[derive(Debug)]
pub enum GenValue {
    Spark(i64),
    Bool(bool),
    Glyph(String),
    Record(Vec<(String, GenValue)>),
    Variant(String, Vec<(String, GenValue)>),
    List(Vec<GenValue>),
}

/// Generation is possible under `g`: list length ranges are well formed and
/// every variant set is non-empty. (An empty number range yields its lower
/// bound.)
pub open spec fn generable(g: Grammar) -> bool
    decreases g, 1int,
{
    match g {
        Grammar::Number { .. } => true,
        Grammar::Bool => true,
        Grammar::Text { .. } => true,
        Grammar::Record(fields) => fields_generable(fields@),
        Grammar::OneOf(variants) => variants@.len() > 0 && variants_generable(variants@),
        Grammar::List { elem, lo, hi } => lo <= hi && generable(*elem),
    }
}

pub open spec fn fields_generable(fs: Seq<(String, Grammar)>) -> bool
    decreases fs, 0int,
{
    fs.len() == 0 || (fields_generable(fs.drop_last()) && generable(fs.last().1))
}

pub open spec fn variants_generable(vs: Seq<GrammarVariant>) -> bool
    decreases vs, 0int,
{
    vs.len() == 0 || (variants_generable(vs.drop_last()) && fields_generable(vs.last().fields@))
}

/// A number is drawn uniformly by position: from generator state `state`
/// the value is `lo` plus one SplitMix64 output reduced modulo the count of
/// integers in `lo..=hi` (so `hi` itself is reachable), and the generator
/// advances by one step; an empty range (`lo > hi`) gives `lo`, still
/// advancing by one step.
pub proof fn lemma_number_draw(lo: i64, hi: i64, state: u64)
    requires
        hi - lo < 0xFFFF_FFFF_FFFF_FFFF,
    ensures
        lo <= hi ==> gen_spec(Grammar::Number { lo, hi }, state) == (
            GenView::Spark((lo + splitmix(state).1 % ((hi - lo + 1) as u64)) as i64),
            splitmix(state).0,
        ),
        lo <= hi ==> lo <= lo + splitmix(state).1 % ((hi - lo + 1) as u64) <= hi,
        hi < lo ==> gen_spec(Grammar::Number { lo, hi }, state) == (GenView::Spark(lo), splitmix(state).0),
{
    if lo <= hi {
        let w = (hi as i128 - lo as i128) as u64;
        assert(w as int == hi - lo);
        let span: u64 = (w + 1) as u64;
        assert(span as int == hi - lo + 1);
        let r = splitmix(state).1 % span;
        assert(r < span);
        assert((lo as i128 + r as i128) as int == lo + r);
    } else {
        assert(splitmix(state).1 % 1 == 0);
    }
}

/// A refined `spark` with whole bounds compiles to the integer range between
/// them, both ends included, so every value generated at such a site lies
/// inside the refinement.
pub proof fn lemma_spark_site_stays_in_range(a: crate::num::Num, b: crate::num::Num, g: Grammar, v: GenValue)
    requires
        a.spec_scale() == 0,
        b.spec_scale() == 0,
        a.spec_mantissa() <= b.spec_mantissa(),
        crate::grammar::compiles_to(crate::types::Type::Spark { lo: Some(a), hi: Some(b) }, g),
    ensures
        g matches Grammar::Number { lo, hi } && lo == a.spec_mantissa() && hi == b.spec_mantissa(),
        inhabits(g, v) ==> (v matches GenValue::Spark(n) && a.spec_mantissa() <= n <= b.spec_mantissa()),
{
    a.lemma_floor_whole();
    b.lemma_floor_whole();
}

/// An unrefined `spark` compiles to `0..=100`, and a `glyph` to text of at
/// most 16 letters.
pub proof fn lemma_plain_sites(g: Grammar, h: Grammar)
    requires
        crate::grammar::compiles_to(crate::types::Type::Spark { lo: None, hi: None }, g),
        crate::grammar::compiles_to(crate::types::Type::Glyph, h),
    ensures
        g == (Grammar::Number { lo: 0, hi: 100 }),
        h == (Grammar::Text { max_len: 16 }),
{
}

/// A lowercase ASCII letter.
pub open spec fn is_lower(c: char) -> bool {
    'a' <= c && c <= 'z'
}

/// `v` inhabits the grammar `g`: numbers lie in their range (an empty range
/// `lo > hi` gives `lo`), text is 1 to
/// `max(max_len, 1)` lowercase letters, records keep their field names in
/// order, a variant is one of the declared ones with its declared fields, and
/// a list's length lies within its bounds.
pub open spec fn inhabits(g: Grammar, v: GenValue) -> bool
    decreases v, 2int, 0nat,
{
    match (g, v) {
        (Grammar::Number { lo, hi }, GenValue::Spark(n)) => if lo <= hi {
            lo <= n <= hi
        } else {
            n == lo
        },
        (Grammar::Bool, GenValue::Bool(_)) => true,
        (Grammar::Text { max_len }, GenValue::Glyph(s)) => {
            &&& 1 <= s@.len()
            &&& s@.len() <= (if max_len < 1 { 1 } else { max_len })
            &&& forall|i: int| 0 <= i < s@.len() ==> is_lower(#[trigger] s@[i])
        },
        (Grammar::Record(gs), GenValue::Record(vs)) => fields_inhabit(gs@, vs@),
        (Grammar::OneOf(gvs), GenValue::Variant(name, vs)) => variant_inhabits(gvs@, name@, vs@),
        (Grammar::List { elem, lo, hi }, GenValue::List(items)) => lo <= items@.len() <= hi
            && items_inhabit(*elem, items@),
        _ => false,
    }
}

pub open spec fn fields_inhabit(gs: Seq<(String, Grammar)>, vs: Seq<(String, GenValue)>) -> bool
    decreases vs, 0int, 0nat,
{
    &&& gs.len() == vs.len()
    &&& (vs.len() == 0 || (fields_inhabit(gs.drop_last(), vs.drop_last()) && gs.last().0@
        == vs.last().0@ && inhabits(gs.last().1, vs.last().1)))
}

/// Some declared variant is named `name` and has these fields.
pub open spec fn variant_inhabits(gvs: Seq<GrammarVariant>, name: Seq<char>, vs: Seq<(String, GenValue)>) -> bool
    decreases vs, 1int, gvs.len(),
{
    if gvs.len() == 0 {
        false
    } else {
        variant_inhabits(gvs.drop_last(), name, vs) || (gvs.last().name@ == name && fields_inhabit(
            gvs.last().fields@,
            vs,
        ))
    }
}

pub open spec fn items_inhabit(elem: Grammar, items: Seq<GenValue>) -> bool
    decreases items, 0int, 0nat,
{
    items.len() == 0 || (items_inhabit(elem, items.drop_last()) && inhabits(elem, items.last()))
}

proof fn lemma_variant_inhabits(gvs: Seq<GrammarVariant>, k: int, vs: Seq<(String, GenValue)>)
    requires
        0 <= k < gvs.len(),
        fields_inhabit(gvs[k].fields@, vs),
    ensures
        variant_inhabits(gvs, gvs[k].name@, vs),
    decreases gvs.len(),
{
    if k < gvs.len() - 1 {
        assert(gvs.drop_last()[k] == gvs[k]);
        lemma_variant_inhabits(gvs.drop_last(), k, vs);
    }
}

// ------------------------------------------------------------ what is generated

/// A generated value as the specification sees it.
pub enum GenView {
    Spark(i64),
    Bool(bool),
    Glyph(Seq<char>),
    Record(Seq<(Seq<char>, GenView)>),
    Variant(Seq<char>, Seq<(Seq<char>, GenView)>),
    List(Seq<GenView>),
}

pub open spec fn gen_view(v: GenValue) -> GenView
    decreases v, 1int,
{
    match v {
        GenValue::Spark(n) => GenView::Spark(n),
        GenValue::Bool(b) => GenView::Bool(b),
        GenValue::Glyph(s) => GenView::Glyph(s@),
        GenValue::Record(fs) => GenView::Record(fields_view(fs@)),
        GenValue::Variant(name, fs) => GenView::Variant(name@, fields_view(fs@)),
        GenValue::List(items) => GenView::List(items_view(items@)),
    }
}

pub open spec fn fields_view(fs: Seq<(String, GenValue)>) -> Seq<(Seq<char>, GenView)>
    decreases fs, 0int,
{
    if fs.len() == 0 {
        Seq::empty()
    } else {
        fields_view(fs.drop_last()).push((fs.last().0@, gen_view(fs.last().1)))
    }
}

pub open spec fn items_view(items: Seq<GenValue>) -> Seq<GenView>
    decreases items, 0int,
{
    if items.len() == 0 {
        Seq::empty()
    } else {
        items_view(items.drop_last()).push(gen_view(items.last()))
    }
}

/// A draw in `0..n` from `state`: the draw and the next state (no step
/// when `n` is 0).
pub open spec fn draw(state: u64, n: u64) -> (u64, u64) {
    if n == 0 {
        (0, state)
    } else {
        (splitmix(state).1 % n, splitmix(state).0)
    }
}

/// `n` lowercase letters drawn in turn from `state`, and the state after.
pub open spec fn letters(state: u64, n: nat) -> (Seq<char>, u64)
    decreases n,
{
    if n == 0 {
        (Seq::empty(), state)
    } else {
        let (prev, s1) = letters(state, (n - 1) as nat);
        let (d, s2) = draw(s1, 26);
        (prev.push(((97u64 + d) as u8) as char), s2)
    }
}

/// What the decoder generates under `g` from generator state `state`, and
/// the state after: a number is drawn across its range, a boolean from two,
/// text is a drawn length of drawn letters, a record's fields in order, a
/// variant drawn among the declared ones and then its fields, a list a drawn
/// length of elements.
pub open spec fn gen_spec(g: Grammar, state: u64) -> (GenView, u64)
    decreases g, 1int, 0nat,
{
    match g {
        Grammar::Number { lo, hi } => {
            let width: u64 = if lo <= hi {
                (hi as i128 - lo as i128) as u64
            } else {
                0
            };
            let span = if width == u64::MAX { width } else { (width + 1) as u64 };
            let (d, s1) = draw(state, span);
            (GenView::Spark((lo as i128 + d as i128) as i64), s1)
        },
        Grammar::Bool => {
            let (d, s1) = draw(state, 2);
            (GenView::Bool(d == 1), s1)
        },
        Grammar::Text { max_len } => {
            let cap: u64 = if max_len < 1 { 1 } else { max_len as u64 };
            let (d, s1) = draw(state, cap);
            let (cs, s2) = letters(s1, (1 + d) as nat);
            (GenView::Glyph(cs), s2)
        },
        Grammar::Record(fields) => {
            let (fs, s1) = fields_spec(fields@, state);
            (GenView::Record(fs), s1)
        },
        Grammar::OneOf(variants) => {
            let (idx, s1) = draw(state, variants@.len() as u64);
            if idx < variants@.len() {
                let (fs, s2) = fields_spec(variants@[idx as int].fields@, s1);
                (GenView::Variant(variants@[idx as int].name@, fs), s2)
            } else {
                (GenView::Variant(Seq::empty(), Seq::empty()), s1)
            }
        },
        Grammar::List { elem, lo, hi } => {
            let span = ((hi - lo) + 1) as u64;
            let (d, s1) = draw(state, span);
            let (items, s2) = items_spec(*elem, (lo as u64 + d) as nat, s1);
            (GenView::List(items), s2)
        },
    }
}

pub open spec fn fields_spec(fs: Seq<(String, Grammar)>, state: u64) -> (Seq<(Seq<char>, GenView)>, u64)
    decreases fs, 2int, 0nat,
{
    if fs.len() == 0 {
        (Seq::empty(), state)
    } else {
        let (prev, s1) = fields_spec(fs.drop_last(), state);
        let (v, s2) = gen_spec(fs.last().1, s1);
        (prev.push((fs.last().0@, v)), s2)
    }
}

pub open spec fn items_spec(elem: Grammar, n: nat, state: u64) -> (Seq<GenView>, u64)
    decreases elem, 2int, n,
{
    if n == 0 {
        (Seq::empty(), state)
    } else {
        let (v, s1) = gen_spec(elem, state);
        let (rest, s2) = items_spec(elem, (n - 1) as nat, s1);
        (seq![v] + rest, s2)
    }
}

/// The state a generator starts from, or is reset to, under `seed`.
pub open spec fn seeded(seed: u64) -> u64 {
    seed.wrapping_add(SPLITMIX_GAMMA)
}

/// One decode under `g` from generator state `state`: the value, the
/// confidence and the state after.
pub open spec fn decode_step(g: Grammar, state: u64) -> (GenView, u64, u64) {
    let (v, s1) = gen_spec(g, state);
    (v, splitmix(s1).1 >> 11u64, splitmix(s1).0)
}

/// The outcomes (value and confidence) of decoding `gs` in turn from
/// `state`, and the state after them.
pub open spec fn decode_run(gs: Seq<Grammar>, state: u64) -> (Seq<(GenView, u64)>, u64)
    decreases gs.len(),
{
    if gs.len() == 0 {
        (Seq::empty(), state)
    } else {
        let (prev, s1) = decode_run(gs.drop_last(), state);
        let (v, c, s2) = decode_step(gs.last(), s1);
        (prev.push((v, c)), s2)
    }
}

/// A run goes on from where it stopped: decoding `gs` and then `g` gives
/// the outcomes of `gs` followed by one decode of `g` from the state `gs`
/// left.
pub proof fn lemma_run_extends(gs: Seq<Grammar>, g: Grammar, state: u64)
    ensures
        decode_run(gs.push(g), state).0 == decode_run(gs, state).0.push(
            (decode_step(g, decode_run(gs, state).1).0, decode_step(g, decode_run(gs, state).1).1),
        ),
        decode_run(gs.push(g), state).1 == decode_step(g, decode_run(gs, state).1).2,
{
    assert(gs.push(g).drop_last() =~= gs);
}

/// A decoder's whole output is fixed by its seed: two decoders made (or
/// reset) with one seed give the same outcomes, call by call, for any
/// sequence of grammars, whatever either did before the reset.
pub proof fn lemma_one_seed_one_stream(seed: u64, d1: MockDecoder, d2: MockDecoder, gs: Seq<Grammar>)
    requires
        d1.spec_state() == seeded(seed),
        d2.spec_state() == seeded(seed),
    ensures
        decode_run(gs, d1.spec_state()) == decode_run(gs, d2.spec_state()),
        decode_run(gs, d1.spec_state()) == decode_run(gs, seeded(seed)),
{
}

/// The deterministic, grammar-respecting mock decoder.
pub struct MockDecoder {
    rng: Rng,
}

impl MockDecoder {
    pub closed spec fn spec_state(&self) -> u64 {
        self.rng.spec_state()
    }

    pub fn new(seed: u64) -> (d: MockDecoder)
        ensures
            d.spec_state() == seed.wrapping_add(SPLITMIX_GAMMA),
            d.spec_state() == seeded(seed),
    {
        MockDecoder { rng: Rng::new(seed) }
    }

    /// Generates a value that inhabits `grammar`, and a confidence (the
    /// numerator of a fraction of `2^53`).
    pub fn decode(&mut self, grammar: &Grammar) -> (r: (GenValue, u64))
        requires
            generable(*grammar),
        ensures
            inhabits(*grammar, r.0),
            r.1 < 0x20_0000_0000_0000,
            gen_view(r.0) == gen_spec(*grammar, old(self).spec_state()).0,
            r.1 == splitmix(gen_spec(*grammar, old(self).spec_state()).1).1 >> 11u64,
            final(self).spec_state() == splitmix(gen_spec(*grammar, old(self).spec_state()).1).0,
            (gen_view(r.0), r.1, final(self).spec_state()) == decode_step(*grammar, old(self).spec_state()),
    {
        let value = gen_value(&mut self.rng, grammar);
        let bits = self.rng.next_u64();
        let confidence = bits >> 11u64;
        assert(bits >> 11u64 < 0x20_0000_0000_0000u64) by (bit_vector);
        (value, confidence)
    }
}

/// Generates a value inhabiting `g`: the constraint is structural, so an
/// illegal value cannot be produced.
pub fn gen_value(rng: &mut Rng, g: &Grammar) -> (v: GenValue)
    requires
        generable(*g),
    ensures
        inhabits(*g, v),
        (gen_view(v), final(rng).spec_state()) == gen_spec(*g, old(rng).spec_state()),
    decreases *g, 1int, 0nat,
{
    match g {
        Grammar::Number { lo, hi } => {
            let width: u64 = if *lo <= *hi {
                (*hi as i128 - *lo as i128) as u64
            } else {
                0
            };
            let span: u64 = if width == u64::MAX {
                width
            } else {
                width + 1
            };
            let d = rng.below(span);
            let n: i64 = (*lo as i128 + d as i128) as i64;
            GenValue::Spark(n)
        },
        Grammar::Bool => GenValue::Bool(rng.below(2) == 1),
        Grammar::Text { max_len } => {
            let cap: u64 = if *max_len < 1 {
                1
            } else {
                *max_len as u64
            };
            let ghost s0 = rng.spec_state();
            let len = 1 + rng.below(cap);
            let ghost s1 = rng.spec_state();
            let mut s = String::new();
            let mut i: u64 = 0;
            assert(s@ =~= letters(s1, 0).0);
            while i < len
                invariant
                    i <= len,
                    1 <= len <= cap,
                    s@.len() == i,
                    forall|k: int| 0 <= k < s@.len() ==> is_lower(#[trigger] s@[k]),
                    (s@, rng.spec_state()) == letters(s1, i as nat),
                decreases len - i,
            {
                let ghost st = rng.spec_state();
                let idx = rng.below(26);
                let c = ((97u64 + idx) as u8) as char;
                let ghost before = s@;
                push_char(&mut s, c);
                assert(s@ =~= before.push(c));
                assert(s@[i as int] == c);
                assert forall|k: int| 0 <= k < s@.len() implies is_lower(#[trigger] s@[k]) by {
                    if k < i {
                        assert(s@[k] == before[k]);
                    }
                }
                i = i + 1;
            }
            GenValue::Glyph(s)
        },
        Grammar::Record(fields) => GenValue::Record(gen_fields(rng, fields)),
        Grammar::OneOf(variants) => {
            let idx = rng.below(variants.len() as u64) as usize;
            let fs = gen_variant_fields(rng, variants, idx);
            let name = variants[idx].name.clone();
            proof {
                lemma_variant_inhabits(variants@, idx as int, fs@);
            }
            GenValue::Variant(name, fs)
        },
        Grammar::List { elem, lo, hi } => {
            let span: u64 = (*hi - *lo) as u64 + 1;
            let n: u64 = *lo as u64 + rng.below(span);
            let mut out: Vec<GenValue> = Vec::new();
            gen_items(rng, elem, n, &mut out);
            assert(items_view(out@) =~= items_view(Seq::<GenValue>::empty()) + items_view(out@));
            GenValue::List(out)
        },
    }
}

/// Appends `n` values inhabiting `elem`.
fn gen_items(rng: &mut Rng, elem: &Grammar, n: u64, out: &mut Vec<GenValue>)
    requires
        generable(*elem),
        items_inhabit(*elem, old(out)@),
    ensures
        final(out)@.len() == old(out)@.len() + n,
        items_inhabit(*elem, final(out)@),
        items_view(final(out)@) == items_view(old(out)@) + items_spec(*elem, n as nat, old(rng).spec_state()).0,
        final(rng).spec_state() == items_spec(*elem, n as nat, old(rng).spec_state()).1,
    decreases *elem, 2int, n,
{
    if n > 0 {
        let v = gen_value(rng, elem);
        let ghost before = out@;
        out.push(v);
        assert(out@.drop_last() =~= before);
        let ghost mid = out@;
        gen_items(rng, elem, n - 1, out);
        proof {
            assert(items_view(mid) =~= items_view(before).push(gen_view(v)));
            let sp = items_spec(*elem, n as nat, old(rng).spec_state());
            assert(items_view(out@) =~= items_view(before) + sp.0);
        }
    } else {
        assert(items_view(out@) =~= items_view(old(out)@) + Seq::<GenView>::empty());
    }
}

fn gen_variant_fields(rng: &mut Rng, variants: &Vec<GrammarVariant>, idx: usize) -> (fs: Vec<(String, GenValue)>)
    requires
        idx < variants.len(),
        variants_generable(variants@),
    ensures
        fields_inhabit(variants@[idx as int].fields@, fs@),
        (fields_view(fs@), final(rng).spec_state()) == fields_spec(variants@[idx as int].fields@, old(rng).spec_state()),
    decreases variants@, 2int, 0nat,
{
    proof {
        lemma_variants_generable(variants@, idx as int);
    }
    gen_variant(rng, &variants[idx])
}

proof fn lemma_variants_generable(vs: Seq<GrammarVariant>, k: int)
    requires
        0 <= k < vs.len(),
        variants_generable(vs),
    ensures
        fields_generable(vs[k].fields@),
    decreases vs.len(),
{
    if k < vs.len() - 1 {
        assert(vs.drop_last()[k] == vs[k]);
        lemma_variants_generable(vs.drop_last(), k);
    }
}

fn gen_variant(rng: &mut Rng, v: &GrammarVariant) -> (fs: Vec<(String, GenValue)>)
    requires
        fields_generable(v.fields@),
    ensures
        fields_inhabit(v.fields@, fs@),
        (fields_view(fs@), final(rng).spec_state()) == fields_spec(v.fields@, old(rng).spec_state()),
    decreases *v, 2int, 0nat,
{
    gen_fields(rng, &v.fields)
}

fn gen_fields(rng: &mut Rng, fields: &Vec<(String, Grammar)>) -> (fs: Vec<(String, GenValue)>)
    requires
        fields_generable(fields@),
    ensures
        fields_inhabit(fields@, fs@),
        (fields_view(fs@), final(rng).spec_state()) == fields_spec(fields@, old(rng).spec_state()),
    decreases fields@, 2int, 0nat,
{
    let ghost st0 = rng.spec_state();
    let mut out: Vec<(String, GenValue)> = Vec::new();
    let n = fields.len();
    let mut i: usize = 0;
    assert(fields@.take(0) =~= Seq::<(String, Grammar)>::empty());
    assert(fields_view(out@) =~= Seq::<(Seq<char>, GenView)>::empty());
    while i < n
        invariant
            n == fields.len(),
            i <= n,
            fields_generable(fields@),
            fields_inhabit(fields@.take(i as int), out@),
            st0 == old(rng).spec_state(),
            (fields_view(out@), rng.spec_state()) == fields_spec(fields@.take(i as int), st0),
        decreases n - i,
    {
        proof {
            lemma_fields_generable(fields@, i as int);
            assert(fields@.take(i + 1).drop_last() =~= fields@.take(i as int));
            assert(fields@.take(i + 1).last() == fields@[i as int]);
        }
        let v = gen_value(rng, &fields[i].1);
        let ghost before = out@;
        out.push((fields[i].0.clone(), v));
        assert(out@.drop_last() =~= before);
        i = i + 1;
    }
    assert(fields@.take(n as int) =~= fields@);
    out
}

proof fn lemma_fields_generable(fs: Seq<(String, Grammar)>, k: int)
    requires
        0 <= k < fs.len(),
        fields_generable(fs),
    ensures
        generable(fs[k].1),
    decreases fs.len(),
{
    if k < fs.len() - 1 {
        assert(fs.drop_last()[k] == fs[k]);
        lemma_fields_generable(fs.drop_last(), k);
    }
}

} // verus!
