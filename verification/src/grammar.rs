//! Generation grammars: what an output type compiles to so that generation can
//! only produce values the type admits.

use vstd::prelude::*;
use crate::error::{Diagnostic, Stage};
use crate::num::Num;
use crate::span::Span;
use crate::text::{owned, push_str, push_u64};
use crate::types::{Type, Variant};

verus! {

/// Default upper bound for an unrefined `spark` output.
pub const SPARK_DEFAULT_HI: i64 = 100;
/// Bounded-text length for `glyph` outputs.
pub const GLYPH_MAX_LEN: usize = 16;
/// Maximum upper bound for a generated list.
pub const LIST_MAX_HI: u32 = 16;

#[derive(Debug)]
pub enum Grammar {
    /// Inclusive integer range.
    Number { lo: i64, hi: i64 },
    Bool,
    /// Bounded free text; also the form of an absent type constraint.
    Text { max_len: usize },
    Record(Vec<(String, Grammar)>),
    OneOf(Vec<GrammarVariant>),
    /// Between `lo` and `hi` (inclusive) elements, each inhabiting `elem`.
    List { elem: Box<Grammar>, lo: u32, hi: u32 },
}

#[derive(Debug)]
pub struct GrammarVariant {
    pub name: String,
    pub fields: Vec<(String, Grammar)>,
}

/// The integer part of an optional bound, or `default` when absent.
pub open spec fn bound_or(b: Option<Num>, default: int) -> int {
    match b {
        Some(n) => n.spec_floor() as int,
        None => default,
    }
}

/// Can `t` be the output type of a `divine` (does it compile to a grammar)?
pub open spec fn compilable(t: Type) -> bool
    decreases t, 1int,
{
    match t {
        Type::Spark { .. } => true,
        Type::Bool => true,
        Type::Glyph => true,
        Type::Record(fields) => fields_compilable(fields@),
        Type::Sum(variants) => variants_compilable(variants@),
        Type::List { elem, lo, hi } => match (lo, hi) {
            (Some(l), Some(h)) => l.spec_floor() <= h.spec_floor() && h.spec_floor()
                <= LIST_MAX_HI && compilable(*elem),
            _ => false,
        },
        _ => false,
    }
}

pub open spec fn fields_compilable(fs: Seq<(String, Type)>) -> bool
    decreases fs, 0int,
{
    fs.len() == 0 || (fields_compilable(fs.drop_last()) && compilable(fs.last().1))
}

pub open spec fn variants_compilable(vs: Seq<Variant>) -> bool
    decreases vs, 0int,
{
    vs.len() == 0 || (variants_compilable(vs.drop_last()) && fields_compilable(
        vs.last().fields@,
    ))
}

/// `g` is the generation grammar of type `t`: ranges and list bounds are the
/// integer parts of the refinement (an unrefined `spark` is `0..100`), a
/// `glyph` is bounded text, and records, variants and lists keep their
/// names, order and structure.
pub open spec fn compiles_to(t: Type, g: Grammar) -> bool
    decreases t, 1int,
{
    match (t, g) {
        (Type::Spark { lo, hi }, Grammar::Number { lo: gl, hi: gh }) => gl == bound_or(lo, 0)
            && gh == bound_or(hi, SPARK_DEFAULT_HI as int),
        (Type::Bool, Grammar::Bool) => true,
        (Type::Glyph, Grammar::Text { max_len }) => max_len == GLYPH_MAX_LEN,
        (Type::Record(fs), Grammar::Record(gs)) => fields_compile_to(fs@, gs@),
        (Type::Sum(vs), Grammar::OneOf(gvs)) => variants_compile_to(vs@, gvs@),
        (Type::List { elem, lo, hi }, Grammar::List { elem: ge, lo: gl, hi: gh }) => lo is Some
            && hi is Some && gl == lo->0.spec_floor() && gh == hi->0.spec_floor() && compiles_to(
            *elem,
            *ge,
        ),
        _ => false,
    }
}

pub open spec fn fields_compile_to(fs: Seq<(String, Type)>, gs: Seq<(String, Grammar)>) -> bool
    decreases fs, 0int,
{
    &&& fs.len() == gs.len()
    &&& (fs.len() == 0 || (fields_compile_to(fs.drop_last(), gs.drop_last()) && fs.last().0@
        == gs.last().0@ && compiles_to(fs.last().1, gs.last().1)))
}

pub open spec fn variants_compile_to(vs: Seq<Variant>, gs: Seq<GrammarVariant>) -> bool
    decreases vs, 0int,
{
    &&& vs.len() == gs.len()
    &&& (vs.len() == 0 || (variants_compile_to(vs.drop_last(), gs.drop_last()) && vs.last().name@
        == gs.last().name@ && fields_compile_to(vs.last().fields@, gs.last().fields@)))
}

/// Compiles a type into its generation grammar. With `weaken`, the type is
/// treated as absent and the grammar is bounded free text: this is how
/// "delete the type" is modelled for the litmus test.
pub fn compile(ty: &Type, weaken: bool, span: Span) -> (r: Result<Grammar, Diagnostic>)
    ensures
        weaken ==> r is Ok && r->Ok_0 == (Grammar::Text { max_len: GLYPH_MAX_LEN }),
        !weaken ==> (r is Ok <==> compilable(*ty)),
        !weaken && r is Ok ==> compiles_to(*ty, r->Ok_0),
        r is Err ==> r->Err_0.stage == Stage::Type,
{
    if weaken {
        return Ok(Grammar::Text { max_len: GLYPH_MAX_LEN });
    }
    compile_type(ty, span)
}

fn floor_i64(n: &Num) -> (r: i64)
    ensures
        r == n.spec_floor(),
{
    let f = n.floor();
    f as i64
}

fn compile_type(ty: &Type, span: Span) -> (r: Result<Grammar, Diagnostic>)
    ensures
        r is Ok <==> compilable(*ty),
        r is Ok ==> compiles_to(*ty, r->Ok_0),
        r is Err ==> r->Err_0.stage == Stage::Type,
    decreases *ty, 2int,
{
    match ty {
        Type::Spark { lo, hi } => {
            let gl = match lo {
                Some(n) => floor_i64(n),
                None => 0,
            };
            let gh = match hi {
                Some(n) => floor_i64(n),
                None => SPARK_DEFAULT_HI,
            };
            Ok(Grammar::Number { lo: gl, hi: gh })
        },
        Type::Bool => Ok(Grammar::Bool),
        Type::Glyph => Ok(Grammar::Text { max_len: GLYPH_MAX_LEN }),
        Type::Record(fields) => {
            let gs = compile_fields(fields, span)?;
            Ok(Grammar::Record(gs))
        },
        Type::Sum(variants) => {
            let gvs = compile_variants(variants, span)?;
            Ok(Grammar::OneOf(gvs))
        },
        Type::List { elem, lo, hi } => {
            match (lo, hi) {
                (Some(l), Some(h)) => {
                    let lo_n = l.floor();
                    let hi_n = h.floor();
                    if hi_n < lo_n {
                        let mut m = owned("list bound ");
                        push_u64(&mut m, lo_n);
                        push_str(&mut m, "..");
                        push_u64(&mut m, hi_n);
                        push_str(&mut m, " is not a valid length range");
                        return Err(Diagnostic::type_error(m, span));
                    }
                    if hi_n > LIST_MAX_HI as u64 {
                        let mut m = owned("list upper bound ");
                        push_u64(&mut m, hi_n);
                        push_str(&mut m, " exceeds the generation cap of 16 (use a smaller bound; large bounds blow up the generation grammar)");
                        return Err(Diagnostic::type_error(m, span));
                    }
                    let ge = compile_type(elem, span)?;
                    Ok(Grammar::List { elem: Box::new(ge), lo: lo_n as u32, hi: hi_n as u32 })
                },
                _ => {
                    let mut m = owned("unbounded `");
                    let d = ty.display();
                    push_str(&mut m, d.as_str());
                    push_str(&mut m, "` cannot be a `divine` output type; give an explicit length bound (e.g. `list of 0..4 of ...`) so generation is bounded");
                    Err(Diagnostic::type_error(m, span))
                },
            }
        },
        _ => {
            let mut m = owned("type `");
            let d = ty.display();
            push_str(&mut m, d.as_str());
            push_str(&mut m, "` cannot be a `divine` output type");
            Err(Diagnostic::type_error(m, span))
        },
    }
}

fn compile_fields(fields: &Vec<(String, Type)>, span: Span) -> (r: Result<Vec<(String, Grammar)>, Diagnostic>)
    ensures
        r is Ok <==> fields_compilable(fields@),
        r is Ok ==> fields_compile_to(fields@, r->Ok_0@),
        r is Err ==> r->Err_0.stage == Stage::Type,
    decreases fields@, 1int,
{
    let mut out: Vec<(String, Grammar)> = Vec::new();
    let n = fields.len();
    let mut i: usize = 0;
    while i < n
        invariant
            n == fields.len(),
            i <= n,
            fields_compilable(fields@.take(i as int)),
            fields_compile_to(fields@.take(i as int), out@),
        decreases n - i,
    {
        let ghost pre = fields@.take(i + 1);
        proof {
            assert(pre.drop_last() =~= fields@.take(i as int));
        }
        let g = match compile_type(&fields[i].1, span) {
            Ok(g) => g,
            Err(d) => {
                proof {
                    lemma_fields_compilable_prefix(fields@, (i + 1) as nat);
                }
                return Err(d);
            },
        };
        let ghost before = out@;
        out.push((fields[i].0.clone(), g));
        proof {
            assert(out@.drop_last() =~= before);
        }
        i = i + 1;
    }
    assert(fields@.take(n as int) =~= fields@);
    Ok(out)
}

proof fn lemma_fields_compilable_prefix(fs: Seq<(String, Type)>, k: nat)
    requires
        k <= fs.len(),
    ensures
        fields_compilable(fs) ==> fields_compilable(fs.take(k as int)),
    decreases fs.len() - k,
{
    if k < fs.len() {
        lemma_fields_compilable_prefix(fs, k + 1);
        assert(fs.take(k + 1int).drop_last() =~= fs.take(k as int));
    } else {
        assert(fs.take(k as int) =~= fs);
    }
}

proof fn lemma_variants_compilable_prefix(vs: Seq<Variant>, k: nat)
    requires
        k <= vs.len(),
    ensures
        variants_compilable(vs) ==> variants_compilable(vs.take(k as int)),
    decreases vs.len() - k,
{
    if k < vs.len() {
        lemma_variants_compilable_prefix(vs, k + 1);
        assert(vs.take(k + 1int).drop_last() =~= vs.take(k as int));
    } else {
        assert(vs.take(k as int) =~= vs);
    }
}

fn compile_variant(v: &Variant, span: Span) -> (r: Result<GrammarVariant, Diagnostic>)
    ensures
        r is Ok <==> fields_compilable(v.fields@),
        r is Ok ==> r->Ok_0.name@ == v.name@ && fields_compile_to(v.fields@, r->Ok_0.fields@),
        r is Err ==> r->Err_0.stage == Stage::Type,
    decreases *v, 0int,
{
    let fs = compile_fields(&v.fields, span)?;
    Ok(GrammarVariant { name: v.name.clone(), fields: fs })
}

fn compile_variants(variants: &Vec<Variant>, span: Span) -> (r: Result<Vec<GrammarVariant>, Diagnostic>)
    ensures
        r is Ok <==> variants_compilable(variants@),
        r is Ok ==> variants_compile_to(variants@, r->Ok_0@),
        r is Err ==> r->Err_0.stage == Stage::Type,
    decreases variants@, 1int,
{
    let mut out: Vec<GrammarVariant> = Vec::new();
    let n = variants.len();
    let mut i: usize = 0;
    while i < n
        invariant
            n == variants.len(),
            i <= n,
            variants_compilable(variants@.take(i as int)),
            variants_compile_to(variants@.take(i as int), out@),
        decreases n - i,
    {
        let ghost pre = variants@.take(i + 1);
        proof {
            assert(pre.drop_last() =~= variants@.take(i as int));
        }
        let g = match compile_variant(&variants[i], span) {
            Ok(g) => g,
            Err(d) => {
                proof {
                    lemma_variants_compilable_prefix(variants@, (i + 1) as nat);
                }
                return Err(d);
            },
        };
        let ghost before = out@;
        out.push(g);
        proof {
            assert(out@.drop_last() =~= before);
        }
        i = i + 1;
    }
    assert(variants@.take(n as int) =~= variants@);
    Ok(out)
}

} // verus!
