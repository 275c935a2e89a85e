//! Resolved types. `Inferred<T>` is a distinct type that is deliberately NOT
//! assignable to a plain `T` (it must be discharged first); refinements and
//! variants are structural.

use vstd::prelude::*;
use crate::num::Num;
use crate::text::{join, join_strings, owned, push_part, push_str, views};

verus! {

#[derive(Debug)]
pub struct Variant {
    pub name: String,
    pub fields: Vec<(String, Type)>,
}

#[derive(Debug)]
pub enum Type {
    /// Numeric, optionally refined to an inclusive range.
    Spark { lo: Option<Num>, hi: Option<Num> },
    Bool,
    Glyph,
    Oracle,
    Record(Vec<(String, Type)>),
    Sum(Vec<Variant>),
    /// A homogeneous list, optionally with a length range.
    List { elem: Box<Type>, lo: Option<Num>, hi: Option<Num> },
    /// An embedding vector of a given space (the producing model).
    Embedding(String),
    /// The result of inference: not assignable to the underlying type.
    Inferred(Box<Type>),
    Unit,
    /// Unannotated host values; assignable to and from anything.
    Unknown,
}

/// The text of an optional bound (`_` when absent).
pub open spec fn bound_text(b: Option<Num>) -> Seq<char> {
    match b {
        Some(n) => n.spec_text(),
        None => "_"@,
    }
}

pub open spec fn field_texts(fs: Seq<(String, Type)>) -> Seq<Seq<char>>
    decreases fs,
{
    if fs.len() == 0 {
        Seq::empty()
    } else {
        field_texts(fs.drop_last()).push(fs.last().0@ + ": "@ + type_text(fs.last().1))
    }
}

pub open spec fn variant_names_of(vs: Seq<Variant>) -> Seq<Seq<char>> {
    vs.map_values(|v: Variant| v.name@)
}

/// The themed, human-readable name of a type in diagnostics.
pub open spec fn type_text(t: Type) -> Seq<char>
    decreases t,
{
    match t {
        Type::Spark { lo, hi } => if lo is None && hi is None {
            "spark"@
        } else {
            "spark in "@ + bound_text(lo) + ".."@ + bound_text(hi)
        },
        Type::Bool => "bool"@,
        Type::Glyph => "glyph"@,
        Type::Oracle => "oracle"@,
        Type::Record(fields) => "{ "@ + join(field_texts(fields@), ", "@) + " }"@,
        Type::Sum(variants) => "one_of { "@ + join(variant_names_of(variants@), ", "@) + " }"@,
        Type::List { elem, lo, hi } => if lo is None && hi is None {
            "list of "@ + type_text(*elem)
        } else {
            "list of "@ + bound_text(lo) + ".."@ + bound_text(hi) + " of "@ + type_text(*elem)
        },
        Type::Embedding(space) => "embedding@"@ + space@,
        Type::Inferred(inner) => "Inferred<"@ + type_text(*inner) + ">"@,
        Type::Unit => "essence"@,
        Type::Unknown => "essence"@,
    }
}

/// The mathematical shape of a type: what two copies of a type share.
pub enum TypeV {
    Spark { lo: Option<Num>, hi: Option<Num> },
    Bool,
    Glyph,
    Oracle,
    Record(Seq<(Seq<char>, TypeV)>),
    /// Each variant by its name and its fields.
    Sum(Seq<(Seq<char>, Seq<(Seq<char>, TypeV)>)>),
    List { elem: Box<TypeV>, lo: Option<Num>, hi: Option<Num> },
    Embedding(Seq<char>),
    Inferred(Box<TypeV>),
    Unit,
    Unknown,
}

/// The shape of a type.
pub open spec fn type_v(t: Type) -> TypeV
    decreases t,
{
    match t {
        Type::Spark { lo, hi } => TypeV::Spark { lo, hi },
        Type::Bool => TypeV::Bool,
        Type::Glyph => TypeV::Glyph,
        Type::Oracle => TypeV::Oracle,
        Type::Record(fields) => TypeV::Record(fields_v(fields@)),
        Type::Sum(variants) => TypeV::Sum(variants_v(variants@)),
        Type::List { elem, lo, hi } => TypeV::List { elem: Box::new(type_v(*elem)), lo, hi },
        Type::Embedding(space) => TypeV::Embedding(space@),
        Type::Inferred(inner) => TypeV::Inferred(Box::new(type_v(*inner))),
        Type::Unit => TypeV::Unit,
        Type::Unknown => TypeV::Unknown,
    }
}

/// The shapes of named fields (or of a table of named types), in order.
pub open spec fn fields_v(fs: Seq<(String, Type)>) -> Seq<(Seq<char>, TypeV)>
    decreases fs,
{
    if fs.len() == 0 {
        Seq::empty()
    } else {
        fields_v(fs.drop_last()).push((fs.last().0@, type_v(fs.last().1)))
    }
}

/// The shapes of variants, in order.
pub open spec fn variants_v(vs: Seq<Variant>) -> Seq<(Seq<char>, Seq<(Seq<char>, TypeV)>)>
    decreases vs,
{
    if vs.len() == 0 {
        Seq::empty()
    } else {
        variants_v(vs.drop_last()).push((vs.last().name@, fields_v(vs.last().fields@)))
    }
}

pub proof fn lemma_fields_v_len(fs: Seq<(String, Type)>)
    ensures
        fields_v(fs).len() == fs.len(),
        forall|i: int| 0 <= i < fs.len() ==> #[trigger] fields_v(fs)[i] == (fs[i].0@, type_v(fs[i].1)),
    decreases fs.len(),
{
    if fs.len() > 0 {
        lemma_fields_v_len(fs.drop_last());
    }
}

pub proof fn lemma_variants_v_len(vs: Seq<Variant>)
    ensures
        variants_v(vs).len() == vs.len(),
        forall|i: int| 0 <= i < vs.len() ==> #[trigger] variants_v(vs)[i] == (vs[i].name@, fields_v(vs[i].fields@)),
    decreases vs.len(),
{
    if vs.len() > 0 {
        lemma_variants_v_len(vs.drop_last());
    }
}

/// The shape of the first field named `f`, or unknown when there is none.
pub open spec fn first_shape(fs: Seq<(Seq<char>, TypeV)>, f: Seq<char>) -> TypeV
    decreases fs.len(),
{
    if fs.len() == 0 {
        TypeV::Unknown
    } else if fs[0].0 == f {
        fs[0].1
    } else {
        first_shape(fs.drop_first(), f)
    }
}

/// The shape of the field `f` of a value of shape `t`, as a field access is
/// typed: the first field so named of a record; unknown otherwise (an
/// inferred value included, whose fields cannot be read).
pub open spec fn field_shape(t: TypeV, f: Seq<char>) -> TypeV {
    match t {
        TypeV::Record(fs) => first_shape(fs, f),
        _ => TypeV::Unknown,
    }
}

proof fn lemma_first_shape_at(vs: Seq<(Seq<char>, TypeV)>, f: Seq<char>, k: int)
    requires
        0 <= k < vs.len(),
        vs[k].0 == f,
        forall|m: int| 0 <= m < k ==> vs[m].0 != f,
    ensures
        first_shape(vs, f) == vs[k].1,
    decreases vs.len(),
{
    if k > 0 {
        let t = vs.drop_first();
        assert forall|m: int| 0 <= m < k - 1 implies t[m].0 != f by {
            assert(t[m] == vs[m + 1]);
        }
        lemma_first_shape_at(t, f, k - 1);
    }
}

proof fn lemma_first_shape_none(vs: Seq<(Seq<char>, TypeV)>, f: Seq<char>)
    requires
        forall|m: int| 0 <= m < vs.len() ==> vs[m].0 != f,
    ensures
        first_shape(vs, f) == TypeV::Unknown,
    decreases vs.len(),
{
    if vs.len() > 0 {
        let t = vs.drop_first();
        assert forall|m: int| 0 <= m < t.len() implies t[m].0 != f by {
            assert(t[m] == vs[m + 1]);
        }
        lemma_first_shape_none(t, f);
    }
}

/// The shape of the first field named `f` of `fs` is what `first_field`
/// finds there.
pub proof fn lemma_first_shape(fs: Seq<(String, Type)>, f: Seq<char>)
    ensures
        first_field(fs, f) >= 0 ==> first_shape(fields_v(fs), f) == type_v(fs[first_field(fs, f)].1),
        first_field(fs, f) < 0 ==> first_shape(fields_v(fs), f) == TypeV::Unknown,
{
    lemma_first_field(fs, f);
    lemma_fields_v_len(fs);
    let vs = fields_v(fs);
    let k = first_field(fs, f);
    if k >= 0 {
        assert(vs[k] == (fs[k].0@, type_v(fs[k].1)));
        assert forall|m: int| 0 <= m < k implies vs[m].0 != f by {
            assert(vs[m] == (fs[m].0@, type_v(fs[m].1)));
        }
        lemma_first_shape_at(vs, f, k);
    } else {
        assert forall|m: int| 0 <= m < vs.len() implies vs[m].0 != f by {
            assert(vs[m] == (fs[m].0@, type_v(fs[m].1)));
        }
        lemma_first_shape_none(vs, f);
    }
}

/// The first field of `fs` named `name`, or -1.
pub open spec fn first_field(fs: Seq<(String, Type)>, name: Seq<char>) -> int
    decreases fs.len(),
{
    if fs.len() == 0 {
        -1
    } else {
        let k = first_field(fs.drop_last(), name);
        if k >= 0 {
            k
        } else if fs.last().0@ == name {
            fs.len() - 1
        } else {
            -1
        }
    }
}

pub proof fn lemma_first_field(fs: Seq<(String, Type)>, name: Seq<char>)
    ensures
        -1 <= first_field(fs, name) < fs.len(),
        first_field(fs, name) >= 0 ==> fs[first_field(fs, name)].0@ == name,
        first_field(fs, name) < 0 ==> forall|i: int| 0 <= i < fs.len() ==> fs[i].0@ != name,
        first_field(fs, name) >= 0 ==> forall|i: int|
            0 <= i < first_field(fs, name) ==> fs[i].0@ != name,
    decreases fs.len(),
{
    if fs.len() > 0 {
        lemma_first_field(fs.drop_last(), name);
        assert forall|i: int| 0 <= i < fs.len() - 1 implies fs.drop_last()[i] == fs[i] by {}
    }
}

/// `[a, b]` lies within `[c, d]`; an absent bound is unbounded.
pub open spec fn range_within(a: Option<Num>, b: Option<Num>, c: Option<Num>, d: Option<Num>) -> bool {
    let lo_ok = match (c, a) {
        (None, _) => true,
        (Some(_), None) => false,
        (Some(c), Some(a)) => c.spec_le(a),
    };
    let hi_ok = match (d, b) {
        (None, _) => true,
        (Some(_), None) => false,
        (Some(d), Some(b)) => b.spec_le(d),
    };
    lo_ok && hi_ok
}

/// Is a value of type `a` usable where `b` is required?
pub open spec fn assignable(a: Type, b: Type) -> bool
    decreases a, 3int, 0int,
{
    match (a, b) {
        (Type::Unknown, _) => true,
        (_, Type::Unknown) => true,
        (Type::Spark { lo: x, hi: y }, Type::Spark { lo: c, hi: d }) => range_within(x, y, c, d),
        (Type::Bool, Type::Bool) => true,
        (Type::Glyph, Type::Glyph) => true,
        (Type::Oracle, Type::Oracle) => true,
        (Type::Unit, Type::Unit) => true,
        (Type::Record(fa), Type::Record(fb)) => records_fit(fa@, fb@),
        (Type::Sum(va), Type::Sum(vb)) => sums_fit(va@, vb@),
        (Type::Inferred(x), Type::Inferred(y)) => assignable(*x, *y),
        _ => false,
    }
}

/// A refined spark is usable where another is required exactly when the
/// target's bounds enclose it: each bound the target has, the source has
/// too, with the target's lower bound at most the source's and the source's
/// upper bound at most the target's. Narrowing either bound keeps a type
/// assignable; widening past the target rules it out.
pub proof fn lemma_spark_assignable(a: Option<Num>, b: Option<Num>, c: Option<Num>, d: Option<Num>)
    ensures
        assignable(Type::Spark { lo: a, hi: b }, Type::Spark { lo: c, hi: d }) <==> ((c matches Some(cv) ==> (
        a matches Some(av) && cv.spec_le(av))) && (d matches Some(dv) ==> (b matches Some(bv)
            && bv.spec_le(dv)))),
{
}

/// On whole-number bounds, `spark in a..b` fits `spark in c..d` exactly when
/// `c <= a` and `b <= d`.
pub proof fn lemma_whole_spark_assignable(a: Num, b: Num, c: Num, d: Num)
    requires
        a.spec_scale() == 0,
        b.spec_scale() == 0,
        c.spec_scale() == 0,
        d.spec_scale() == 0,
    ensures
        assignable(Type::Spark { lo: Some(a), hi: Some(b) }, Type::Spark { lo: Some(c), hi: Some(d) }) <==> (
        c.spec_mantissa() <= a.spec_mantissa() && b.spec_mantissa() <= d.spec_mantissa()),
{
    c.lemma_le_whole(a);
    b.lemma_le_whole(d);
}

/// Records of the same width where every target field, looked up by name
/// (first match) in the source, receives an assignable type.
pub open spec fn records_fit(fa: Seq<(String, Type)>, fb: Seq<(String, Type)>) -> bool
    decreases fa, 2int, 0int,
{
    &&& fa.len() == fb.len()
    &&& forall|j: int|
        #![trigger fb[j]]
        0 <= j < fb.len() ==> {
            let i = first_field(fa, fb[j].0@);
            0 <= i < fa.len() && assignable(fa[i].1, fb[j].1)
        }
}

/// Every variant of the source sum fits some variant of the target sum.
pub open spec fn sums_fit(va: Seq<Variant>, vb: Seq<Variant>) -> bool
    decreases va, 2int, 0int,
{
    if va.len() == 0 {
        true
    } else {
        sums_fit(va.drop_last(), vb) && fits_any(va.last(), vb)
    }
}

/// `v` fits some variant of `vb`.
pub open spec fn fits_any(v: Variant, vb: Seq<Variant>) -> bool
    decreases v, 1int, vb.len(),
{
    if vb.len() == 0 {
        false
    } else {
        fits_any(v, vb.drop_last()) || variant_fits(v, vb.last())
    }
}

/// A variant of the source sum exists in the target: same name, same arity,
/// and each payload field assignable positionally.
pub open spec fn variant_fits(v: Variant, w: Variant) -> bool
    decreases v, 0int, 0int,
{
    &&& v.name@ == w.name@
    &&& v.fields@.len() == w.fields@.len()
    &&& forall|k: int|
        0 <= k < v.fields@.len() ==> assignable(v.fields@[k].1, w.fields@[k].1)
}

/// A type made of parts that are each usable where they themselves are
/// required: no lists or embeddings (whose assignability is never granted),
/// and records whose field names are distinct.
pub open spec fn reflexive_shape(t: Type) -> bool
    decreases t, 1int,
{
    match t {
        Type::List { .. } => false,
        Type::Embedding(_) => false,
        Type::Record(fs) => distinct_names(fs@) && fields_reflexive(fs@),
        Type::Sum(vs) => variants_reflexive(vs@),
        Type::Inferred(x) => reflexive_shape(*x),
        _ => true,
    }
}

pub open spec fn distinct_names(fs: Seq<(String, Type)>) -> bool {
    forall|i: int, j: int| 0 <= i < j < fs.len() ==> fs[i].0@ != fs[j].0@
}

pub open spec fn fields_reflexive(fs: Seq<(String, Type)>) -> bool
    decreases fs, 0int,
{
    fs.len() == 0 || (fields_reflexive(fs.drop_last()) && reflexive_shape(fs.last().1))
}

pub open spec fn variants_reflexive(vs: Seq<Variant>) -> bool
    decreases vs, 0int,
{
    vs.len() == 0 || (variants_reflexive(vs.drop_last()) && fields_reflexive(vs.last().fields@))
}

proof fn lemma_fields_reflexive_at(fs: Seq<(String, Type)>, j: int)
    requires
        fields_reflexive(fs),
        0 <= j < fs.len(),
    ensures
        reflexive_shape(fs[j].1),
    decreases fs.len(),
{
    if j < fs.len() - 1 {
        assert(fs.drop_last()[j] == fs[j]);
        lemma_fields_reflexive_at(fs.drop_last(), j);
    }
}

proof fn lemma_variants_reflexive_at(vs: Seq<Variant>, j: int)
    requires
        variants_reflexive(vs),
        0 <= j < vs.len(),
    ensures
        fields_reflexive(vs[j].fields@),
    decreases vs.len(),
{
    if j < vs.len() - 1 {
        assert(vs.drop_last()[j] == vs[j]);
        lemma_variants_reflexive_at(vs.drop_last(), j);
    }
}

proof fn lemma_fits_any_at(v: Variant, vb: Seq<Variant>, k: int)
    requires
        0 <= k < vb.len(),
        variant_fits(v, vb[k]),
    ensures
        fits_any(v, vb),
    decreases vb.len(),
{
    if k < vb.len() - 1 {
        assert(vb.drop_last()[k] == vb[k]);
        lemma_fits_any_at(v, vb.drop_last(), k);
    }
}

proof fn lemma_sums_fit_all(va: Seq<Variant>, vb: Seq<Variant>)
    requires
        forall|i: int| 0 <= i < va.len() ==> fits_any(#[trigger] va[i], vb),
    ensures
        sums_fit(va, vb),
    decreases va.len(),
{
    if va.len() > 0 {
        assert forall|i: int| 0 <= i < va.drop_last().len() implies fits_any(#[trigger] va.drop_last()[i], vb) by {
            assert(va.drop_last()[i] == va[i]);
        }
        lemma_sums_fit_all(va.drop_last(), vb);
        assert(fits_any(va[va.len() - 1], vb));
    }
}

/// A type is usable where it itself is required, whenever it holds no list
/// or embedding and its records name their fields distinctly (a list or an
/// embedding is assignable only to or from an unknown type).
pub proof fn lemma_assignable_refl(t: Type)
    requires
        reflexive_shape(t),
    ensures
        assignable(t, t),
    decreases t,
{
    match t {
        Type::Spark { lo, hi } => {
            if let Some(l) = lo {
                l.lemma_le_refl();
            }
            if let Some(h) = hi {
                h.lemma_le_refl();
            }
            assert(range_within(lo, hi, lo, hi));
            assert(t == (Type::Spark { lo, hi }));
            assert(assignable(Type::Spark { lo, hi }, Type::Spark { lo, hi }));
        },
        Type::Record(fs) => {
            let s = fs@;
            assert forall|j: int| #![trigger s[j]] 0 <= j < s.len() implies {
                let i = first_field(s, s[j].0@);
                0 <= i < s.len() && assignable(s[i].1, s[j].1)
            } by {
                lemma_first_field(s, s[j].0@);
                let i = first_field(s, s[j].0@);
                if i < 0 {
                    assert(s[j].0@ != s[j].0@);
                }
                if i != j {
                    if i < j {
                        assert(s[i].0@ != s[j].0@);
                    } else {
                        assert(s[j].0@ != s[j].0@);
                    }
                }
                lemma_fields_reflexive_at(s, j);
                assert(decreases_to!(t => fs));
                assert(decreases_to!(fs => fs@));
                assert(decreases_to!(fs@ => fs@[j]));
                lemma_assignable_refl(s[j].1);
            }
            assert(records_fit(s, s));
            assert(assignable(t, t));
        },
        Type::Sum(vs) => {
            let s = vs@;
            assert forall|i: int| 0 <= i < s.len() implies fits_any(#[trigger] s[i], s) by {
                lemma_variants_reflexive_at(s, i);
                let f = s[i].fields@;
                assert forall|k: int| 0 <= k < f.len() implies assignable(f[k].1, f[k].1) by {
                    lemma_fields_reflexive_at(f, k);
                    assert(decreases_to!(t => vs));
                    assert(decreases_to!(vs => vs@));
                    assert(decreases_to!(vs@ => vs@[i]));
                    assert(decreases_to!(vs@[i] => vs@[i].fields));
                    assert(decreases_to!(vs@[i].fields => vs@[i].fields@));
                    assert(decreases_to!(vs@[i].fields@ => vs@[i].fields@[k]));
                    lemma_assignable_refl(f[k].1);
                }
                lemma_fits_any_at(s[i], s, i);
            }
            lemma_sums_fit_all(s, s);
            assert(assignable(t, t));
        },
        Type::Inferred(x) => {
            lemma_assignable_refl(*x);
        },
        _ => {},
    }
}

/// The headline rule: an inferred value is not usable as a plain value of
/// its underlying type; it must be discharged first.
pub proof fn lemma_inferred_not_assignable(t: Type)
    requires
        !(t is Unknown),
        !(t is Inferred),
    ensures
        !assignable(Type::Inferred(Box::new(t)), t),
{
}

/// An inferred value is usable where an inferred value is expected exactly
/// when its underlying type is.
pub proof fn lemma_inferred_to_inferred(a: Type, b: Type)
    ensures
        assignable(Type::Inferred(Box::new(a)), Type::Inferred(Box::new(b))) == assignable(a, b),
{
}

impl Type {
    pub fn spark() -> (t: Type)
        ensures
            t == (Type::Spark { lo: None, hi: None }),
    {
        Type::Spark { lo: None, hi: None }
    }

    /// Themed, human-readable name for diagnostics.
    pub fn display(&self) -> (r: String)
        ensures
            r@ == type_text(*self),
        decreases *self, 2int,
    {
        match self {
            Type::Spark { lo, hi } => {
                if lo.is_none() && hi.is_none() {
                    owned("spark")
                } else {
                    let mut s = owned("spark in ");
                    let l = bound_display(lo);
                    push_str(&mut s, l.as_str());
                    push_str(&mut s, "..");
                    let h = bound_display(hi);
                    push_str(&mut s, h.as_str());
                    s
                }
            },
            Type::Bool => owned("bool"),
            Type::Glyph => owned("glyph"),
            Type::Oracle => owned("oracle"),
            Type::Record(fields) => {
                let parts = field_displays(fields);
                let mut s = owned("{ ");
                let j = join_strings(&parts, ", ");
                push_str(&mut s, j.as_str());
                push_str(&mut s, " }");
                s
            },
            Type::Sum(variants) => {
                let mut names: Vec<String> = Vec::new();
                let n = variants.len();
                let mut i: usize = 0;
                while i < n
                    invariant
                        n == variants.len(),
                        i <= n,
                        views(names@) =~= variant_names_of(variants@).take(i as int),
                    decreases n - i,
                {
                    push_part(&mut names, variants[i].name.clone());
                    i = i + 1;
                }
                assert(variant_names_of(variants@).take(n as int) =~= variant_names_of(variants@));
                let mut s = owned("one_of { ");
                let j = join_strings(&names, ", ");
                push_str(&mut s, j.as_str());
                push_str(&mut s, " }");
                s
            },
            Type::List { elem, lo, hi } => {
                let e = elem.display();
                let mut s = owned("list of ");
                if !(lo.is_none() && hi.is_none()) {
                    let l = bound_display(lo);
                    push_str(&mut s, l.as_str());
                    push_str(&mut s, "..");
                    let h = bound_display(hi);
                    push_str(&mut s, h.as_str());
                    push_str(&mut s, " of ");
                }
                push_str(&mut s, e.as_str());
                s
            },
            Type::Embedding(space) => {
                let mut s = owned("embedding@");
                push_str(&mut s, space.as_str());
                s
            },
            Type::Inferred(inner) => {
                let i = inner.display();
                let mut s = owned("Inferred<");
                push_str(&mut s, i.as_str());
                push_str(&mut s, ">");
                s
            },
            Type::Unit => owned("essence"),
            Type::Unknown => owned("essence"),
        }
    }

    /// Is a value of type `self` usable where `target` is required?
    pub fn assignable_to(&self, target: &Type) -> (r: bool)
        ensures
            r == assignable(*self, *target),
        decreases *self, 3int, 0int,
    {
        if let Type::Unknown = self {
            return true;
        }
        if let Type::Unknown = target {
            return true;
        }
        match self {
            Type::Spark { lo: a, hi: b } => match target {
                Type::Spark { lo: c, hi: d } => range_within_exec(a, b, c, d),
                _ => false,
            },
            Type::Bool => matches!(target, Type::Bool),
            Type::Glyph => matches!(target, Type::Glyph),
            Type::Oracle => matches!(target, Type::Oracle),
            Type::Unit => matches!(target, Type::Unit),
            Type::Record(fa) => match target {
                Type::Record(fb) => records_assignable(fa, fb),
                _ => false,
            },
            Type::Sum(va) => match target {
                Type::Sum(vb) => sums_assignable(va, vb),
                _ => false,
            },
            Type::Inferred(a) => match target {
                Type::Inferred(b) => a.assignable_to(b),
                _ => false,
            },
            _ => false,
        }
    }
}

fn bound_display(b: &Option<Num>) -> (r: String)
    ensures
        r@ == bound_text(*b),
{
    match b {
        Some(n) => n.text(),
        None => owned("_"),
    }
}

fn field_displays(fields: &Vec<(String, Type)>) -> (r: Vec<String>)
    ensures
        views(r@) == field_texts(fields@),
    decreases fields@, 1int,
{
    let mut out: Vec<String> = Vec::new();
    let n = fields.len();
    let mut i: usize = 0;
    while i < n
        invariant
            n == fields.len(),
            i <= n,
            views(out@) == field_texts(fields@.take(i as int)),
        decreases n - i,
    {
        let t = fields[i].1.display();
        let mut s = fields[i].0.clone();
        push_str(&mut s, ": ");
        push_str(&mut s, t.as_str());
        push_part(&mut out, s);
        proof {
            let pre = fields@.take(i + 1);
            assert(pre.drop_last() =~= fields@.take(i as int));
        }
        i = i + 1;
    }
    assert(fields@.take(n as int) =~= fields@);
    out
}

fn range_within_exec(a: &Option<Num>, b: &Option<Num>, c: &Option<Num>, d: &Option<Num>) -> (r: bool)
    ensures
        r == range_within(*a, *b, *c, *d),
{
    let lo_ok = match (c, a) {
        (None, _) => true,
        (Some(_), None) => false,
        (Some(c), Some(a)) => c.le(a),
    };
    let hi_ok = match (d, b) {
        (None, _) => true,
        (Some(_), None) => false,
        (Some(d), Some(b)) => b.le(d),
    };
    lo_ok && hi_ok
}

/// The index of the first field named `name`, or `None`.
pub fn find_field(fs: &Vec<(String, Type)>, name: &String) -> (r: Option<usize>)
    ensures
        r is Some <==> first_field(fs@, name@) >= 0,
        r is Some ==> r->0 == first_field(fs@, name@) && r->0 < fs@.len(),
{
    proof {
        lemma_first_field(fs@, name@);
    }
    let n = fs.len();
    let mut i: usize = 0;
    while i < n
        invariant
            n == fs.len(),
            i <= n,
            forall|k: int| 0 <= k < i ==> fs@[k].0@ != name@,
            -1 <= first_field(fs@, name@) < fs@.len(),
            first_field(fs@, name@) >= 0 ==> fs@[first_field(fs@, name@)].0@ == name@,
            first_field(fs@, name@) < 0 ==> forall|k: int| 0 <= k < fs.len() ==> fs@[k].0@ != name@,
            first_field(fs@, name@) >= 0 ==> forall|k: int|
                0 <= k < first_field(fs@, name@) ==> fs@[k].0@ != name@,
        decreases n - i,
    {
        if fs[i].0 == *name {
            return Some(i);
        }
        i = i + 1;
    }
    None
}

fn records_assignable(fa: &Vec<(String, Type)>, fb: &Vec<(String, Type)>) -> (r: bool)
    ensures
        r == records_fit(fa@, fb@),
    decreases fa@, 1int, 0int,
{
    if fa.len() != fb.len() {
        return false;
    }
    let n = fb.len();
    let mut j: usize = 0;
    while j < n
        invariant
            n == fb.len(),
            fa.len() == fb.len(),
            j <= n,
            forall|jj: int|
                #![trigger fb@[jj]]
                0 <= jj < j ==> {
                    let i = first_field(fa@, fb@[jj].0@);
                    0 <= i < fa@.len() && assignable(fa@[i].1, fb@[jj].1)
                },
        decreases n - j,
    {
        match find_field(fa, &fb[j].0) {
            Some(i) => {
                if !fa[i].1.assignable_to(&fb[j].1) {
                    return false;
                }
            },
            None => {
                return false;
            },
        }
        j = j + 1;
    }
    true
}

fn variant_fits_exec(v: &Variant, w: &Variant) -> (r: bool)
    ensures
        r == variant_fits(*v, *w),
    decreases *v, 1int, 0int,
{
    if v.name != w.name || v.fields.len() != w.fields.len() {
        return false;
    }
    let n = v.fields.len();
    let mut k: usize = 0;
    while k < n
        invariant
            n == v.fields.len(),
            n == w.fields.len(),
            k <= n,
            forall|kk: int| 0 <= kk < k ==> assignable(v.fields@[kk].1, w.fields@[kk].1),
        decreases n - k,
    {
        if !v.fields[k].1.assignable_to(&w.fields[k].1) {
            return false;
        }
        k = k + 1;
    }
    true
}

fn sums_assignable(va: &Vec<Variant>, vb: &Vec<Variant>) -> (r: bool)
    ensures
        r == sums_fit(va@, vb@),
    decreases va@, 1int, 0int,
{
    let n = va.len();
    let mut i: usize = 0;
    while i < n
        invariant
            n == va.len(),
            i <= n,
            sums_fit(va@.take(i as int), vb@),
        decreases n - i,
    {
        let f = fits_some(&va[i], vb);
        proof {
            let pre = va@.take(i + 1);
            assert(pre.drop_last() =~= va@.take(i as int));
            assert(pre.last() == va@[i as int]);
        }
        if !f {
            proof {
                lemma_sums_fit_prefix(va@, vb@, (i + 1) as nat);
            }
            return false;
        }
        i = i + 1;
    }
    assert(va@.take(n as int) =~= va@);
    true
}

/// A sum fits only if every prefix of it fits.
proof fn lemma_sums_fit_prefix(va: Seq<Variant>, vb: Seq<Variant>, k: nat)
    requires
        k <= va.len(),
    ensures
        sums_fit(va, vb) ==> sums_fit(va.take(k as int), vb),
    decreases va.len() - k,
{
    if k < va.len() {
        lemma_sums_fit_prefix(va, vb, k + 1);
        let pre = va.take(k + 1int);
        assert(pre.drop_last() =~= va.take(k as int));
    } else {
        assert(va.take(k as int) =~= va);
    }
}

/// Does `v` fit some variant of `vb`?
fn fits_some(v: &Variant, vb: &Vec<Variant>) -> (r: bool)
    ensures
        r == fits_any(*v, vb@),
    decreases *v, 2int, 0int,
{
    let m = vb.len();
    let mut k: usize = 0;
    while k < m
        invariant
            m == vb.len(),
            k <= m,
            !fits_any(*v, vb@.take(k as int)),
        decreases m - k,
    {
        let fit = variant_fits_exec(v, &vb[k]);
        proof {
            let pre = vb@.take(k + 1);
            assert(pre.drop_last() =~= vb@.take(k as int));
            assert(pre.last() == vb@[k as int]);
        }
        if fit {
            proof {
                lemma_fits_any_prefix(*v, vb@, (k + 1) as nat);
            }
            return true;
        }
        k = k + 1;
    }
    assert(vb@.take(m as int) =~= vb@);
    false
}

/// Fitting a prefix of `vb` means fitting `vb`.
proof fn lemma_fits_any_prefix(v: Variant, vb: Seq<Variant>, k: nat)
    requires
        k <= vb.len(),
    ensures
        fits_any(v, vb.take(k as int)) ==> fits_any(v, vb),
    decreases vb.len() - k,
{
    if k < vb.len() {
        lemma_fits_any_prefix(v, vb, k + 1);
        let pre = vb.take(k + 1int);
        assert(pre.drop_last() =~= vb.take(k as int));
    } else {
        assert(vb.take(k as int) =~= vb);
    }
}

/// A copy of a type.
pub fn clone_type(t: &Type) -> (r: Type)
    ensures
        r is Inferred <==> t is Inferred,
        type_v(r) == type_v(*t),
    decreases *t, 2int,
{
    match t {
        Type::Spark { lo, hi } => Type::Spark { lo: *lo, hi: *hi },
        Type::Bool => Type::Bool,
        Type::Glyph => Type::Glyph,
        Type::Oracle => Type::Oracle,
        Type::Record(fields) => Type::Record(clone_fields(fields)),
        Type::Sum(variants) => Type::Sum(clone_variants(variants)),
        Type::List { elem, lo, hi } => Type::List { elem: Box::new(clone_type(elem)), lo: *lo, hi: *hi },
        Type::Embedding(s) => Type::Embedding(s.clone()),
        Type::Inferred(inner) => Type::Inferred(Box::new(clone_type(inner))),
        Type::Unit => Type::Unit,
        Type::Unknown => Type::Unknown,
    }
}

fn clone_variants(variants: &Vec<Variant>) -> (r: Vec<Variant>)
    ensures
        variants_v(r@) == variants_v(variants@),
    decreases variants@, 1int,
{
    let mut out: Vec<Variant> = Vec::new();
    let n = variants.len();
    let mut i: usize = 0;
    while i < n
        invariant
            n == variants.len(),
            i <= n,
            variants_v(out@) == variants_v(variants@.take(i as int)),
        decreases n - i,
    {
        let v = clone_variant(&variants[i]);
        let ghost pre = out@;
        out.push(v);
        proof {
            assert(out@.drop_last() =~= pre);
            assert(variants@.take(i + 1).drop_last() =~= variants@.take(i as int));
        }
        i = i + 1;
    }
    assert(variants@.take(n as int) =~= variants@);
    out
}

fn clone_variant(v: &Variant) -> (r: Variant)
    ensures
        r.name@ == v.name@,
        fields_v(r.fields@) == fields_v(v.fields@),
    decreases *v, 0int,
{
    Variant { name: v.name.clone(), fields: clone_fields(&v.fields) }
}

fn clone_fields(fields: &Vec<(String, Type)>) -> (r: Vec<(String, Type)>)
    ensures
        fields_v(r@) == fields_v(fields@),
    decreases fields@, 1int,
{
    let mut out: Vec<(String, Type)> = Vec::new();
    let n = fields.len();
    let mut i: usize = 0;
    while i < n
        invariant
            n == fields.len(),
            i <= n,
            fields_v(out@) == fields_v(fields@.take(i as int)),
        decreases n - i,
    {
        let pair = (fields[i].0.clone(), clone_type(&fields[i].1));
        let ghost pre = out@;
        out.push(pair);
        proof {
            assert(out@.drop_last() =~= pre);
            assert(fields@.take(i + 1).drop_last() =~= fields@.take(i as int));
        }
        i = i + 1;
    }
    assert(fields@.take(n as int) =~= fields@);
    out
}

} // verus!
