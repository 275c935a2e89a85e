//! Reading an engine's JSON answer as a value of the site's grammar. Real
//! engines answer in one of three shapes for a variant: a bare name (`"Name"`),
//! a tagged object (`{"tag": "Name", fields...}`) or a nested key
//! (`{"Name": {fields...}}`).

use vstd::prelude::*;
use crate::decoder::{fields_view, gen_view, items_view, GenValue, GenView};
use crate::grammar::{Grammar, GrammarVariant};
use serde_json::Value as V;

verus! {

/// A parsed JSON document, as far as a grammar can read it: integers that fit
/// in `i64` are kept, every other number is `Other`.
pub enum Json {
    Null,
    Bool(bool),
    Int(i64),
    Other,
    Str(String),
    Arr(Vec<Json>),
    Obj(Vec<(String, Json)>),
}

pub enum JsonV {
    Null,
    Bool(bool),
    Int(i64),
    Other,
    Str(Seq<char>),
    Arr(Seq<JsonV>),
    Obj(Seq<(Seq<char>, JsonV)>),
}

pub open spec fn json_view(j: Json) -> JsonV
    decreases j, 1int,
{
    match j {
        Json::Null => JsonV::Null,
        Json::Bool(b) => JsonV::Bool(b),
        Json::Int(n) => JsonV::Int(n),
        Json::Other => JsonV::Other,
        Json::Str(s) => JsonV::Str(s@),
        Json::Arr(items) => JsonV::Arr(jsons_view(items@)),
        Json::Obj(es) => JsonV::Obj(entries_view(es@)),
    }
}

pub open spec fn jsons_view(items: Seq<Json>) -> Seq<JsonV>
    decreases items, 0int,
{
    if items.len() == 0 {
        Seq::empty()
    } else {
        jsons_view(items.drop_last()).push(json_view(items.last()))
    }
}

pub open spec fn entries_view(es: Seq<(String, Json)>) -> Seq<(Seq<char>, JsonV)>
    decreases es, 0int,
{
    if es.len() == 0 {
        Seq::empty()
    } else {
        entries_view(es.drop_last()).push((es.last().0@, json_view(es.last().1)))
    }
}

pub open spec fn opt_json_view(j: Option<Json>) -> Option<JsonV> {
    match j {
        Some(x) => Some(json_view(x)),
        None => None,
    }
}

pub open spec fn opt_gen_view(v: Option<GenValue>) -> Option<GenView> {
    match v {
        Some(x) => Some(gen_view(x)),
        None => None,
    }
}

/// The document that `serde_json` parses from `text`, if `text` is JSON.
pub uninterp spec fn json_of(text: Seq<char>) -> Option<JsonV>;

/// The value of key `k` in a JSON object (the last entry so named).
pub open spec fn entry_of(es: Seq<(Seq<char>, JsonV)>, k: Seq<char>) -> Option<JsonV>
    decreases es.len(),
{
    if es.len() == 0 {
        None
    } else if es.last().0 == k {
        Some(es.last().1)
    } else {
        entry_of(es.drop_last(), k)
    }
}

/// A key looks up the last entry with that key (a later duplicate replaces
/// an earlier one), and nothing when no entry has it.
pub proof fn lemma_entry_is_last_with_key(es: Seq<(Seq<char>, JsonV)>, k: Seq<char>)
    ensures
        entry_of(es, k) matches Some(x) ==> exists|i: int|
            0 <= i < es.len() && #[trigger] es[i] == (k, x) && forall|m: int| i < m < es.len() ==> es[m].0 != k,
        entry_of(es, k) is None ==> forall|i: int| 0 <= i < es.len() ==> (#[trigger] es[i]).0 != k,
    decreases es.len(),
{
    if es.len() > 0 {
        let pre = es.drop_last();
        lemma_entry_is_last_with_key(pre, k);
        if es.last().0 == k {
            assert(es[es.len() - 1] == (k, es.last().1));
        } else {
            if entry_of(es, k) is Some {
                let x = entry_of(es, k)->Some_0;
                let i = choose|i: int| 0 <= i < pre.len() && #[trigger] pre[i] == (k, x) && forall|m: int| i < m < pre.len() ==> pre[m].0 != k;
                assert(es[i] == pre[i]);
                assert forall|m: int| i < m < es.len() implies es[m].0 != k by {
                    if m < pre.len() {
                        assert(es[m] == pre[m]);
                    }
                }
            } else {
                assert forall|i: int| 0 <= i < es.len() implies (#[trigger] es[i]).0 != k by {
                    if i < pre.len() {
                        assert(es[i] == pre[i]);
                    }
                }
            }
        }
    }
}

/// `j.get(k)`: the value of key `k` where `j` is an object.
pub open spec fn get_v(j: JsonV, k: Seq<char>) -> Option<JsonV> {
    match j {
        JsonV::Obj(es) => entry_of(es, k),
        _ => None,
    }
}

/// The first variant from `i` on named `s` and without fields, or -1.
pub open spec fn find_bare(vs: Seq<GrammarVariant>, s: Seq<char>, i: int) -> int
    decreases vs.len() - i,
{
    if i < 0 || i >= vs.len() {
        -1
    } else if vs[i].name@ == s && vs[i].fields@.len() == 0 {
        i
    } else {
        find_bare(vs, s, i + 1)
    }
}

/// The first variant from `i` on named `s`, or -1.
pub open spec fn find_named(vs: Seq<GrammarVariant>, s: Seq<char>, i: int) -> int
    decreases vs.len() - i,
{
    if i < 0 || i >= vs.len() {
        -1
    } else if vs[i].name@ == s {
        i
    } else {
        find_named(vs, s, i + 1)
    }
}

/// The first variant from `i` on whose name is a key of `j`, or -1.
pub open spec fn find_nested(vs: Seq<GrammarVariant>, j: JsonV, i: int) -> int
    decreases vs.len() - i,
{
    if i < 0 || i >= vs.len() {
        -1
    } else if get_v(j, vs[i].name@) is Some {
        i
    } else {
        find_nested(vs, j, i + 1)
    }
}

/// The value a JSON document gives under a grammar: an integer for a
/// number, a boolean, a string for text, an object's fields for a record, an
/// array's items for a list, and a variant in any of the three shapes (a bare
/// name picks a field-less variant; a tag or a nested key reads the payload
/// fields). Ranges and lengths are not checked here.
pub open spec fn json_value(j: JsonV, g: Grammar) -> Option<GenView>
    decreases g, 0int,
{
    match g {
        Grammar::Number { .. } => match j {
            JsonV::Int(n) => Some(GenView::Spark(n)),
            _ => None,
        },
        Grammar::Bool => match j {
            JsonV::Bool(b) => Some(GenView::Bool(b)),
            _ => None,
        },
        Grammar::Text { .. } => match j {
            JsonV::Str(s) => Some(GenView::Glyph(s)),
            _ => None,
        },
        Grammar::Record(fields) => match fields_value(j, fields@) {
            Some(fs) => Some(GenView::Record(fs)),
            None => None,
        },
        Grammar::OneOf(vs) => variant_value(j, vs@),
        Grammar::List { elem, .. } => match j {
            JsonV::Arr(items) => match items_value(items, *elem) {
                Some(xs) => Some(GenView::List(xs)),
                None => None,
            },
            _ => None,
        },
    }
}

/// Scalars read as themselves: a JSON integer under a number grammar is that
/// integer, a JSON string under a text grammar is that text, and nothing else
/// reads under either.
pub proof fn lemma_scalars_read_as_themselves(j: JsonV, lo: i64, hi: i64, max_len: usize)
    ensures
        j matches JsonV::Int(n) ==> json_value(j, Grammar::Number { lo, hi }) == Some(GenView::Spark(n)),
        !(j is Int) ==> json_value(j, Grammar::Number { lo, hi }) is None,
        j matches JsonV::Str(s) ==> json_value(j, Grammar::Text { max_len }) == Some(GenView::Glyph(s)),
        !(j is Str) ==> json_value(j, Grammar::Text { max_len }) is None,
{
}

/// Under the boolean grammar exactly the JSON booleans are read, each as the
/// boolean it is: `true` as true and `false` as false.
pub proof fn lemma_bool_reads_as_itself(j: JsonV)
    ensures
        j matches JsonV::Bool(b) ==> json_value(j, Grammar::Bool) == Some(GenView::Bool(b)),
        !(j is Bool) ==> json_value(j, Grammar::Bool) is None,
        json_value(JsonV::Bool(true), Grammar::Bool) != json_value(JsonV::Bool(false), Grammar::Bool),
{
}

/// Each field read from the object `j` under its grammar, in the grammar's
/// order; `None` if a key is absent or its value does not read.
pub open spec fn fields_value(j: JsonV, fs: Seq<(String, Grammar)>) -> Option<Seq<(Seq<char>, GenView)>>
    decreases fs, 0int,
{
    if fs.len() == 0 {
        Some(Seq::empty())
    } else {
        match fields_value(j, fs.drop_last()) {
            Some(pre) => match get_v(j, fs.last().0@) {
                Some(x) => match json_value(x, fs.last().1) {
                    Some(v) => Some(pre.push((fs.last().0@, v))),
                    None => None,
                },
                None => None,
            },
            None => None,
        }
    }
}

/// An object reads under a record grammar field by field: each field of the
/// grammar, in order and under its own name, is the reading of the object's
/// value for that key under the field's grammar.
pub proof fn lemma_fields_read_by_key(j: JsonV, fs: Seq<(String, Grammar)>)
    ensures
        fields_value(j, fs) matches Some(vs) ==> vs.len() == fs.len() && forall|i: int|
            0 <= i < fs.len() ==> (#[trigger] vs[i]).0 == fs[i].0@ && (get_v(j, fs[i].0@) matches Some(x)
                && json_value(x, fs[i].1) == Some(vs[i].1)),
    decreases fs.len(),
{
    if fs.len() > 0 {
        let pre = fs.drop_last();
        lemma_fields_read_by_key(j, pre);
        if fields_value(j, fs) is Some {
            let vs = fields_value(j, fs)->Some_0;
            let ps = fields_value(j, pre)->Some_0;
            assert forall|i: int| 0 <= i < fs.len() implies (#[trigger] vs[i]).0 == fs[i].0@ && (get_v(j, fs[i].0@) matches Some(x)
                && json_value(x, fs[i].1) == Some(vs[i].1)) by {
                if i < pre.len() {
                    assert(fs[i] == pre[i]);
                    assert(vs[i] == ps[i]);
                }
            }
        }
    }
}

pub open spec fn items_value(items: Seq<JsonV>, elem: Grammar) -> Option<Seq<GenView>>
    decreases elem, items.len(),
{
    if items.len() == 0 {
        Some(Seq::empty())
    } else {
        match items_value(items.drop_last(), elem) {
            Some(pre) => match json_value(items.last(), elem) {
                Some(v) => Some(pre.push(v)),
                None => None,
            },
            None => None,
        }
    }
}

/// A JSON array reads item by item: it reads exactly when every item reads
/// under the element grammar, and then to as many values, each the reading
/// of the item at its position.
pub proof fn lemma_items_read_each(items: Seq<JsonV>, elem: Grammar)
    ensures
        items_value(items, elem) matches Some(xs) ==> xs.len() == items.len() && forall|i: int|
            0 <= i < items.len() ==> json_value(#[trigger] items[i], elem) == Some(xs[i]),
        items_value(items, elem) is Some <==> forall|i: int|
            0 <= i < items.len() ==> (#[trigger] json_value(items[i], elem)) is Some,
    decreases items.len(),
{
    if items.len() > 0 {
        let pre = items.drop_last();
        lemma_items_read_each(pre, elem);
        assert forall|i: int| 0 <= i < pre.len() implies pre[i] == items[i] by {}
        if items_value(items, elem) is Some {
            let xs = items_value(items, elem)->Some_0;
            let ps = items_value(pre, elem)->Some_0;
            assert forall|i: int| 0 <= i < items.len() implies json_value(#[trigger] items[i], elem) == Some(xs[i]) by {
                if i < pre.len() {
                    assert(json_value(pre[i], elem) == Some(ps[i]));
                }
            }
        }
        if forall|i: int| 0 <= i < items.len() ==> (#[trigger] json_value(items[i], elem)) is Some {
            assert forall|i: int| 0 <= i < pre.len() implies (#[trigger] json_value(pre[i], elem)) is Some by {
                assert(json_value(items[i], elem) is Some);
            }
            assert(json_value(items[items.len() - 1], elem) is Some);
        }
    }
}

pub open spec fn variant_value(j: JsonV, vs: Seq<GrammarVariant>) -> Option<GenView>
    decreases vs, 1int,
{
    match j {
        JsonV::Str(s) => {
            let k = find_bare(vs, s, 0);
            if 0 <= k < vs.len() {
                Some(GenView::Variant(vs[k].name@, Seq::empty()))
            } else {
                None
            }
        },
        _ => match get_v(j, "tag"@) {
            Some(JsonV::Str(tag)) => {
                let k = find_named(vs, tag, 0);
                if 0 <= k < vs.len() {
                    match fields_value(j, vs[k].fields@) {
                        Some(fs) => Some(GenView::Variant(vs[k].name@, fs)),
                        None => None,
                    }
                } else {
                    None
                }
            },
            _ => {
                let k = find_nested(vs, j, 0);
                if 0 <= k < vs.len() {
                    match fields_value(get_v(j, vs[k].name@)->0, vs[k].fields@) {
                        Some(fs) => Some(GenView::Variant(vs[k].name@, fs)),
                        None => None,
                    }
                } else {
                    None
                }
            },
        },
    }
}

/// Parses `text` with `serde_json::from_str` into a `serde_json::Value` and
/// reads it one for one as a `Json` (a number as `Int` where `as_i64` gives
/// one); `None` where `text` is not JSON. The contract names the result:
/// what `serde_json` makes of a text is not restated here.
#[verifier::external_body]
fn parse_json(text: &str) -> (r: Option<Json>)
    ensures
        opt_json_view(r) == json_of(text@),
{
    let again = |x: &V| parse_json(&x.to_string()).unwrap_or(Json::Null);
    Some(match serde_json::from_str::<V>(text).ok()? {
        V::Null => Json::Null,
        V::Bool(b) => Json::Bool(b),
        V::Number(n) => n.as_i64().map_or(Json::Other, Json::Int),
        V::String(s) => Json::Str(s),
        V::Array(a) => Json::Arr(a.iter().map(again).collect()),
        V::Object(m) => Json::Obj(m.iter().map(|(k, x)| (k.clone(), again(x))).collect()),
    })
}

/// Reads an engine's answer text as a value of `g`.
pub fn json_to_value(text: &str, g: &Grammar) -> (r: Option<GenValue>)
    ensures
        opt_gen_view(r) == match json_of(text@) {
            Some(j) => json_value(j, *g),
            None => None,
        },
{
    match parse_json(text) {
        Some(j) => json_convert(&j, g),
        None => None,
    }
}

fn get<'a>(j: &'a Json, k: &str) -> (r: Option<&'a Json>)
    ensures
        opt_json_view(match r { Some(x) => Some(*x), None => None }) == get_v(json_view(*j), k@),
{
    match j {
        Json::Obj(es) => {
            let n = es.len();
            let mut i: usize = n;
            assert(es@.take(n as int) =~= es@);
            while i > 0
                invariant
                    i <= n,
                    n == es.len(),
                    entry_of(entries_view(es@), k@) == entry_of(entries_view(es@.take(i as int)), k@),
                    json_view(*j) == JsonV::Obj(entries_view(es@)),
                decreases i,
            {
                i = i - 1;
                proof {
                    let t1 = es@.take(i + 1);
                    assert(t1.drop_last() =~= es@.take(i as int));
                    assert(t1.last() == es@[i as int]);
                    assert(entries_view(t1) == entries_view(t1.drop_last()).push((t1.last().0@, json_view(t1.last().1))));
                    assert(entries_view(t1).drop_last() =~= entries_view(es@.take(i as int)));
                    assert(entries_view(t1).last() == (es@[i as int].0@, json_view(es@[i as int].1)));
                }
                if crate::text::str_eq(es[i].0.as_str(), k) {
                    proof {
                        let t1 = es@.take(i + 1);
                        assert(entries_view(t1).last().0 == k@);
                        assert(entry_of(entries_view(t1), k@) == Some(json_view(es@[i as int].1)));
                    }
                    return Some(&es[i].1);
                }
            }
            assert(es@.take(0) =~= Seq::<(String, Json)>::empty());
            None
        },
        _ => None,
    }
}

/// Reads a JSON document as a value of `g` (see `json_value`).
pub fn json_convert(j: &Json, g: &Grammar) -> (r: Option<GenValue>)
    ensures
        opt_gen_view(r) == json_value(json_view(*j), *g),
    decreases g, 0int,
{
    match g {
        Grammar::Number { .. } => match j {
            Json::Int(n) => Some(GenValue::Spark(*n)),
            _ => None,
        },
        Grammar::Bool => match j {
            Json::Bool(b) => Some(GenValue::Bool(*b)),
            _ => None,
        },
        Grammar::Text { .. } => match j {
            Json::Str(s) => Some(GenValue::Glyph(s.clone())),
            _ => None,
        },
        Grammar::Record(fields) => match convert_fields(j, fields) {
            Some(fs) => Some(GenValue::Record(fs)),
            None => None,
        },
        Grammar::OneOf(vs) => convert_variant(j, vs),
        Grammar::List { elem, .. } => match j {
            Json::Arr(items) => match convert_items(items, elem) {
                Some(xs) => Some(GenValue::List(xs)),
                None => None,
            },
            _ => None,
        },
    }
}

fn convert_fields(j: &Json, fs: &Vec<(String, Grammar)>) -> (r: Option<Vec<(String, GenValue)>>)
    ensures
        match r {
            Some(v) => fields_value(json_view(*j), fs@) == Some(fields_view(v@)),
            None => fields_value(json_view(*j), fs@) is None,
        },
    decreases fs@, 1int,
{
    let mut out: Vec<(String, GenValue)> = Vec::new();
    let n = fs.len();
    let mut i: usize = 0;
    while i < n
        invariant
            n == fs.len(),
            i <= n,
            fields_value(json_view(*j), fs@.take(i as int)) == Some(fields_view(out@)),
        decreases n - i,
    {
        proof {
            assert(fs@.take(i + 1).drop_last() =~= fs@.take(i as int));
            assert(fs@.take(i + 1).last() == fs@[i as int]);
        }
        let x = match get(j, fs[i].0.as_str()) {
            Some(x) => x,
            None => {
                proof {
                    lemma_fields_prefix(json_view(*j), fs@, (i + 1) as nat);
                }
                return None;
            },
        };
        let v = match json_convert(x, &fs[i].1) {
            Some(v) => v,
            None => {
                proof {
                    lemma_fields_prefix(json_view(*j), fs@, (i + 1) as nat);
                }
                return None;
            },
        };
        let ghost pre = out@;
        out.push((fs[i].0.clone(), v));
        proof {
            assert(out@.drop_last() =~= pre);
        }
        i = i + 1;
    }
    assert(fs@.take(n as int) =~= fs@);
    Some(out)
}

fn convert_items(items: &Vec<Json>, elem: &Grammar) -> (r: Option<Vec<GenValue>>)
    ensures
        match r {
            Some(v) => items_value(jsons_view(items@), *elem) == Some(items_view(v@)),
            None => items_value(jsons_view(items@), *elem) is None,
        },
    decreases elem, 1int,
{
    let mut out: Vec<GenValue> = Vec::new();
    let n = items.len();
    let mut i: usize = 0;
    while i < n
        invariant
            n == items.len(),
            i <= n,
            items_value(jsons_view(items@.take(i as int)), *elem) == Some(items_view(out@)),
        decreases n - i,
    {
        proof {
            let t = items@.take(i + 1);
            assert(t.drop_last() =~= items@.take(i as int));
            assert(t.last() == items@[i as int]);
            assert(jsons_view(t) == jsons_view(t.drop_last()).push(json_view(t.last())));
            assert(jsons_view(t).drop_last() =~= jsons_view(items@.take(i as int)));
        }
        let v = match json_convert(&items[i], elem) {
            Some(v) => v,
            None => {
                proof {
                    lemma_items_prefix(items@, *elem, (i + 1) as nat);
                }
                return None;
            },
        };
        let ghost pre = out@;
        out.push(v);
        proof {
            assert(out@.drop_last() =~= pre);
        }
        i = i + 1;
    }
    assert(items@.take(n as int) =~= items@);
    Some(out)
}

fn convert_variant(j: &Json, vs: &Vec<GrammarVariant>) -> (r: Option<GenValue>)
    ensures
        opt_gen_view(r) == variant_value(json_view(*j), vs@),
    decreases vs@, 2int,
{
    if let Json::Str(s) = j {
        let n = vs.len();
        let mut i: usize = 0;
        while i < n
            invariant
                n == vs.len(),
                i <= n,
                find_bare(vs@, s@, 0) == find_bare(vs@, s@, i as int),
                json_view(*j) == JsonV::Str(s@),
            decreases n - i,
        {
            if crate::text::str_eq(vs[i].name.as_str(), s.as_str()) && vs[i].fields.len() == 0 {
                let name = vs[i].name.clone();
                assert(name@ == vs@[i as int].name@);
                let empty: Vec<(String, GenValue)> = Vec::new();
                proof {
                    assert(fields_view(empty@) =~= Seq::<(Seq<char>, GenView)>::empty());
                    assert(find_bare(vs@, s@, i as int) == i);
                }
                return Some(GenValue::Variant(name, empty));
            }
            i = i + 1;
        }
        return None;
    }
    proof {
        reveal_strlit("tag");
    }
    let got = get(j, "tag");
    let tagged = match got {
        Some(Json::Str(t)) => Some(t),
        _ => None,
    };
    proof {
        match tagged {
            Some(t) => {
                assert(get_v(json_view(*j), "tag"@) == Some(JsonV::Str(t@)));
            },
            None => {
                assert(!(get_v(json_view(*j), "tag"@) matches Some(JsonV::Str(_))));
            },
        }
    }
    if let Some(tag) = tagged {
        let n = vs.len();
        let mut i: usize = 0;
        while i < n
            invariant
                n == vs.len(),
                i <= n,
                find_named(vs@, tag@, 0) == find_named(vs@, tag@, i as int),
                get_v(json_view(*j), "tag"@) == Some(JsonV::Str(tag@)),
                !(json_view(*j) is Str),
            decreases n - i,
        {
            if crate::text::str_eq(vs[i].name.as_str(), tag.as_str()) {
                proof {
                    assert(find_named(vs@, tag@, i as int) == i);
                    assert(get_v(json_view(*j), "tag"@) == Some(JsonV::Str(tag@)));
                }
                return match convert_fields(j, &vs[i].fields) {
                    Some(fs) => Some(GenValue::Variant(vs[i].name.clone(), fs)),
                    None => None,
                };
            }
            i = i + 1;
        }
        return None;
    }
    let n = vs.len();
    let mut i: usize = 0;
    while i < n
        invariant
            n == vs.len(),
            i <= n,
            find_nested(vs@, json_view(*j), 0) == find_nested(vs@, json_view(*j), i as int),
            !(get_v(json_view(*j), "tag"@) matches Some(JsonV::Str(_))),
            !(json_view(*j) is Str),
        decreases n - i,
    {
        match get(j, vs[i].name.as_str()) {
            Some(obj) => {
                proof {
                    assert(find_nested(vs@, json_view(*j), i as int) == i);
                    assert(get_v(json_view(*j), vs@[i as int].name@) == Some(json_view(*obj)));
                    assert(!(get_v(json_view(*j), "tag"@) matches Some(JsonV::Str(_))));
                }
                return match convert_fields(obj, &vs[i].fields) {
                    Some(fs) => Some(GenValue::Variant(vs[i].name.clone(), fs)),
                    None => None,
                };
            },
            None => {},
        }
        i = i + 1;
    }
    None
}

proof fn lemma_fields_prefix(j: JsonV, fs: Seq<(String, Grammar)>, k: nat)
    requires
        k <= fs.len(),
        fields_value(j, fs.take(k as int)) is None,
    ensures
        fields_value(j, fs) is None,
    decreases fs.len() - k,
{
    if k < fs.len() {
        assert(fs.take(k + 1int).drop_last() =~= fs.take(k as int));
        lemma_fields_prefix(j, fs, k + 1);
    } else {
        assert(fs.take(k as int) =~= fs);
    }
}

proof fn lemma_items_prefix(items: Seq<Json>, elem: Grammar, k: nat)
    requires
        k <= items.len(),
        items_value(jsons_view(items.take(k as int)), elem) is None,
    ensures
        items_value(jsons_view(items), elem) is None,
    decreases items.len() - k,
{
    if k < items.len() {
        let t = items.take(k + 1int);
        assert(t.drop_last() =~= items.take(k as int));
        assert(jsons_view(t) == jsons_view(t.drop_last()).push(json_view(t.last())));
        assert(jsons_view(t).drop_last() =~= jsons_view(items.take(k as int)));
        lemma_items_prefix(items, elem, k + 1);
    } else {
        assert(items.take(k as int) =~= items);
    }
}

} // verus!
