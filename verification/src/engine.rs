//! The inference contract: engine descriptions, policies, and the pure
//! renderings of a generation grammar (GBNF, JSON Schema, per-step permitted
//! tokens) together with the falsification comparison over decode traces.

pub mod mock;
pub mod frontier;

use vstd::prelude::*;
use crate::grammar::{Grammar, GrammarVariant};
use crate::text::str_eq;
use crate::text::{i64_to_string, push_char, int_to_dec, join, join_strings, lemma_views_push, nat_to_dec, push_part, owned, push_i64, push_str, push_u64, views};

verus! {

// ---------------------------------------------------------------- GBNF

/// A quoted GBNF terminal for a decimal integer: `"n"`.
pub open spec fn quoted_int(n: int) -> Seq<char> {
    "\""@ + int_to_dec(n) + "\""@
}

/// The alternatives `"lo"`, ..., `"hi"` of a closed integer range.
pub open spec fn number_alts(lo: int, hi: int) -> Seq<Seq<char>>
    decreases hi + 1 - lo,
{
    if hi < lo {
        Seq::empty()
    } else {
        number_alts(lo, hi - 1).push(quoted_int(hi))
    }
}

/// The character class of bounded text with its length cap `{0,N}`.
pub open spec fn text_class(max_len: nat) -> Seq<char> {
    "[a-zA-Z0-9 .,!?]{0,"@ + nat_to_dec(if max_len < 1 { 1 } else { max_len }) + "}"@
}

/// `"\"name\":" <rule>` — one key of a fixed-key JSON object.
pub open spec fn gbnf_key(name: Seq<char>, rule: Seq<char>) -> Seq<char> {
    "\"\\\""@ + name + "\\\":\" "@ + rule
}

/// The key parts of a fixed-key object, separated by `","` terminals.
pub open spec fn gbnf_field_parts(fields: Seq<(String, Grammar)>) -> Seq<Seq<char>>
    decreases fields,
{
    if fields.len() == 0 {
        Seq::empty()
    } else {
        let prev = gbnf_field_parts(fields.drop_last());
        let sep: Seq<Seq<char>> = if fields.len() > 1 { seq!["\",\""@] } else { Seq::empty() };
        prev + sep + seq![gbnf_key(fields.last().0@, gbnf_rule(fields.last().1))]
    }
}

/// One alternative of a closed variant set.
pub open spec fn gbnf_variant(v: GrammarVariant) -> Seq<char>
    decreases v,
{
    if v.fields@.len() == 0 {
        "\"\\\""@ + v.name@ + "\\\"\""@
    } else {
        let parts = seq!["\"{\\\""@ + v.name@ + "\\\":{\""@] + gbnf_field_parts(v.fields@)
            + seq!["\"}}\""@];
        "("@ + join(parts, " "@) + ")"@
    }
}

pub open spec fn gbnf_variant_alts(vs: Seq<GrammarVariant>) -> Seq<Seq<char>>
    decreases vs,
{
    if vs.len() == 0 {
        Seq::empty()
    } else {
        gbnf_variant_alts(vs.drop_last()).push(gbnf_variant(vs.last()))
    }
}

/// A fixed-length JSON array of `k` elements, each matching `elem_rule`.
pub open spec fn gbnf_array_parts(elem_rule: Seq<char>, k: nat) -> Seq<Seq<char>>
    decreases k,
{
    if k == 0 {
        Seq::empty()
    } else {
        let sep: Seq<Seq<char>> = if k > 1 { seq!["\",\""@] } else { Seq::empty() };
        gbnf_array_parts(elem_rule, (k - 1) as nat) + sep + seq!["("@ + elem_rule + ")"@]
    }
}

pub open spec fn gbnf_array(elem_rule: Seq<char>, k: nat) -> Seq<char> {
    if k == 0 {
        "\"[]\""@
    } else {
        let parts = seq!["\"[\""@] + gbnf_array_parts(elem_rule, k) + seq!["\"]\""@];
        "("@ + join(parts, " "@) + ")"@
    }
}

/// The parts of a `k`-element array: `k` element rules with a `","` terminal
/// between each two.
pub open spec fn alternating_parts(elem_rule: Seq<char>, k: nat) -> Seq<Seq<char>> {
    Seq::new(
        if k == 0 { 0 } else { (2 * k - 1) as nat },
        |i: int| if i % 2 == 0 { "("@ + elem_rule + ")"@ } else { "\",\""@ },
    )
}

proof fn lemma_array_parts_alternate(elem_rule: Seq<char>, k: nat)
    ensures
        gbnf_array_parts(elem_rule, k) == alternating_parts(elem_rule, k),
    decreases k,
{
    if k > 0 {
        lemma_array_parts_alternate(elem_rule, (k - 1) as nat);
    }
    assert(gbnf_array_parts(elem_rule, k) =~= alternating_parts(elem_rule, k));
}

/// A `k`-element array holds exactly `k` elements, each matching the
/// element rule, separated by commas; the empty array is `[]`.
pub proof fn lemma_gbnf_array_holds_k_elements(elem_rule: Seq<char>, k: nat)
    ensures
        k == 0 ==> gbnf_array(elem_rule, k) == "\"[]\""@,
        k > 0 ==> gbnf_array(elem_rule, k) == "("@ + join(
            seq!["\"[\""@] + alternating_parts(elem_rule, k) + seq!["\"]\""@],
            " "@,
        ) + ")"@,
{
    lemma_array_parts_alternate(elem_rule, k);
}

/// The arrays of every legal cardinality `lo..=hi`.
pub open spec fn gbnf_list_alts(elem_rule: Seq<char>, lo: nat, hi: int) -> Seq<Seq<char>>
    decreases hi + 1 - lo,
{
    if hi < lo {
        Seq::empty()
    } else {
        gbnf_list_alts(elem_rule, lo, hi - 1).push(gbnf_array(elem_rule, hi as nat))
    }
}

proof fn lemma_number_alts_range(lo: int, hi: int)
    ensures
        number_alts(lo, hi) == Seq::new(if lo <= hi { (hi - lo + 1) as nat } else { 0 }, |k: int| quoted_int(lo + k)),
    decreases hi + 1 - lo,
{
    if hi >= lo {
        lemma_number_alts_range(lo, hi - 1);
    }
    assert(number_alts(lo, hi) =~= Seq::new(if lo <= hi { (hi - lo + 1) as nat } else { 0 }, |k: int| quoted_int(lo + k)));
}

/// A number grammar renders as the closed choice among the integers from
/// `lo` to `hi`, both included, in increasing order: the `k`-th alternative
/// is the integer `lo + k`.
pub proof fn lemma_gbnf_number_every_value(lo: i64, hi: i64)
    ensures
        gbnf_rule(Grammar::Number { lo, hi }) == "("@ + join(
            Seq::new(if lo <= hi { (hi - lo + 1) as nat } else { 0 }, |k: int| quoted_int(lo + k)),
            " | "@,
        ) + ")"@,
{
    lemma_number_alts_range(lo as int, hi as int);
}

/// The fixed-length arrays of each cardinality from `lo` to `hi` inclusive,
/// shortest first.
pub open spec fn cardinality_arrays(elem_rule: Seq<char>, lo: nat, hi: int) -> Seq<Seq<char>> {
    Seq::new(if lo <= hi { (hi - lo + 1) as nat } else { 0 }, |k: int| gbnf_array(elem_rule, (lo + k) as nat))
}

proof fn lemma_list_alts_cardinalities(elem_rule: Seq<char>, lo: nat, hi: int)
    ensures
        gbnf_list_alts(elem_rule, lo, hi) == cardinality_arrays(elem_rule, lo, hi),
    decreases hi + 1 - lo,
{
    if hi >= lo {
        lemma_list_alts_cardinalities(elem_rule, lo, hi - 1);
    }
    assert(gbnf_list_alts(elem_rule, lo, hi) =~= cardinality_arrays(elem_rule, lo, hi));
}

/// A list grammar renders as the closed choice among the arrays of every
/// legal length: for `lo <= hi` there are exactly `hi - lo + 1` alternatives,
/// the `k`-th being the array of `lo + k` elements, so every cardinality from
/// `lo` to `hi` (both included) is generable and no other is.
pub proof fn lemma_gbnf_list_every_cardinality(elem: Grammar, lo: u32, hi: u32)
    ensures
        gbnf_rule(Grammar::List { elem: Box::new(elem), lo, hi }) == "("@ + join(
            cardinality_arrays(gbnf_rule(elem), lo as nat, hi as int),
            " | "@,
        ) + ")"@,
        lo <= hi ==> cardinality_arrays(gbnf_rule(elem), lo as nat, hi as int).len() == hi - lo + 1,
        forall|k: int|
            lo <= k <= hi ==> #[trigger] cardinality_arrays(gbnf_rule(elem), lo as nat, hi as int)[k - lo]
                == gbnf_array(gbnf_rule(elem), k as nat),
{
    lemma_list_alts_cardinalities(gbnf_rule(elem), lo as nat, hi as int);
}

/// The GBNF rule for a (nested) grammar. Text is a quoted JSON string here.
pub open spec fn gbnf_rule(g: Grammar) -> Seq<char>
    decreases g,
{
    match g {
        Grammar::Number { lo, hi } => "("@ + join(number_alts(lo as int, hi as int), " | "@)
            + ")"@,
        Grammar::Bool => "(\"true\" | \"false\")"@,
        Grammar::Text { max_len } => "(\"\\\"\" "@ + text_class(max_len as nat) + " \"\\\"\")"@,
        Grammar::Record(fields) => {
            let parts = seq!["\"{\""@] + gbnf_field_parts(fields@) + seq!["\"}\""@];
            "("@ + join(parts, " "@) + ")"@
        },
        Grammar::OneOf(variants) => "("@ + join(gbnf_variant_alts(variants@), " | "@)
            + ")"@,
        Grammar::List { elem, lo, hi } => "("@ + join(
            gbnf_list_alts(gbnf_rule(*elem), lo as nat, hi as int),
            " | "@,
        ) + ")"@,
    }
}

/// The whole GBNF document: a single `root` rule. A bare text output is
/// unquoted free prose.
pub open spec fn spec_gbnf(g: Grammar) -> Seq<char> {
    let body = match g {
        Grammar::Text { max_len } => "("@ + text_class(max_len as nat) + ")"@,
        _ => gbnf_rule(g),
    };
    "root ::= "@ + body + "\n"@
}

fn text_char_classes(max_len: usize) -> (r: String)
    ensures
        r@ == text_class(max_len as nat),
{
    let mut s = owned("[a-zA-Z0-9 .,!?]{0,");
    let n: usize = if max_len < 1 { 1 } else { max_len };
    push_u64(&mut s, n as u64);
    push_str(&mut s, "}");
    s
}

fn paren(body: String) -> (r: String)
    ensures
        r@ == "("@ + body@ + ")"@,
{
    let mut s = owned("(");
    push_str(&mut s, body.as_str());
    push_str(&mut s, ")");
    s
}

fn gbnf_fields(fields: &Vec<(String, Grammar)>, parts: &mut Vec<String>)
    ensures
        views(final(parts)@) == views(old(parts)@) + gbnf_field_parts(fields@),
    decreases fields@, 1int,
{
    let n = fields.len();
    let mut i: usize = 0;
    while i < n
        invariant
            n == fields.len(),
            i <= n,
            views(parts@) == views(old(parts)@) + gbnf_field_parts(fields@.take(i as int)),
        decreases n - i,
    {
        let ghost before = views(parts@);
        if i > 0 {
            let sep = owned("\",\"");
            proof { lemma_views_push(parts@, sep); }
            parts.push(sep);
        }
        let ghost mid = views(parts@);
        let sub = gbnf_rule_exec(&fields[i].1);
        let mut item = owned("\"\\\"");
        push_str(&mut item, fields[i].0.as_str());
        push_str(&mut item, "\\\":\" ");
        push_str(&mut item, sub.as_str());
        proof { lemma_views_push(parts@, item); }
        parts.push(item);
        proof {
            let pre = fields@.take(i + 1);
            assert(pre.drop_last() =~= fields@.take(i as int));
            assert(pre.last() == fields@[i as int]);
            assert(item@ =~= gbnf_key(fields@[i as int].0@, gbnf_rule(fields@[i as int].1)));
            let sepv: Seq<Seq<char>> = if pre.len() > 1 { seq!["\",\""@] } else { Seq::empty() };
            assert(mid =~= before + sepv);
            assert(gbnf_field_parts(pre) == gbnf_field_parts(fields@.take(i as int)) + sepv
                + seq![item@]);
            assert(views(parts@) =~= views(old(parts)@) + gbnf_field_parts(pre));
        }
        i = i + 1;
    }
    assert(fields@.take(n as int) =~= fields@);
}

fn gbnf_variant_exec(v: &GrammarVariant) -> (r: String)
    ensures
        r@ == gbnf_variant(*v),
    decreases *v, 2int,
{
    if v.fields.len() == 0 {
        let mut s = owned("\"\\\"");
        push_str(&mut s, v.name.as_str());
        push_str(&mut s, "\\\"\"");
        assert(s@ =~= gbnf_variant(*v));
        s
    } else {
        let mut head = owned("\"{\\\"");
        push_str(&mut head, v.name.as_str());
        push_str(&mut head, "\\\":{\"");
        let mut parts: Vec<String> = Vec::new();
        push_part(&mut parts, head);
        gbnf_fields(&v.fields, &mut parts);
        push_part(&mut parts, owned("\"}}\""));
        let joined = join_strings(&parts, " ");
        let r = paren(joined);
        proof {
            let expect = seq!["\"{\\\""@ + v.name@ + "\\\":{\""@] + gbnf_field_parts(v.fields@)
                + seq!["\"}}\""@];
            assert(views(parts@) =~= expect);
        }
        r
    }
}

fn gbnf_variants(variants: &Vec<GrammarVariant>) -> (alts: Vec<String>)
    ensures
        views(alts@) == gbnf_variant_alts(variants@),
    decreases variants@, 1int,
{
    let mut alts: Vec<String> = Vec::new();
    let n = variants.len();
    let mut i: usize = 0;
    while i < n
        invariant
            n == variants.len(),
            i <= n,
            views(alts@) == gbnf_variant_alts(variants@.take(i as int)),
        decreases n - i,
    {
        let a = gbnf_variant_exec(&variants[i]);
        push_part(&mut alts, a);
        proof {
            let pre = variants@.take(i + 1);
            assert(pre.drop_last() =~= variants@.take(i as int));
            assert(views(alts@) =~= gbnf_variant_alts(pre));
        }
        i = i + 1;
    }
    assert(variants@.take(n as int) =~= variants@);
    alts
}

fn number_alternatives(lo: i64, hi: i64) -> (r: Vec<String>)
    ensures
        views(r@) == number_alts(lo as int, hi as int),
{
    let mut out: Vec<String> = Vec::new();
    if hi < lo {
        return out;
    }
    let mut n: i64 = lo;
    loop
        invariant
            lo <= n <= hi,
            views(out@) == number_alts(lo as int, n - 1),
        decreases hi - n,
    {
        let mut t = owned("\"");
        push_i64(&mut t, n);
        push_str(&mut t, "\"");
        push_part(&mut out, t);
        assert(views(out@) =~= number_alts(lo as int, n as int));
        if n == hi {
            return out;
        }
        n = n + 1;
    }
}

fn gbnf_list(elem_rule: &String, lo: u32, hi: u32) -> (r: Vec<String>)
    ensures
        views(r@) == gbnf_list_alts(elem_rule@, lo as nat, hi as int),
{
    let mut out: Vec<String> = Vec::new();
    if hi < lo {
        return out;
    }
    let mut k: u32 = lo;
    loop
        invariant
            lo <= k <= hi,
            views(out@) == gbnf_list_alts(elem_rule@, lo as nat, k - 1),
        decreases hi - k,
    {
        let alt = if k == 0 {
            owned("\"[]\"")
        } else {
            let mut parts: Vec<String> = Vec::new();
            push_part(&mut parts, owned("\"[\""));
            let mut j: u32 = 0;
            while j < k
                invariant
                    0 < k,
                    j <= k,
                    views(parts@) == seq!["\"[\""@] + gbnf_array_parts(elem_rule@, j as nat),
                decreases k - j,
            {
                if j > 0 {
                    push_part(&mut parts, owned("\",\""));
                }
                let mut e = owned("(");
                push_str(&mut e, elem_rule.as_str());
                push_str(&mut e, ")");
                push_part(&mut parts, e);
                assert(views(parts@) =~= seq!["\"[\""@] + gbnf_array_parts(elem_rule@, (j + 1) as nat));
                j = j + 1;
            }
            push_part(&mut parts, owned("\"]\""));
            assert(views(parts@) =~= seq!["\"[\""@] + gbnf_array_parts(elem_rule@, k as nat)
                + seq!["\"]\""@]);
            let joined = join_strings(&parts, " ");
            paren(joined)
        };
        push_part(&mut out, alt);
        assert(views(out@) =~= gbnf_list_alts(elem_rule@, lo as nat, k as int));
        if k == hi {
            return out;
        }
        k = k + 1;
    }
}

fn gbnf_rule_exec(g: &Grammar) -> (r: String)
    ensures
        r@ == gbnf_rule(*g),
    decreases *g, 3int,
{
    match g {
        Grammar::Number { lo, hi } => {
            let alts = number_alternatives(*lo, *hi);
            paren(join_strings(&alts, " | "))
        },
        Grammar::Bool => owned("(\"true\" | \"false\")"),
        Grammar::Text { max_len } => {
            let mut s = owned("(\"\\\"\" ");
            let class = text_char_classes(*max_len);
            push_str(&mut s, class.as_str());
            push_str(&mut s, " \"\\\"\")");
            s
        },
        Grammar::Record(fields) => {
            let mut parts: Vec<String> = Vec::new();
            push_part(&mut parts, owned("\"{\""));
            gbnf_fields(fields, &mut parts);
            push_part(&mut parts, owned("\"}\""));
            assert(views(parts@) =~= seq!["\"{\""@] + gbnf_field_parts(fields@) + seq!["\"}\""@]);
            paren(join_strings(&parts, " "))
        },
        Grammar::OneOf(variants) => {
            let alts = gbnf_variants(variants);
            paren(join_strings(&alts, " | "))
        },
        Grammar::List { elem, lo, hi } => {
            let elem_rule = gbnf_rule_exec(elem);
            let alts = gbnf_list(&elem_rule, *lo, *hi);
            paren(join_strings(&alts, " | "))
        },
    }
}

/// Compiles a grammar into GBNF, the format a llama.cpp sampler enforces
/// token by token.
pub fn grammar_to_gbnf(grammar: &Grammar) -> (r: String)
    ensures
        r@ == spec_gbnf(*grammar),
{
    let body = match grammar {
        Grammar::Text { max_len } => paren(text_char_classes(*max_len)),
        _ => gbnf_rule_exec(grammar),
    };
    let mut s = owned("root ::= ");
    push_str(&mut s, body.as_str());
    push_str(&mut s, "\n");
    s
}

// ---------------------------------------------------------- JSON Schema

/// `"name":schema` entries of an object's `properties`.
pub open spec fn prop_entries(names: Seq<Seq<char>>, schemas: Seq<Seq<char>>) -> Seq<Seq<char>> {
    Seq::new(names.len(), |i: int| "\""@ + names[i] + "\":"@ + schemas[i])
}

/// `"name"` entries of an object's `required` list.
pub open spec fn required_entries(names: Seq<Seq<char>>) -> Seq<Seq<char>> {
    Seq::new(names.len(), |i: int| "\""@ + names[i] + "\""@)
}

/// A closed object schema in which every property is required.
pub open spec fn strict_object(names: Seq<Seq<char>>, schemas: Seq<Seq<char>>) -> Seq<char> {
    "{\"type\":\"object\",\"properties\":{"@ + join(prop_entries(names, schemas), ","@)
        + "},\"required\":["@ + join(required_entries(names), ","@)
        + "],\"additionalProperties\":false}"@
}

/// Every object schema requires all of its properties: it closes with a
/// `required` list that names each property, quoted, in the order of the
/// properties.
pub proof fn lemma_strict_object_requires_every_property(names: Seq<Seq<char>>, schemas: Seq<Seq<char>>)
    ensures
        exists|pre: Seq<char>|
            strict_object(names, schemas) == pre + "},\"required\":["@ + join(
                Seq::new(names.len(), |i: int| "\""@ + names[i] + "\""@),
                ","@,
            ) + "],\"additionalProperties\":false}"@,
{
    let pre = "{\"type\":\"object\",\"properties\":{"@ + join(prop_entries(names, schemas), ","@);
    assert(required_entries(names) =~= Seq::new(names.len(), |i: int| "\""@ + names[i] + "\""@));
    assert(strict_object(names, schemas) =~= pre + "},\"required\":["@ + join(
        Seq::new(names.len(), |i: int| "\""@ + names[i] + "\""@),
        ","@,
    ) + "],\"additionalProperties\":false}"@);
}

/// An object schema lists its properties in order, each name with its own
/// schema.
pub proof fn lemma_strict_object_lists_properties(names: Seq<Seq<char>>, schemas: Seq<Seq<char>>)
    ensures
        ("{\"type\":\"object\",\"properties\":{"@ + join(
            Seq::new(names.len(), |i: int| "\""@ + names[i] + "\":"@ + schemas[i]),
            ","@,
        )).is_prefix_of(strict_object(names, schemas)),
{
    let head = "{\"type\":\"object\",\"properties\":{"@ + join(
        Seq::new(names.len(), |i: int| "\""@ + names[i] + "\":"@ + schemas[i]),
        ","@,
    );
    let post = "},\"required\":["@ + join(required_entries(names), ","@) + "],\"additionalProperties\":false}"@;
    assert(prop_entries(names, schemas) =~= Seq::new(names.len(), |i: int| "\""@ + names[i] + "\":"@ + schemas[i]));
    assert(strict_object(names, schemas) =~= head + post);
    assert((head + post).subrange(0, head.len() as int) =~= head);
}

pub open spec fn field_names(fields: Seq<(String, Grammar)>) -> Seq<Seq<char>> {
    fields.map_values(|f: (String, Grammar)| f.0@)
}

pub open spec fn field_schemas(fields: Seq<(String, Grammar)>) -> Seq<Seq<char>>
    decreases fields,
{
    if fields.len() == 0 {
        Seq::empty()
    } else {
        field_schemas(fields.drop_last()).push(json_schema(fields.last().1))
    }
}

/// One discriminator-tagged branch of a variant set.
pub open spec fn variant_branch(v: GrammarVariant) -> Seq<char>
    decreases v,
{
    strict_object(
        seq!["tag"@] + field_names(v.fields@),
        seq!["{\"const\":\""@ + v.name@ + "\"}"@] + field_schemas(v.fields@),
    )
}

pub open spec fn variant_branches(vs: Seq<GrammarVariant>) -> Seq<Seq<char>>
    decreases vs,
{
    if vs.len() == 0 {
        Seq::empty()
    } else {
        variant_branches(vs.drop_last()).push(variant_branch(vs.last()))
    }
}

/// The strict-mode JSON Schema of a grammar.
pub open spec fn json_schema(g: Grammar) -> Seq<char>
    decreases g,
{
    match g {
        Grammar::Number { lo, hi } => "{\"type\":\"integer\",\"minimum\":"@ + int_to_dec(lo as int)
            + ",\"maximum\":"@ + int_to_dec(hi as int) + "}"@,
        Grammar::Bool => "{\"type\":\"boolean\"}"@,
        Grammar::Text { max_len } => "{\"type\":\"string\",\"maxLength\":"@ + nat_to_dec(
            max_len as nat,
        ) + "}"@,
        Grammar::Record(fields) => strict_object(field_names(fields@), field_schemas(fields@)),
        Grammar::OneOf(variants) => "{\"anyOf\":["@ + join(variant_branches(variants@), ","@)
            + "]}"@,
        Grammar::List { elem, lo, hi } => "{\"type\":\"array\",\"items\":"@ + json_schema(*elem)
            + ",\"minItems\":"@ + nat_to_dec(lo as nat) + ",\"maxItems\":"@ + nat_to_dec(hi as nat)
            + "}"@,
    }
}

/// The schema of a record requires every field of the record, by name and in
/// order.
pub proof fn lemma_record_schema_requires_every_field(fields: Seq<(String, Grammar)>, fv: Vec<(String, Grammar)>)
    requires
        fv@ == fields,
    ensures
        exists|pre: Seq<char>|
            json_schema(Grammar::Record(fv)) == pre + "},\"required\":["@ + join(
                Seq::new(fields.len(), |i: int| "\""@ + fields[i].0@ + "\""@),
                ","@,
            ) + "],\"additionalProperties\":false}"@,
{
    let names = field_names(fields);
    lemma_strict_object_requires_every_property(names, field_schemas(fields));
    assert(Seq::new(names.len(), |i: int| "\""@ + names[i] + "\""@) =~= Seq::new(
        fields.len(),
        |i: int| "\""@ + fields[i].0@ + "\""@,
    ));
}

/// An integer range's schema bounds its values by the range's own ends:
/// `minimum` is `lo` and `maximum` is `hi`, both included.
pub proof fn lemma_number_schema_bounds(lo: i64, hi: i64)
    ensures
        json_schema(Grammar::Number { lo, hi }) == "{\"type\":\"integer\",\"minimum\":"@ + int_to_dec(lo as int)
            + ",\"maximum\":"@ + int_to_dec(hi as int) + "}"@,
{
}

/// A list's schema bounds its length by the list's own cardinalities:
/// `minItems` is `lo` and `maxItems` is `hi`, after the element schema.
pub proof fn lemma_list_schema_bounds(elem: Grammar, lo: u32, hi: u32)
    ensures
        json_schema(Grammar::List { elem: Box::new(elem), lo, hi }) == "{\"type\":\"array\",\"items\":"@
            + json_schema(elem) + ",\"minItems\":"@ + nat_to_dec(lo as nat) + ",\"maxItems\":"@ + nat_to_dec(
            hi as nat,
        ) + "}"@,
{
}

fn strict_object_exec(names: &Vec<String>, schemas: &Vec<String>) -> (r: String)
    requires
        names.len() == schemas.len(),
    ensures
        r@ == strict_object(views(names@), views(schemas@)),
{
    let mut props: Vec<String> = Vec::new();
    let mut req: Vec<String> = Vec::new();
    let n = names.len();
    let mut i: usize = 0;
    while i < n
        invariant
            n == names.len(),
            n == schemas.len(),
            i <= n,
            views(props@) =~= prop_entries(views(names@), views(schemas@)).take(i as int),
            views(req@) =~= required_entries(views(names@)).take(i as int),
        decreases n - i,
    {
        let mut p = owned("\"");
        push_str(&mut p, names[i].as_str());
        push_str(&mut p, "\":");
        push_str(&mut p, schemas[i].as_str());
        push_part(&mut props, p);
        let mut q = owned("\"");
        push_str(&mut q, names[i].as_str());
        push_str(&mut q, "\"");
        push_part(&mut req, q);
        i = i + 1;
    }
    let mut s = owned("{\"type\":\"object\",\"properties\":{");
    let ps = join_strings(&props, ",");
    push_str(&mut s, ps.as_str());
    push_str(&mut s, "},\"required\":[");
    let rs = join_strings(&req, ",");
    push_str(&mut s, rs.as_str());
    push_str(&mut s, "],\"additionalProperties\":false}");
    proof {
        assert(views(props@) =~= prop_entries(views(names@), views(schemas@)));
        assert(views(req@) =~= required_entries(views(names@)));
    }
    s
}

fn schema_fields(
    fields: &Vec<(String, Grammar)>,
    names: &mut Vec<String>,
    schemas: &mut Vec<String>,
)
    ensures
        views(final(names)@) == views(old(names)@) + field_names(fields@),
        views(final(schemas)@) == views(old(schemas)@) + field_schemas(fields@),
    decreases fields@, 1int,
{
    let n = fields.len();
    let mut i: usize = 0;
    while i < n
        invariant
            n == fields.len(),
            i <= n,
            views(names@) == views(old(names)@) + field_names(fields@.take(i as int)),
            views(schemas@) == views(old(schemas)@) + field_schemas(fields@.take(i as int)),
        decreases n - i,
    {
        let sub = json_schema_exec(&fields[i].1);
        push_part(names, fields[i].0.clone());
        push_part(schemas, sub);
        proof {
            let pre = fields@.take(i + 1);
            assert(pre.drop_last() =~= fields@.take(i as int));
            assert(views(names@) =~= views(old(names)@) + field_names(pre));
            assert(views(schemas@) =~= views(old(schemas)@) + field_schemas(pre));
        }
        i = i + 1;
    }
    assert(fields@.take(n as int) =~= fields@);
}

fn variant_branch_exec(v: &GrammarVariant) -> (r: String)
    ensures
        r@ == variant_branch(*v),
    decreases *v, 2int,
{
    let mut names: Vec<String> = Vec::new();
    let mut schemas: Vec<String> = Vec::new();
    push_part(&mut names, owned("tag"));
    let mut c = owned("{\"const\":\"");
    push_str(&mut c, v.name.as_str());
    push_str(&mut c, "\"}");
    push_part(&mut schemas, c);
    schema_fields(&v.fields, &mut names, &mut schemas);
    proof {
        assert(views(names@) =~= seq!["tag"@] + field_names(v.fields@));
        assert(views(schemas@) =~= seq!["{\"const\":\""@ + v.name@ + "\"}"@] + field_schemas(
            v.fields@,
        ));
        assert(field_names(v.fields@).len() == v.fields@.len());
        lemma_field_schemas_len(v.fields@);
    }
    strict_object_exec(&names, &schemas)
}

pub proof fn lemma_field_schemas_len(fields: Seq<(String, Grammar)>)
    ensures
        field_schemas(fields).len() == fields.len(),
    decreases fields.len(),
{
    if fields.len() > 0 {
        lemma_field_schemas_len(fields.drop_last());
    }
}

fn variant_branches_exec(variants: &Vec<GrammarVariant>) -> (r: Vec<String>)
    ensures
        views(r@) == variant_branches(variants@),
    decreases variants@, 1int,
{
    let mut out: Vec<String> = Vec::new();
    let n = variants.len();
    let mut i: usize = 0;
    while i < n
        invariant
            n == variants.len(),
            i <= n,
            views(out@) == variant_branches(variants@.take(i as int)),
        decreases n - i,
    {
        let b = variant_branch_exec(&variants[i]);
        push_part(&mut out, b);
        proof {
            let pre = variants@.take(i + 1);
            assert(pre.drop_last() =~= variants@.take(i as int));
        }
        i = i + 1;
    }
    assert(variants@.take(n as int) =~= variants@);
    out
}

fn json_schema_exec(g: &Grammar) -> (r: String)
    ensures
        r@ == json_schema(*g),
    decreases *g, 3int,
{
    match g {
        Grammar::Number { lo, hi } => {
            let mut s = owned("{\"type\":\"integer\",\"minimum\":");
            push_i64(&mut s, *lo);
            push_str(&mut s, ",\"maximum\":");
            push_i64(&mut s, *hi);
            push_str(&mut s, "}");
            s
        },
        Grammar::Bool => owned("{\"type\":\"boolean\"}"),
        Grammar::Text { max_len } => {
            let mut s = owned("{\"type\":\"string\",\"maxLength\":");
            push_u64(&mut s, *max_len as u64);
            push_str(&mut s, "}");
            s
        },
        Grammar::Record(fields) => {
            let mut names: Vec<String> = Vec::new();
            let mut schemas: Vec<String> = Vec::new();
            schema_fields(fields, &mut names, &mut schemas);
            proof {
                assert(views(names@) =~= field_names(fields@));
                assert(views(schemas@) =~= field_schemas(fields@));
                lemma_field_schemas_len(fields@);
            }
            strict_object_exec(&names, &schemas)
        },
        Grammar::OneOf(variants) => {
            let branches = variant_branches_exec(variants);
            let mut s = owned("{\"anyOf\":[");
            let j = join_strings(&branches, ",");
            push_str(&mut s, j.as_str());
            push_str(&mut s, "]}");
            s
        },
        Grammar::List { elem, lo, hi } => {
            let mut s = owned("{\"type\":\"array\",\"items\":");
            let e = json_schema_exec(elem);
            push_str(&mut s, e.as_str());
            push_str(&mut s, ",\"minItems\":");
            push_u64(&mut s, *lo as u64);
            push_str(&mut s, ",\"maxItems\":");
            push_u64(&mut s, *hi as u64);
            push_str(&mut s, "}");
            s
        },
    }
}

/// Compiles a grammar into a strict-mode JSON Schema (every object closed and
/// fully required; a variant set is an `anyOf` of tagged objects).
pub fn grammar_to_json_schema(grammar: &Grammar) -> (r: String)
    ensures
        r@ == json_schema(*grammar),
{
    json_schema_exec(grammar)
}

// ---------------------------------------------- prompt schema (GBNF shape)

pub open spec fn prompt_props(fields: Seq<(String, Grammar)>) -> Seq<Seq<char>>
    decreases fields,
{
    if fields.len() == 0 {
        Seq::empty()
    } else {
        prompt_props(fields.drop_last()).push(
            "\""@ + fields.last().0@ + "\":"@ + prompt_schema(fields.last().1),
        )
    }
}

pub open spec fn all_bare(vs: Seq<GrammarVariant>) -> bool {
    forall|i: int| 0 <= i < vs.len() ==> (#[trigger] vs[i]).fields@.len() == 0
}

pub open spec fn variant_names(vs: Seq<GrammarVariant>) -> Seq<Seq<char>> {
    vs.map_values(|v: GrammarVariant| v.name@)
}

pub open spec fn quoted_names(vs: Seq<GrammarVariant>) -> Seq<Seq<char>> {
    vs.map_values(|v: GrammarVariant| "\""@ + v.name@ + "\""@)
}

pub open spec fn prompt_variant(v: GrammarVariant) -> Seq<char>
    decreases v,
{
    "{\"type\":\"object\",\"properties\":{\""@ + v.name@
        + "\":{\"type\":\"object\",\"properties\":{"@ + join(prompt_props(v.fields@), ","@) + "}}}}"@
}

pub open spec fn prompt_variants(vs: Seq<GrammarVariant>) -> Seq<Seq<char>>
    decreases vs,
{
    if vs.len() == 0 {
        Seq::empty()
    } else {
        prompt_variants(vs.drop_last()).push(prompt_variant(vs.last()))
    }
}

/// The JSON-Schema sketch of the shape the GBNF emits (a bare variant is the
/// string `"Name"`, a payload variant the nested object `{"Name":{...}}`).
pub open spec fn prompt_schema(g: Grammar) -> Seq<char>
    decreases g,
{
    match g {
        Grammar::Record(fields) => "{\"type\":\"object\",\"properties\":{"@ + join(
            prompt_props(fields@),
            ","@,
        ) + "}}"@,
        Grammar::OneOf(variants) => if all_bare(variants@) {
            "{\"enum\":["@ + join(quoted_names(variants@), ","@) + "]}"@
        } else {
            "{\"oneOf\":["@ + join(prompt_variants(variants@), ","@) + "]}"@
        },
        Grammar::List { elem, lo, hi } => "{\"type\":\"array\",\"items\":"@ + prompt_schema(*elem)
            + ",\"minItems\":"@ + nat_to_dec(lo as nat) + ",\"maxItems\":"@ + nat_to_dec(hi as nat)
            + "}"@,
        _ => json_schema(g),
    }
}

fn prompt_props_exec(fields: &Vec<(String, Grammar)>) -> (r: Vec<String>)
    ensures
        views(r@) == prompt_props(fields@),
    decreases fields@, 1int,
{
    let mut out: Vec<String> = Vec::new();
    let n = fields.len();
    let mut i: usize = 0;
    while i < n
        invariant
            n == fields.len(),
            i <= n,
            views(out@) == prompt_props(fields@.take(i as int)),
        decreases n - i,
    {
        let sub = prompt_schema_exec(&fields[i].1);
        let mut p = owned("\"");
        push_str(&mut p, fields[i].0.as_str());
        push_str(&mut p, "\":");
        push_str(&mut p, sub.as_str());
        push_part(&mut out, p);
        proof {
            let pre = fields@.take(i + 1);
            assert(pre.drop_last() =~= fields@.take(i as int));
        }
        i = i + 1;
    }
    assert(fields@.take(n as int) =~= fields@);
    out
}

fn prompt_variant_exec(v: &GrammarVariant) -> (r: String)
    ensures
        r@ == prompt_variant(*v),
    decreases *v, 2int,
{
    let props = prompt_props_exec(&v.fields);
    let mut s = owned("{\"type\":\"object\",\"properties\":{\"");
    push_str(&mut s, v.name.as_str());
    push_str(&mut s, "\":{\"type\":\"object\",\"properties\":{");
    let j = join_strings(&props, ",");
    push_str(&mut s, j.as_str());
    push_str(&mut s, "}}}}");
    s
}

fn prompt_variants_exec(variants: &Vec<GrammarVariant>) -> (r: String)
    ensures
        r@ == prompt_schema(Grammar::OneOf(*variants)),
    decreases variants@, 1int,
{
    let n = variants.len();
    let mut bare = true;
    let mut names: Vec<String> = Vec::new();
    let mut alts: Vec<String> = Vec::new();
    let mut i: usize = 0;
    while i < n
        invariant
            n == variants.len(),
            i <= n,
            bare == all_bare(variants@.take(i as int)),
            views(names@) == quoted_names(variants@.take(i as int)),
            views(alts@) == prompt_variants(variants@.take(i as int)),
        decreases n - i,
    {
        let ghost pre = variants@.take(i + 1);
        assert(pre.drop_last() =~= variants@.take(i as int));
        if variants[i].fields.len() != 0 {
            bare = false;
        }
        let mut q = owned("\"");
        push_str(&mut q, variants[i].name.as_str());
        push_str(&mut q, "\"");
        push_part(&mut names, q);
        let a = prompt_variant_exec(&variants[i]);
        push_part(&mut alts, a);
        proof {
            assert(views(names@) =~= quoted_names(pre));
            if bare {
                assert(all_bare(pre)) by {
                    assert forall|k: int| 0 <= k < pre.len() implies (#[trigger] pre[k]).fields@.len()
                        == 0 by {
                        if k < i {
                            assert(pre[k] == variants@.take(i as int)[k]);
                        }
                    }
                }
            } else {
                if variants@[i as int].fields@.len() != 0 {
                    assert(pre[i as int] == variants@[i as int]);
                } else {
                    let k = choose|k: int|
                        0 <= k < i && (#[trigger] variants@.take(i as int)[k]).fields@.len() != 0;
                    assert(pre[k] == variants@.take(i as int)[k]);
                }
                assert(!all_bare(pre));
            }
        }
        i = i + 1;
    }
    assert(variants@.take(n as int) =~= variants@);
    if bare {
        let mut s = owned("{\"enum\":[");
        let j = join_strings(&names, ",");
        push_str(&mut s, j.as_str());
        push_str(&mut s, "]}");
        s
    } else {
        let mut s = owned("{\"oneOf\":[");
        let j = join_strings(&alts, ",");
        push_str(&mut s, j.as_str());
        push_str(&mut s, "]}");
        s
    }
}

fn prompt_schema_exec(g: &Grammar) -> (r: String)
    ensures
        r@ == prompt_schema(*g),
    decreases *g, 3int,
{
    match g {
        Grammar::Record(fields) => {
            let props = prompt_props_exec(fields);
            let mut s = owned("{\"type\":\"object\",\"properties\":{");
            let j = join_strings(&props, ",");
            push_str(&mut s, j.as_str());
            push_str(&mut s, "}}");
            s
        },
        Grammar::OneOf(variants) => prompt_variants_exec(variants),
        Grammar::List { elem, lo, hi } => {
            let mut s = owned("{\"type\":\"array\",\"items\":");
            let e = prompt_schema_exec(elem);
            push_str(&mut s, e.as_str());
            push_str(&mut s, ",\"minItems\":");
            push_u64(&mut s, *lo as u64);
            push_str(&mut s, ",\"maxItems\":");
            push_u64(&mut s, *hi as u64);
            push_str(&mut s, "}");
            s
        },
        _ => json_schema_exec(g),
    }
}

/// The JSON-Schema description a local model's system prompt carries, in the
/// wire shape its GBNF mask enforces.
pub fn grammar_to_prompt_schema(grammar: &Grammar) -> (r: String)
    ensures
        r@ == prompt_schema(*grammar),
{
    prompt_schema_exec(grammar)
}

// ------------------------------------------------ permitted tokens per step

/// The decimal tokens `lo..=hi`.
pub open spec fn number_tokens(lo: int, hi: int) -> Seq<Seq<char>>
    decreases hi + 1 - lo,
{
    if hi < lo {
        Seq::empty()
    } else {
        number_tokens(lo, hi - 1).push(int_to_dec(hi))
    }
}

proof fn lemma_number_tokens_range(lo: int, hi: int)
    ensures
        number_tokens(lo, hi) == Seq::new(if lo <= hi { (hi - lo + 1) as nat } else { 0 }, |k: int| int_to_dec(lo + k)),
    decreases hi + 1 - lo,
{
    if hi >= lo {
        lemma_number_tokens_range(lo, hi - 1);
    }
    assert(number_tokens(lo, hi) =~= Seq::new(if lo <= hi { (hi - lo + 1) as nat } else { 0 }, |k: int| int_to_dec(lo + k)));
}

/// At a number step every integer from `lo` to `hi` is a permitted token,
/// both ends included, in increasing order, and no other.
pub proof fn lemma_number_step_every_value(lo: int, hi: int)
    ensures
        number_tokens(lo, hi).len() == (if lo <= hi { hi - lo + 1 } else { 0 }),
        forall|k: int| 0 <= k <= hi - lo ==> #[trigger] number_tokens(lo, hi)[k] == int_to_dec(lo + k),
{
    lemma_number_tokens_range(lo, hi);
}

/// At slot `i` of a list bounded by `lo..=hi`, another item may follow
/// exactly while fewer than `hi` items are in, and the list may stop exactly
/// once at least `lo` are.
pub proof fn lemma_list_decision_bounds(i: nat, lo: nat, hi: nat)
    ensures
        list_decision(i, lo, hi).len() == (if i < hi { 1int } else { 0 }) + (if i >= lo { 1int } else { 0 }),
        i < hi ==> list_decision(i, lo, hi)[0] == "ITEM_"@ + nat_to_dec(i),
        i >= lo ==> list_decision(i, lo, hi).last() == "STOP"@,
{
}

/// The lowercase letters `a..=z`, one token each.
pub open spec fn alphabet_tokens() -> Seq<Seq<char>> {
    Seq::new(26, |i: int| seq![(97 + i) as char])
}

/// The continue/stop decision at slot `i` of a list bounded by `lo..=hi`.
pub open spec fn list_decision(i: nat, lo: nat, hi: nat) -> Seq<Seq<char>> {
    (if i < hi { seq!["ITEM_"@ + nat_to_dec(i)] } else { Seq::<Seq<char>>::empty() }) + (if i
        >= lo {
        seq!["STOP"@]
    } else {
        Seq::<Seq<char>>::empty()
    })
}

/// The steps of the first `k` slots of a bounded list.
pub open spec fn list_steps(elem_steps: Seq<Seq<Seq<char>>>, lo: nat, hi: nat, k: nat) -> Seq<
    Seq<Seq<char>>,
>
    decreases k,
{
    if k == 0 {
        Seq::empty()
    } else {
        let i = (k - 1) as nat;
        list_steps(elem_steps, lo, hi, i) + seq![list_decision(i, lo, hi)] + (if i < hi {
            elem_steps
        } else {
            Seq::empty()
        })
    }
}

pub open spec fn record_steps(fields: Seq<(String, Grammar)>) -> Seq<Seq<Seq<char>>>
    decreases fields,
{
    if fields.len() == 0 {
        Seq::empty()
    } else {
        record_steps(fields.drop_last()) + permitted(fields.last().1)
    }
}

/// For each decode step, depth first, the set of next tokens the grammar
/// permits there.
pub open spec fn permitted(g: Grammar) -> Seq<Seq<Seq<char>>>
    decreases g,
{
    match g {
        Grammar::Number { lo, hi } => seq![number_tokens(lo as int, hi as int)],
        Grammar::Bool => seq![seq!["true"@, "false"@]],
        Grammar::Text { .. } => seq![alphabet_tokens()],
        Grammar::Record(fields) => record_steps(fields@),
        Grammar::OneOf(variants) => seq![variant_names(variants@)],
        Grammar::List { elem, lo, hi } => list_steps(
            permitted(*elem),
            lo as nat,
            hi as nat,
            (hi + 1) as nat,
        ),
    }
}

/// The character sequences of a decode trace.
pub open spec fn trace_view(t: Seq<Vec<String>>) -> Seq<Seq<Seq<char>>> {
    t.map_values(|step: Vec<String>| views(step@))
}

fn push_step(steps: &mut Vec<Vec<String>>, step: Vec<String>)
    ensures
        trace_view(final(steps)@) == trace_view(old(steps)@).push(views(step@)),
{
    let ghost old_steps = steps@;
    steps.push(step);
    assert(trace_view(steps@) =~= trace_view(old_steps).push(views(step@)));
}

fn number_token_list(lo: i64, hi: i64) -> (r: Vec<String>)
    ensures
        views(r@) == number_tokens(lo as int, hi as int),
{
    let mut out: Vec<String> = Vec::new();
    if hi < lo {
        return out;
    }
    let mut n: i64 = lo;
    loop
        invariant
            lo <= n <= hi,
            views(out@) == number_tokens(lo as int, n - 1),
        decreases hi - n,
    {
        push_part(&mut out, i64_to_string(n));
        if n == hi {
            return out;
        }
        n = n + 1;
    }
}

fn alphabet() -> (r: Vec<String>)
    ensures
        views(r@) == alphabet_tokens(),
{
    let mut out: Vec<String> = Vec::new();
    let mut i: u8 = 0;
    while i < 26
        invariant
            i <= 26,
            views(out@) =~= alphabet_tokens().take(i as int),
        decreases 26 - i,
    {
        let c: char = (97u8 + i) as char;
        let mut t = String::new();
        push_char(&mut t, c);
        assert(t@ =~= seq![(97 + i) as char]);
        push_part(&mut out, t);
        i = i + 1;
    }
    assert(alphabet_tokens().take(26) =~= alphabet_tokens());
    out
}

fn collect_permitted(g: &Grammar, steps: &mut Vec<Vec<String>>)
    ensures
        trace_view(final(steps)@) == trace_view(old(steps)@) + permitted(*g),
    decreases *g, 2int,
{
    let ghost start = trace_view(steps@);
    match g {
        Grammar::Number { lo, hi } => {
            push_step(steps, number_token_list(*lo, *hi));
            assert(trace_view(steps@) =~= start + permitted(*g));
        },
        Grammar::Bool => {
            let mut v: Vec<String> = Vec::new();
            push_part(&mut v, owned("true"));
            push_part(&mut v, owned("false"));
            assert(views(v@) =~= seq!["true"@, "false"@]);
            push_step(steps, v);
            assert(trace_view(steps@) =~= start + permitted(*g));
        },
        Grammar::Text { .. } => {
            push_step(steps, alphabet());
            assert(trace_view(steps@) =~= start + permitted(*g));
        },
        Grammar::Record(fields) => {
            collect_record(fields, steps);
        },
        Grammar::OneOf(variants) => {
            let mut names: Vec<String> = Vec::new();
            let n = variants.len();
            let mut i: usize = 0;
            while i < n
                invariant
                    n == variants.len(),
                    i <= n,
                    views(names@) =~= variant_names(variants@).take(i as int),
                decreases n - i,
            {
                push_part(&mut names, variants[i].name.clone());
                i = i + 1;
            }
            assert(views(names@) =~= variant_names(variants@));
            push_step(steps, names);
            assert(trace_view(steps@) =~= start + permitted(*g));
        },
        Grammar::List { elem, lo, hi } => {
            let mut elem_steps: Vec<Vec<String>> = Vec::new();
            collect_permitted(elem, &mut elem_steps);
            assert(trace_view(elem_steps@) =~= permitted(**elem));
            let mut i: u32 = 0;
            loop
                invariant_except_break
                    i <= *hi,
                    trace_view(steps@) == start + list_steps(
                        permitted(**elem),
                        *lo as nat,
                        *hi as nat,
                        i as nat,
                    ),
                invariant
                    trace_view(elem_steps@) == permitted(**elem),
                ensures
                    trace_view(steps@) == start + list_steps(
                        permitted(**elem),
                        *lo as nat,
                        *hi as nat,
                        (*hi + 1) as nat,
                    ),
                decreases *hi - i,
            {
                let ghost before = trace_view(steps@);
                let mut decision: Vec<String> = Vec::new();
                if i < *hi {
                    let mut t = owned("ITEM_");
                    push_u64(&mut t, i as u64);
                    push_part(&mut decision, t);
                }
                if i >= *lo {
                    push_part(&mut decision, owned("STOP"));
                }
                assert(views(decision@) =~= list_decision(i as nat, *lo as nat, *hi as nat));
                push_step(steps, decision);
                if i < *hi {
                    append_steps(steps, &elem_steps);
                }
                assert(trace_view(steps@) =~= start + list_steps(
                    permitted(**elem),
                    *lo as nat,
                    *hi as nat,
                    (i + 1) as nat,
                ));
                if i == *hi {
                    break;
                }
                i = i + 1;
            }
        },
    }
}

fn append_steps(steps: &mut Vec<Vec<String>>, more: &Vec<Vec<String>>)
    ensures
        trace_view(final(steps)@) == trace_view(old(steps)@) + trace_view(more@),
{
    let n = more.len();
    let mut i: usize = 0;
    while i < n
        invariant
            n == more.len(),
            i <= n,
            trace_view(steps@) =~= trace_view(old(steps)@) + trace_view(more@).take(i as int),
        decreases n - i,
    {
        let step = clone_strings(&more[i]);
        push_step(steps, step);
        i = i + 1;
    }
    assert(trace_view(more@).take(n as int) =~= trace_view(more@));
}

/// A copy of a vector of strings.
pub fn clone_strings(v: &Vec<String>) -> (r: Vec<String>)
    ensures
        r@ == v@,
{
    let mut out: Vec<String> = Vec::new();
    let n = v.len();
    let mut i: usize = 0;
    while i < n
        invariant
            n == v.len(),
            i <= n,
            out@ =~= v@.take(i as int),
        decreases n - i,
    {
        out.push(v[i].clone());
        i = i + 1;
    }
    assert(v@.take(n as int) =~= v@);
    out
}

fn collect_record(fields: &Vec<(String, Grammar)>, steps: &mut Vec<Vec<String>>)
    ensures
        trace_view(final(steps)@) == trace_view(old(steps)@) + record_steps(fields@),
    decreases fields@, 1int,
{
    let n = fields.len();
    let mut i: usize = 0;
    while i < n
        invariant
            n == fields.len(),
            i <= n,
            trace_view(steps@) == trace_view(old(steps)@) + record_steps(fields@.take(i as int)),
        decreases n - i,
    {
        collect_permitted(&fields[i].1, steps);
        proof {
            let pre = fields@.take(i + 1);
            assert(pre.drop_last() =~= fields@.take(i as int));
            assert(trace_view(steps@) =~= trace_view(old(steps)@) + record_steps(pre));
        }
        i = i + 1;
    }
    assert(fields@.take(n as int) =~= fields@);
}

/// For each decode step (depth first, the order generation walks the
/// grammar), the set of next tokens the grammar permits at that step.
pub fn permitted_tokens(grammar: &Grammar) -> (r: Vec<Vec<String>>)
    ensures
        trace_view(r@) == permitted(*grammar),
{
    let mut steps: Vec<Vec<String>> = Vec::new();
    collect_permitted(grammar, &mut steps);
    assert(trace_view(steps@) =~= permitted(*grammar));
    steps
}

// ------------------------------------------------------------ the contract

/// Where an engine runs. On-device-only is the default policy; a network
/// engine is eligible only when the need's site grants `permit(network)`.
#[derive(Clone, Copy, Debug, PartialEq, Eq, Structural)]
pub enum Locality {
    Local,
    Network,
}

/// A coarse latency hint used in matching (not a benchmark).
#[derive(Clone, Copy, Debug, PartialEq, Eq, Structural)]
pub enum LatencyClass {
    Interactive,
    Batch,
}

#[derive(Clone, Copy, Debug, PartialEq, Eq, Structural)]
pub enum Modality {
    Text,
}

/// What an engine advertises about itself. `grammar_constrained` is
/// mandatory for a grammar-constrained need; `litmus_safe` records whether
/// the falsification test has shown the engine masks tokens during
/// generation (`Some(false)` with a reason when it only validates after).
#[derive(Debug)]
pub struct EngineDescription {
    pub backend_id: String,
    /// Advisory only: used to prefer engines, never to gate.
    pub tiers: Vec<String>,
    pub modalities: Vec<Modality>,
    pub locality: Locality,
    pub latency_class: LatencyClass,
    pub grammar_constrained: bool,
    pub litmus_safe: Option<bool>,
    pub non_litmus_safe_reason: Option<String>,
}

/// The author-stated constraints for a need: constraints, not engine choices.
#[derive(Debug)]
pub struct Policy {
    /// `permit(network)` granted at the need's site.
    pub allow_network: bool,
    /// Hard latency hint, if stated.
    pub latency: Option<LatencyClass>,
    /// Advisory minimum tier: preference only, never gates.
    pub min_tier: Option<String>,
    /// A `divine` site is litmus-strict by default.
    pub litmus_strict: bool,
    /// Source-visible acceptance of a non-litmus-safe engine.
    pub allow_downgrade: bool,
}

impl Policy {
    /// The default policy: on-device only, litmus-strict, no downgrade.
    pub open spec fn spec_default(p: Policy) -> bool {
        &&& !p.allow_network
        &&& p.latency is None
        &&& p.min_tier is None
        &&& p.litmus_strict
        &&& !p.allow_downgrade
    }
}

impl Default for Policy {
    fn default() -> (p: Policy)
        ensures
            Policy::spec_default(p),
    {
        Policy { allow_network: false, latency: None, min_tier: None, litmus_strict: true, allow_downgrade: false }
    }
}

/// A single inference request: the input is threaded to the engine and the
/// grammar constrains generation.
pub struct InferRequest<'a> {
    pub intent_id: &'a str,
    pub input: &'a str,
    pub grammar: &'a Grammar,
    pub policy: &'a Policy,
    pub seed: u64,
}

/// One decode step's evidence that the grammar was live during generation:
/// the next tokens the grammar permitted at this step, and the one chosen.
#[derive(Clone, Debug)]
pub struct DecodeStep {
    pub permitted: Vec<String>,
    pub chosen: String,
}

/// Where an inferred value came from.
#[derive(Clone, Debug)]
pub struct Provenance {
    pub oracle: String,
    pub model: String,
    pub model_version_or_sha: String,
    pub backend_id: String,
    pub seed: u64,
    pub sampling: String,
}

impl Provenance {
    pub open spec fn spec_render(&self) -> Seq<char> {
        "oracle="@ + self.oracle@ + " model="@ + self.model@ + " seed="@ + nat_to_dec(self.seed as nat)
    }

    /// `oracle=<intent> model=<model> seed=<seed>`.
    pub fn render(&self) -> (r: String)
        ensures
            r@ == self.spec_render(),
    {
        let mut s = owned("oracle=");
        push_str(&mut s, self.oracle.as_str());
        push_str(&mut s, " model=");
        push_str(&mut s, self.model.as_str());
        push_str(&mut s, " seed=");
        push_u64(&mut s, self.seed);
        s
    }
}

/// The contract every inference backend offers the library: a description
/// of itself and, where it exposes one, the per-step permitted-token trace of
/// a generation (what the falsification test reasons over).
pub trait Engine {
    /// The backend id the engine describes itself with.
    spec fn engine_backend(&self) -> Seq<char>;

    /// Per decode step, the tokens the engine's trace shows permitted when it
    /// serves `intent` on `input` under grammar `g` with `seed` (`None` where
    /// the engine exposes no trace).
    spec fn trace_sets(&self, intent: Seq<char>, input: Seq<char>, g: Grammar, seed: u64) -> Option<Seq<Seq<Seq<char>>>>;

    fn describe(&self) -> (d: EngineDescription)
        ensures
            d.backend_id@ == self.engine_backend(),
    ;

    /// One traced inference: the trace shows what `trace_sets` says, and
    /// serving a request changes neither the backend nor what later traces show.
    fn infer_traced(&mut self, req: &InferRequest) -> (t: Option<Vec<DecodeStep>>)
        ensures
            opt_sets(t) == old(self).trace_sets(req.intent_id@, req.input@, *req.grammar, req.seed),
            final(self).engine_backend() == old(self).engine_backend(),
            forall|i: Seq<char>, x: Seq<char>, g: Grammar, sd: u64|
                #[trigger] final(self).trace_sets(i, x, g, sd) == old(self).trace_sets(i, x, g, sd),
    ;
}

// ------------------------------------------------------------ falsification

/// The outcome of the falsification test against one engine: `masked` only
/// when, at some decode step, a token the weakened grammar permitted was
/// forbidden by the real grammar.
#[derive(Debug)]
pub struct Falsification {
    pub backend_id: String,
    pub masked: bool,
    pub witness: Option<FalsifyWitness>,
    pub reason: String,
}

#[derive(Debug)]
pub struct FalsifyWitness {
    pub step: usize,
    /// A token the weakened grammar permitted at this step but the strict
    /// grammar forbade.
    pub forbidden_token: String,
}

/// The index in `weak` of the first token `strict` does not contain, or -1.
pub open spec fn first_unpermitted(strict: Seq<Seq<char>>, weak: Seq<Seq<char>>) -> int
    decreases weak.len(),
{
    if weak.len() == 0 {
        -1
    } else {
        let k = first_unpermitted(strict, weak.drop_last());
        if k >= 0 {
            k
        } else if !strict.contains(weak.last()) {
            weak.len() - 1
        } else {
            -1
        }
    }
}

/// The first of the steps `0..n` at which the weakened trace permits a token
/// the strict trace forbids, or -1.
pub open spec fn first_masked_step(strict: Seq<Seq<Seq<char>>>, weak: Seq<Seq<Seq<char>>>, n: nat) -> int
    decreases n,
{
    if n == 0 {
        -1
    } else {
        let k = first_masked_step(strict, weak, (n - 1) as nat);
        if k >= 0 {
            k
        } else if first_unpermitted(strict[n - 1], weak[n - 1]) >= 0 {
            n - 1
        } else {
            -1
        }
    }
}

pub proof fn lemma_first_unpermitted(strict: Seq<Seq<char>>, weak: Seq<Seq<char>>)
    ensures
        -1 <= first_unpermitted(strict, weak) < weak.len(),
        first_unpermitted(strict, weak) >= 0 ==> !strict.contains(weak[first_unpermitted(strict, weak)]),
        first_unpermitted(strict, weak) < 0 ==> forall|i: int| 0 <= i < weak.len() ==> strict.contains(weak[i]),
    decreases weak.len(),
{
    if weak.len() > 0 {
        lemma_first_unpermitted(strict, weak.drop_last());
        assert forall|i: int| 0 <= i < weak.len() - 1 implies weak.drop_last()[i] == weak[i] by {}
    }
}

pub proof fn lemma_first_masked_step(strict: Seq<Seq<Seq<char>>>, weak: Seq<Seq<Seq<char>>>, n: nat)
    ensures
        -1 <= first_masked_step(strict, weak, n) < n,
    decreases n,
{
    if n > 0 {
        lemma_first_masked_step(strict, weak, (n - 1) as nat);
    }
}

/// The number of steps both traces have.
pub open spec fn common_steps(strict: Seq<Seq<Seq<char>>>, weak: Seq<Seq<Seq<char>>>) -> nat {
    if strict.len() < weak.len() {
        strict.len()
    } else {
        weak.len()
    }
}

pub open spec fn no_trace_reason() -> Seq<char> {
    "engine exposes no token-level decode trace; masking during generation cannot be demonstrated (treat as non-litmus-safe)"@
}

pub open spec fn litmus_failed_reason() -> Seq<char> {
    "LITMUS FAILED: real and weakened grammars permitted the same tokens at every step — the type did not participate in generation; this engine is a wrapper, not AI-first"@
}

pub open spec fn litmus_holds_reason(step: nat, tok: Seq<char>) -> Seq<char> {
    "litmus holds: at step "@ + nat_to_dec(step) + " the real grammar forbade token `"@ + tok
        + "` which the weakened grammar permitted (masking occurred during generation)"@
}

/// The permitted-token sets of a decode trace.
pub open spec fn step_sets(t: Seq<DecodeStep>) -> Seq<Seq<Seq<char>>> {
    t.map_values(|s: DecodeStep| views(s.permitted@))
}

/// The permitted-token sets of an optional trace.
pub open spec fn opt_sets(t: Option<Vec<DecodeStep>>) -> Option<Seq<Seq<Seq<char>>>> {
    match t {
        Some(v) => Some(step_sets(v@)),
        None => None,
    }
}

/// The falsification verdict for two decode traces.
pub open spec fn verdict(f: Falsification, strict: Option<Seq<Seq<Seq<char>>>>, weak: Option<Seq<Seq<Seq<char>>>>) -> bool {
    match (strict, weak) {
        (Some(r), Some(w)) => {
            let s = first_masked_step(r, w, common_steps(r, w));
            if s >= 0 {
                let tok = w[s][first_unpermitted(r[s], w[s])];
                &&& f.masked
                &&& f.witness is Some
                &&& f.witness->0.step == s
                &&& f.witness->0.forbidden_token@ == tok
                &&& f.reason@ == litmus_holds_reason(s as nat, tok)
            } else {
                &&& !f.masked
                &&& f.witness is None
                &&& f.reason@ == litmus_failed_reason()
            }
        },
        _ => {
            &&& !f.masked
            &&& f.witness is None
            &&& f.reason@ == no_trace_reason()
        },
    }
}

fn contains_token(set: &Vec<String>, tok: &String) -> (r: bool)
    ensures
        r == views(set@).contains(tok@),
{
    let n = set.len();
    let mut i: usize = 0;
    while i < n
        invariant
            n == set.len(),
            i <= n,
            forall|k: int| 0 <= k < i ==> set@[k]@ != tok@,
        decreases n - i,
    {
        if set[i] == *tok {
            assert(views(set@)[i as int] == tok@);
            return true;
        }
        i = i + 1;
    }
    proof {
        if views(set@).contains(tok@) {
            let k = choose|k: int| 0 <= k < views(set@).len() && views(set@)[k] == tok@;
            assert(set@[k]@ == tok@);
        }
    }
    false
}

/// The index of the first token of `weak` that `strict` does not contain.
fn find_unpermitted(strict: &Vec<String>, weak: &Vec<String>) -> (r: Option<usize>)
    ensures
        r is Some <==> first_unpermitted(views(strict@), views(weak@)) >= 0,
        r is Some ==> r->0 == first_unpermitted(views(strict@), views(weak@)) && r->0 < weak.len(),
{
    proof {
        lemma_first_unpermitted(views(strict@), views(weak@));
    }
    let n = weak.len();
    let mut i: usize = 0;
    while i < n
        invariant
            n == weak.len(),
            i <= n,
            first_unpermitted(views(strict@), views(weak@).take(i as int)) < 0,
        decreases n - i,
    {
        proof {
            assert(views(weak@).take(i + 1).drop_last() =~= views(weak@).take(i as int));
            assert(views(weak@).take(i + 1).last() == weak@[i as int]@);
        }
        if !contains_token(strict, &weak[i]) {
            proof {
                lemma_unpermitted_prefix(views(strict@), views(weak@), (i + 1) as nat);
            }
            return Some(i);
        }
        i = i + 1;
    }
    assert(views(weak@).take(n as int) =~= views(weak@));
    None
}

proof fn lemma_unpermitted_prefix(strict: Seq<Seq<char>>, weak: Seq<Seq<char>>, k: nat)
    requires
        k <= weak.len(),
        first_unpermitted(strict, weak.take(k as int)) >= 0,
    ensures
        first_unpermitted(strict, weak) == first_unpermitted(strict, weak.take(k as int)),
    decreases weak.len() - k,
{
    if k < weak.len() {
        assert(weak.take(k + 1int).drop_last() =~= weak.take(k as int));
        lemma_unpermitted_prefix(strict, weak, k + 1);
    } else {
        assert(weak.take(k as int) =~= weak);
    }
}

proof fn lemma_masked_prefix(strict: Seq<Seq<Seq<char>>>, weak: Seq<Seq<Seq<char>>>, k: nat, n: nat)
    requires
        k <= n,
        first_masked_step(strict, weak, k) >= 0,
    ensures
        first_masked_step(strict, weak, n) == first_masked_step(strict, weak, k),
    decreases n - k,
{
    if k < n {
        lemma_masked_prefix(strict, weak, k, (n - 1) as nat);
    }
}

/// The falsification verdict over two per-step permitted-token traces: the
/// first step (within the steps both traces have) at which the weakened
/// grammar permitted a token the real grammar forbade, if any. Without both
/// traces, masking cannot be demonstrated.
pub fn falsify_traces(backend_id: String, strict: Option<Vec<DecodeStep>>, weak: Option<Vec<DecodeStep>>) -> (f: Falsification)
    ensures
        f.backend_id == backend_id,
        verdict(f, opt_sets(strict), opt_sets(weak)),
{
    let ghost sv = opt_sets(strict);
    let ghost wv = opt_sets(weak);
    let (r, w) = match (&strict, &weak) {
        (Some(r), Some(w)) => (r, w),
        _ => {
            return Falsification {
                backend_id,
                masked: false,
                witness: None,
                reason: owned("engine exposes no token-level decode trace; masking during generation cannot be demonstrated (treat as non-litmus-safe)"),
            };
        },
    };
    let ghost rs = step_sets(r@);
    let ghost ws = step_sets(w@);
    let n = if r.len() < w.len() {
        r.len()
    } else {
        w.len()
    };
    let mut step: usize = 0;
    while step < n
        invariant
            n == common_steps(rs, ws),
            n <= r.len(),
            n <= w.len(),
            rs == step_sets(r@),
            ws == step_sets(w@),
            sv == Some(rs),
            wv == Some(ws),
            sv == opt_sets(strict),
            wv == opt_sets(weak),
            step <= n,
            first_masked_step(rs, ws, step as nat) < 0,
        decreases n - step,
    {
        match find_unpermitted(&r[step].permitted, &w[step].permitted) {
            Some(k) => {
                proof {
                    assert(rs[step as int] == views(r@[step as int].permitted@));
                    assert(ws[step as int] == views(w@[step as int].permitted@));
                    assert(first_masked_step(rs, ws, (step + 1) as nat) == step);
                    lemma_masked_prefix(rs, ws, (step + 1) as nat, n as nat);
                }
                let tok = w[step].permitted[k].clone();
                let mut reason = owned("litmus holds: at step ");
                push_u64(&mut reason, step as u64);
                push_str(&mut reason, " the real grammar forbade token `");
                push_str(&mut reason, tok.as_str());
                push_str(&mut reason, "` which the weakened grammar permitted (masking occurred during generation)");
                let witness = FalsifyWitness { step, forbidden_token: tok.clone() };
                assert(views(w@[step as int].permitted@)[k as int] == tok@);
                assert(reason@ =~= litmus_holds_reason(step as nat, tok@));
                assert(witness.step == step);
                assert(first_masked_step(rs, ws, common_steps(rs, ws)) == step as int);
                assert(witness.forbidden_token@ == ws[step as int][k as int]);
                assert(sv == Some(rs));
                assert(wv == Some(ws));
                let f = Falsification { backend_id, masked: true, witness: Some(witness), reason };
                assert(verdict(f, sv, wv));
                return f;
            },
            None => {
                proof {
                    assert(rs[step as int] == views(r@[step as int].permitted@));
                    assert(ws[step as int] == views(w@[step as int].permitted@));
                }
            },
        }
        step = step + 1;
    }
    Falsification {
        backend_id,
        masked: false,
        witness: None,
        reason: owned("LITMUS FAILED: real and weakened grammars permitted the same tokens at every step — the type did not participate in generation; this engine is a wrapper, not AI-first"),
    }
}

/// Runs the falsification test against an engine: the same site once with
/// the real grammar and once with the weakened grammar, compared over the
/// per-step permitted-token traces (never over final outputs).
pub fn falsify<E: Engine>(engine: &mut E, intent_id: &str, input: &str, strict: &Grammar, weakened: &Grammar, seed: u64) -> (f: Falsification)
    ensures
        f.backend_id@ == old(engine).engine_backend(),
        verdict(
            f,
            old(engine).trace_sets(intent_id@, input@, *strict, seed),
            old(engine).trace_sets(intent_id@, input@, *weakened, seed),
        ),
{
    let backend_id = engine.describe().backend_id;
    let policy = Policy::default();
    let real_trace = engine.infer_traced(&InferRequest { intent_id, input, grammar: strict, policy: &policy, seed });
    let weak_trace = engine.infer_traced(&InferRequest { intent_id, input, grammar: weakened, policy: &policy, seed });
    let f = falsify_traces(backend_id, real_trace, weak_trace);
    f
}

} // verus!
