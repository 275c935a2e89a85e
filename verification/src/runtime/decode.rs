//! The grammar a `divine` site carries in a compiled artifact, and its byte
//! format: a small self-describing little-endian encoding. The backend
//! writes it with [`encode`]; the runtime reads it back with
//! [`decode_grammar`]. Decoding an encoding gives back the same grammar.

use vstd::prelude::*;
use vstd::bytes::*;
use vstd::slice::*;
use vstd::utf8::*;
/// The compiled path's decoder generator is the interpreter's.
pub use crate::decoder::{reset, Rng};

verus! {

/// An output-type grammar as the artifact carries it. Variants carry the tag
/// the backend interned for them, so a decoded variant dispatches through a
/// compiled `enact`.
#[derive(Debug, PartialEq)]
pub enum Grammar {
    /// Inclusive integer range.
    Number { lo: i64, hi: i64 },
    Bool,
    /// Bounded free text; also the form of an absent type constraint.
    Text { max_len: usize },
    Record(Vec<(String, Grammar)>),
    OneOf(Vec<GrammarVariant>),
    /// Between `lo` and `hi` (inclusive) elements, each inhabiting `elem`.
    List { elem: Box<Grammar>, lo: u32, hi: u32 },
}

#[derive(Debug, PartialEq)]
pub struct GrammarVariant {
    pub name: String,
    pub tag: u32,
    pub fields: Vec<(String, Grammar)>,
}

pub const TAG_NUMBER: u8 = 0;
pub const TAG_BOOL: u8 = 1;
pub const TAG_TEXT: u8 = 2;
pub const TAG_RECORD: u8 = 3;
pub const TAG_ONEOF: u8 = 4;
pub const TAG_LIST: u8 = 5;

// ------------------------------------------------------------ the format

/// A string: its UTF-8 length as a `u32`, then its UTF-8 bytes.
pub open spec fn enc_str(s: Seq<char>) -> Seq<u8> {
    spec_u32_to_le_bytes(encode_utf8(s).len() as u32) + encode_utf8(s)
}

/// The encoding of a grammar: a tag byte, then the variant's payload.
/// Integers are little-endian; a record is its field count and its fields;
/// a variant set is its variant count and its variants; a list is its bounds
/// and its element grammar.
pub open spec fn enc(g: Grammar) -> Seq<u8>
    decreases g,
{
    match g {
        Grammar::Number { lo, hi } => seq![TAG_NUMBER] + spec_u64_to_le_bytes(lo as u64)
            + spec_u64_to_le_bytes(hi as u64),
        Grammar::Bool => seq![TAG_BOOL],
        Grammar::Text { max_len } => seq![TAG_TEXT] + spec_u64_to_le_bytes(max_len as u64),
        Grammar::Record(fields) => seq![TAG_RECORD] + spec_u32_to_le_bytes(fields@.len() as u32)
            + enc_fields(fields@),
        Grammar::OneOf(variants) => seq![TAG_ONEOF] + spec_u32_to_le_bytes(
            variants@.len() as u32,
        ) + enc_variants(variants@),
        Grammar::List { elem, lo, hi } => seq![TAG_LIST] + spec_u32_to_le_bytes(lo)
            + spec_u32_to_le_bytes(hi) + enc(*elem),
    }
}

/// Each field in order: its name, then its grammar.
pub open spec fn enc_fields(fs: Seq<(String, Grammar)>) -> Seq<u8>
    decreases fs,
{
    if fs.len() == 0 {
        Seq::empty()
    } else {
        enc_str(fs[0].0@) + enc(fs[0].1) + enc_fields(fs.drop_first())
    }
}

/// Each variant in order: its name, its tag, its field count, its fields.
pub open spec fn enc_variants(vs: Seq<GrammarVariant>) -> Seq<u8>
    decreases vs,
{
    if vs.len() == 0 {
        Seq::empty()
    } else {
        enc_str(vs[0].name@) + spec_u32_to_le_bytes(vs[0].tag) + spec_u32_to_le_bytes(
            vs[0].fields@.len() as u32,
        ) + enc_fields(vs[0].fields@) + enc_variants(vs.drop_first())
    }
}

pub open spec fn enc_field(f: (String, Grammar)) -> Seq<u8> {
    enc_str(f.0@) + enc(f.1)
}

pub open spec fn enc_variant(v: GrammarVariant) -> Seq<u8> {
    enc_str(v.name@) + spec_u32_to_le_bytes(v.tag) + spec_u32_to_le_bytes(v.fields@.len() as u32)
        + enc_fields(v.fields@)
}

/// Every count and string length the format writes as a `u32` fits in one.
pub open spec fn encodable(g: Grammar) -> bool
    decreases g,
{
    match g {
        Grammar::Record(fields) => fields@.len() <= u32::MAX && fields_encodable(fields@),
        Grammar::OneOf(variants) => variants@.len() <= u32::MAX && variants_encodable(variants@),
        Grammar::List { elem, .. } => encodable(*elem),
        _ => true,
    }
}

pub open spec fn fields_encodable(fs: Seq<(String, Grammar)>) -> bool
    decreases fs,
{
    fs.len() == 0 || (encode_utf8(fs[0].0@).len() <= u32::MAX && encodable(fs[0].1)
        && fields_encodable(fs.drop_first()))
}

pub open spec fn variants_encodable(vs: Seq<GrammarVariant>) -> bool
    decreases vs,
{
    vs.len() == 0 || (encode_utf8(vs[0].name@).len() <= u32::MAX && vs[0].fields@.len()
        <= u32::MAX && fields_encodable(vs[0].fields@) && variants_encodable(vs.drop_first()))
}

proof fn lemma_enc_fields_push(fs: Seq<(String, Grammar)>, f: (String, Grammar))
    ensures
        enc_fields(fs.push(f)) == enc_fields(fs) + enc_field(f),
        fields_encodable(fs.push(f)) == (fields_encodable(fs) && encode_utf8(f.0@).len()
            <= u32::MAX && encodable(f.1)),
    decreases fs.len(),
{
    if fs.len() == 0 {
        let e = Seq::<(String, Grammar)>::empty();
        assert(fs.push(f).drop_first() =~= e);
        assert(enc_fields(e) == Seq::<u8>::empty());
        assert(fields_encodable(e));
        assert(fs.push(f)[0] == f);
        assert(enc_fields(fs.push(f)) =~= enc_fields(fs) + enc_field(f));
    } else {
        lemma_enc_fields_push(fs.drop_first(), f);
        assert(fs.push(f).drop_first() =~= fs.drop_first().push(f));
        assert(enc_fields(fs.push(f)) =~= enc_fields(fs) + enc_field(f));
    }
}

proof fn lemma_enc_variants_push(vs: Seq<GrammarVariant>, v: GrammarVariant)
    ensures
        enc_variants(vs.push(v)) == enc_variants(vs) + enc_variant(v),
        variants_encodable(vs.push(v)) == (variants_encodable(vs) && encode_utf8(v.name@).len()
            <= u32::MAX && v.fields@.len() <= u32::MAX && fields_encodable(v.fields@)),
    decreases vs.len(),
{
    if vs.len() == 0 {
        let e = Seq::<GrammarVariant>::empty();
        assert(vs.push(v).drop_first() =~= e);
        assert(enc_variants(e) == Seq::<u8>::empty());
        assert(variants_encodable(e));
        assert(vs.push(v)[0] == v);
        assert(enc_variants(vs.push(v)) =~= enc_variants(vs) + enc_variant(v));
    } else {
        lemma_enc_variants_push(vs.drop_first(), v);
        assert(vs.push(v).drop_first() =~= vs.drop_first().push(v));
        assert(enc_variants(vs.push(v)) =~= enc_variants(vs) + enc_variant(v));
    }
}

// ------------------------------------------------------------ encoding

fn push_bytes(out: &mut Vec<u8>, bytes: Vec<u8>)
    ensures
        final(out)@ == old(out)@ + bytes@,
{
    let mut b = bytes;
    out.append(&mut b);
}

fn encode_str(s: &String, out: &mut Vec<u8>)
    requires
        encode_utf8(s@).len() <= u32::MAX,
    ensures
        final(out)@ == old(out)@ + enc_str(s@),
{
    let bytes = s.as_str().as_bytes();
    push_bytes(out, u32_to_le_bytes(bytes.len() as u32));
    push_bytes(out, slice_to_vec(bytes));
    assert(final(out)@ =~= old(out)@ + enc_str(s@));
}

/// Serialises a grammar to bytes for embedding in an artifact.
pub fn encode(g: &Grammar) -> (r: Vec<u8>)
    requires
        encodable(*g),
    ensures
        r@ == enc(*g),
{
    let mut out: Vec<u8> = Vec::new();
    encode_into(g, &mut out);
    assert(out@ =~= enc(*g));
    out
}

fn encode_into(g: &Grammar, out: &mut Vec<u8>)
    requires
        encodable(*g),
    ensures
        final(out)@ == old(out)@ + enc(*g),
    decreases *g,
{
    match g {
        Grammar::Number { lo, hi } => {
            out.push(TAG_NUMBER);
            push_bytes(out, u64_to_le_bytes(*lo as u64));
            push_bytes(out, u64_to_le_bytes(*hi as u64));
        },
        Grammar::Bool => {
            out.push(TAG_BOOL);
        },
        Grammar::Text { max_len } => {
            out.push(TAG_TEXT);
            push_bytes(out, u64_to_le_bytes(*max_len as u64));
        },
        Grammar::Record(fields) => {
            out.push(TAG_RECORD);
            push_bytes(out, u32_to_le_bytes(fields.len() as u32));
            encode_fields(fields, out);
        },
        Grammar::OneOf(variants) => {
            out.push(TAG_ONEOF);
            push_bytes(out, u32_to_le_bytes(variants.len() as u32));
            encode_variants(variants, out);
        },
        Grammar::List { elem, lo, hi } => {
            out.push(TAG_LIST);
            push_bytes(out, u32_to_le_bytes(*lo));
            push_bytes(out, u32_to_le_bytes(*hi));
            encode_into(elem, out);
        },
    }
    assert(final(out)@ =~= old(out)@ + enc(*g));
}

fn encode_fields(fields: &Vec<(String, Grammar)>, out: &mut Vec<u8>)
    requires
        fields_encodable(fields@),
    ensures
        final(out)@ == old(out)@ + enc_fields(fields@),
    decreases fields@,
{
    let n = fields.len();
    let mut i: usize = 0;
    while i < n
        invariant
            n == fields.len(),
            i <= n,
            fields_encodable(fields@),
            out@ == old(out)@ + enc_fields(fields@.take(i as int)),
        decreases n - i,
    {
        proof {
            lemma_fields_encodable_take(fields@, i as int);
            lemma_enc_fields_push(fields@.take(i as int), fields@[i as int]);
            assert(fields@.take(i + 1) =~= fields@.take(i as int).push(fields@[i as int]));
        }
        encode_str(&fields[i].0, out);
        encode_into(&fields[i].1, out);
        assert(out@ =~= old(out)@ + enc_fields(fields@.take(i + 1)));
        i = i + 1;
    }
    assert(fields@.take(n as int) =~= fields@);
}

fn encode_variants(variants: &Vec<GrammarVariant>, out: &mut Vec<u8>)
    requires
        variants_encodable(variants@),
    ensures
        final(out)@ == old(out)@ + enc_variants(variants@),
    decreases variants@,
{
    let n = variants.len();
    let mut i: usize = 0;
    while i < n
        invariant
            n == variants.len(),
            i <= n,
            variants_encodable(variants@),
            out@ == old(out)@ + enc_variants(variants@.take(i as int)),
        decreases n - i,
    {
        proof {
            lemma_variants_encodable_take(variants@, i as int);
            lemma_enc_variants_push(variants@.take(i as int), variants@[i as int]);
            assert(variants@.take(i + 1) =~= variants@.take(i as int).push(variants@[i as int]));
        }
        let v = &variants[i];
        encode_str(&v.name, out);
        push_bytes(out, u32_to_le_bytes(v.tag));
        push_bytes(out, u32_to_le_bytes(v.fields.len() as u32));
        encode_fields(&v.fields, out);
        assert(out@ =~= old(out)@ + enc_variants(variants@.take(i + 1)));
        i = i + 1;
    }
    assert(variants@.take(n as int) =~= variants@);
}

proof fn lemma_fields_encodable_take(fs: Seq<(String, Grammar)>, k: int)
    requires
        fields_encodable(fs),
        0 <= k <= fs.len(),
    ensures
        fields_encodable(fs.take(k)),
        k < fs.len() ==> encode_utf8(fs[k].0@).len() <= u32::MAX && encodable(fs[k].1),
    decreases fs.len(),
{
    if k > 0 {
        lemma_fields_encodable_take(fs.drop_first(), k - 1);
        assert(fs.take(k).drop_first() =~= fs.drop_first().take(k - 1));
        if k < fs.len() {
            assert(fs.drop_first()[k - 1] == fs[k]);
        }
    } else {
        assert(fs.take(0) =~= Seq::<(String, Grammar)>::empty());
    }
}

proof fn lemma_variants_encodable_take(vs: Seq<GrammarVariant>, k: int)
    requires
        variants_encodable(vs),
        0 <= k <= vs.len(),
    ensures
        variants_encodable(vs.take(k)),
        k < vs.len() ==> encode_utf8(vs[k].name@).len() <= u32::MAX && vs[k].fields@.len()
            <= u32::MAX && fields_encodable(vs[k].fields@),
    decreases vs.len(),
{
    if k > 0 {
        lemma_variants_encodable_take(vs.drop_first(), k - 1);
        assert(vs.take(k).drop_first() =~= vs.drop_first().take(k - 1));
        if k < vs.len() {
            assert(vs.drop_first()[k - 1] == vs[k]);
        }
    } else {
        assert(vs.take(0) =~= Seq::<GrammarVariant>::empty());
    }
}

// ------------------------------------------------------------ reading

/// The little-endian `u32` at `p`.
pub open spec fn u32_at(b: Seq<u8>, p: int) -> u32 {
    spec_u32_from_le_bytes(b.subrange(p, p + 4))
}

/// The little-endian `u64` at `p`.
pub open spec fn u64_at(b: Seq<u8>, p: int) -> u64 {
    spec_u64_from_le_bytes(b.subrange(p, p + 8))
}

/// Where a well-formed string encoding starting at `p` ends.
pub open spec fn str_end(b: Seq<u8>, p: int) -> Option<int> {
    if 0 <= p && p + 4 <= b.len() {
        let e = p + 4 + u32_at(b, p);
        if e <= b.len() && valid_utf8(b.subrange(p + 4, e)) {
            Some(e)
        } else {
            None
        }
    } else {
        None
    }
}

/// Where a well-formed grammar encoding starting at `p` ends, or `None`
/// when the bytes there are not one.
pub open spec fn grammar_end(b: Seq<u8>, p: int) -> Option<int>
    decreases b.len() - p,
{
    if p < 0 || p >= b.len() {
        None
    } else if b[p] == TAG_NUMBER {
        if p + 17 <= b.len() {
            Some(p + 17)
        } else {
            None
        }
    } else if b[p] == TAG_BOOL {
        Some(p + 1)
    } else if b[p] == TAG_TEXT {
        if p + 9 <= b.len() && u64_at(b, p + 1) <= usize::MAX {
            Some(p + 9)
        } else {
            None
        }
    } else if b[p] == TAG_RECORD {
        if p + 5 <= b.len() {
            fields_end(b, p + 5, u32_at(b, p + 1) as int)
        } else {
            None
        }
    } else if b[p] == TAG_ONEOF {
        if p + 5 <= b.len() {
            variants_end(b, p + 5, u32_at(b, p + 1) as int)
        } else {
            None
        }
    } else if b[p] == TAG_LIST {
        if p + 9 <= b.len() {
            grammar_end(b, p + 9)
        } else {
            None
        }
    } else {
        None
    }
}

/// Where `n` well-formed field encodings starting at `p` end.
pub open spec fn fields_end(b: Seq<u8>, p: int, n: int) -> Option<int>
    decreases b.len() - p,
{
    if n <= 0 {
        Some(p)
    } else {
        match str_end(b, p) {
            None => None,
            Some(s) => if p < s {
                match grammar_end(b, s) {
                    None => None,
                    Some(e) => if p < e <= b.len() {
                        fields_end(b, e, n - 1)
                    } else {
                        None
                    },
                }
            } else {
                None
            },
        }
    }
}

/// Where `n` well-formed variant encodings starting at `p` end.
pub open spec fn variants_end(b: Seq<u8>, p: int, n: int) -> Option<int>
    decreases b.len() - p,
{
    if n <= 0 {
        Some(p)
    } else {
        match str_end(b, p) {
            None => None,
            Some(s) => if p < s && s + 8 <= b.len() {
                match fields_end(b, s + 8, u32_at(b, s + 4) as int) {
                    None => None,
                    Some(e) => if p < e <= b.len() {
                        variants_end(b, e, n - 1)
                    } else {
                        None
                    },
                }
            } else {
                None
            },
        }
    }
}

proof fn lemma_split(b: Seq<u8>, p: int, x: Seq<u8>, y: Seq<u8>)
    requires
        0 <= p,
        p + x.len() + y.len() <= b.len(),
        b.subrange(p, p + x.len() + y.len()) == x + y,
    ensures
        b.subrange(p, p + x.len()) == x,
        b.subrange(p + x.len(), p + x.len() + y.len()) == y,
{
    let w = b.subrange(p, p + x.len() + y.len());
    assert forall|i: int| 0 <= i < x.len() implies b.subrange(p, p + x.len())[i] == x[i] by {
        assert(w[i] == (x + y)[i]);
    }
    assert forall|i: int| 0 <= i < y.len() implies b.subrange(p + x.len(), p + x.len()
        + y.len())[i] == y[i] by {
        assert(w[x.len() + i] == (x + y)[x.len() + i]);
    }
    assert(b.subrange(p, p + x.len()) =~= x);
    assert(b.subrange(p + x.len(), p + x.len() + y.len()) =~= y);
}

proof fn lemma_str_end(s: Seq<char>, b: Seq<u8>, p: int)
    requires
        encode_utf8(s).len() <= u32::MAX,
        0 <= p,
        p + enc_str(s).len() <= b.len(),
        b.subrange(p, p + enc_str(s).len()) == enc_str(s),
    ensures
        enc_str(s).len() == 4 + encode_utf8(s).len(),
        str_end(b, p) == Some(p + enc_str(s).len()),
{
    lemma_auto_spec_u32_to_from_le_bytes();
    broadcast use encode_utf8_valid_utf8;
    let u = encode_utf8(s);
    let l = spec_u32_to_le_bytes(u.len() as u32);
    lemma_split(b, p, l, u);
}

/// An encoding, wherever it stands in a byte string, parses to its own end.
proof fn lemma_grammar_end(g: Grammar, b: Seq<u8>, p: int)
    requires
        encodable(g),
        0 <= p,
        p + enc(g).len() <= b.len(),
        b.subrange(p, p + enc(g).len()) == enc(g),
    ensures
        grammar_end(b, p) == Some(p + enc(g).len()),
    decreases g,
{
    lemma_auto_spec_u32_to_from_le_bytes();
    lemma_auto_spec_u64_to_from_le_bytes();
    let e = enc(g);
    assert(b[p] == b.subrange(p, p + e.len())[0]);
    match g {
        Grammar::Number { lo, hi } => {
        },
        Grammar::Bool => {
        },
        Grammar::Text { max_len } => {
            let x = seq![TAG_TEXT];
            let y = spec_u64_to_le_bytes(max_len as u64);
            lemma_split(b, p, x, y);
        },
        Grammar::Record(fields) => {
            let x = seq![TAG_RECORD];
            let c = spec_u32_to_le_bytes(fields@.len() as u32);
            let f = enc_fields(fields@);
            assert(e == x + c + f);
            lemma_split(b, p, x + c, f);
            lemma_split(b, p, x, c);
            lemma_fields_end(fields@, b, p + 5);
        },
        Grammar::OneOf(variants) => {
            let x = seq![TAG_ONEOF];
            let c = spec_u32_to_le_bytes(variants@.len() as u32);
            let f = enc_variants(variants@);
            assert(e == x + c + f);
            lemma_split(b, p, x + c, f);
            lemma_split(b, p, x, c);
            lemma_variants_end(variants@, b, p + 5);
        },
        Grammar::List { elem, lo, hi } => {
            let x = seq![TAG_LIST] + spec_u32_to_le_bytes(lo) + spec_u32_to_le_bytes(hi);
            assert(e == x + enc(*elem));
            lemma_split(b, p, x, enc(*elem));
            lemma_grammar_end(*elem, b, p + 9);
        },
    }
}

proof fn lemma_fields_end(fs: Seq<(String, Grammar)>, b: Seq<u8>, p: int)
    requires
        fields_encodable(fs),
        0 <= p,
        p + enc_fields(fs).len() <= b.len(),
        b.subrange(p, p + enc_fields(fs).len()) == enc_fields(fs),
    ensures
        fields_end(b, p, fs.len() as int) == Some(p + enc_fields(fs).len()),
    decreases fs,
{
    if fs.len() > 0 {
        let s = enc_str(fs[0].0@);
        let g = enc(fs[0].1);
        let r = enc_fields(fs.drop_first());
        assert(enc_fields(fs) == s + g + r);
        lemma_split(b, p, s + g, r);
        lemma_split(b, p, s, g);
        lemma_str_end(fs[0].0@, b, p);
        lemma_grammar_end(fs[0].1, b, p + s.len());
        lemma_fields_end(fs.drop_first(), b, p + s.len() + g.len());
    }
}

proof fn lemma_variants_end(vs: Seq<GrammarVariant>, b: Seq<u8>, p: int)
    requires
        variants_encodable(vs),
        0 <= p,
        p + enc_variants(vs).len() <= b.len(),
        b.subrange(p, p + enc_variants(vs).len()) == enc_variants(vs),
    ensures
        variants_end(b, p, vs.len() as int) == Some(p + enc_variants(vs).len()),
    decreases vs,
{
    lemma_auto_spec_u32_to_from_le_bytes();
    if vs.len() > 0 {
        let v = vs[0];
        let s = enc_str(v.name@);
        let t = spec_u32_to_le_bytes(v.tag);
        let c = spec_u32_to_le_bytes(v.fields@.len() as u32);
        let f = enc_fields(v.fields@);
        let r = enc_variants(vs.drop_first());
        assert(enc_variants(vs) == s + t + c + f + r);
        lemma_split(b, p, s + t + c + f, r);
        lemma_split(b, p, s + t + c, f);
        lemma_split(b, p, s + t, c);
        lemma_split(b, p, s, t);
        lemma_str_end(v.name@, b, p);
        lemma_fields_end(v.fields@, b, p + s.len() + 8);
        lemma_variants_end(vs.drop_first(), b, p + s.len() + 8 + f.len());
    }
}

/// Every encodable grammar's bytes are one well-formed grammar encoding, with
/// nothing after it.
pub proof fn lemma_encoding_is_well_formed(g: Grammar)
    requires
        encodable(g),
    ensures
        grammar_end(enc(g), 0) == Some(enc(g).len() as int),
{
    assert(enc(g).subrange(0, enc(g).len() as int) =~= enc(g));
    lemma_grammar_end(g, enc(g), 0);
}

proof fn lemma_i64_bits(x: u64)
    ensures
        ((x as i64) as u64) == x,
{
    assert(((x as i64) as u64) == x) by (bit_vector);
}

fn read_u32(b: &[u8], p: usize) -> (x: u32)
    requires
        p + 4 <= b@.len(),
    ensures
        x == u32_at(b@, p as int),
{
    assert(b@.len() == b.len());
    u32_from_le_bytes(slice_subrange(b, p, p + 4))
}

fn read_u64(b: &[u8], p: usize) -> (x: u64)
    requires
        p + 8 <= b@.len(),
    ensures
        x == u64_at(b@, p as int),
{
    assert(b@.len() == b.len());
    u64_from_le_bytes(slice_subrange(b, p, p + 8))
}

/// `String::from_utf8`: the string whose UTF-8 encoding is `bytes`, or
/// `None` when `bytes` is not valid UTF-8.
#[verifier::external_body]
fn string_from_utf8(bytes: Vec<u8>) -> (r: Option<String>)
    ensures
        match r {
            Some(s) => encode_utf8(s@) == bytes@,
            None => !valid_utf8(bytes@),
        },
{
    String::from_utf8(bytes).ok()
}

fn read_str(b: &[u8], p: usize) -> (r: (String, usize))
    requires
        str_end(b@, p as int) is Some,
    ensures
        r.1 == str_end(b@, p as int)->0,
        encode_utf8(r.0@).len() <= u32::MAX,
        enc_str(r.0@) == b@.subrange(p as int, r.1 as int),
{
    assert(b@.len() == b.len());
    let n = read_u32(b, p);
    let e = p + 4 + n as usize;
    let s = string_from_utf8(slice_to_vec(slice_subrange(b, p + 4, e))).unwrap();
    proof {
        lemma_auto_spec_u32_to_from_le_bytes();
        assert(b@.subrange(p as int, e as int) =~= b@.subrange(p as int, p + 4) + b@.subrange(
            p + 4,
            e as int,
        ));
    }
    (s, e)
}

fn read_grammar(b: &[u8], p: usize) -> (r: (Grammar, usize))
    requires
        grammar_end(b@, p as int) is Some,
    ensures
        r.1 == grammar_end(b@, p as int)->0,
        p < r.1 <= b@.len(),
        encodable(r.0),
        enc(r.0) == b@.subrange(p as int, r.1 as int),
    decreases b@.len() - p,
{
    proof {
        lemma_auto_spec_u32_to_from_le_bytes();
        lemma_auto_spec_u64_to_from_le_bytes();
    }
    let t = b[p];
    if t == TAG_NUMBER {
        let x = read_u64(b, p + 1);
        let y = read_u64(b, p + 9);
        proof {
            lemma_i64_bits(x);
            lemma_i64_bits(y);
            assert(b@.subrange(p as int, p + 17) =~= seq![t] + b@.subrange(p + 1, p + 9)
                + b@.subrange(p + 9, p + 17));
        }
        let g = Grammar::Number { lo: x as i64, hi: y as i64 };
        assert(enc(g) =~= b@.subrange(p as int, p + 17));
        (g, p + 17)
    } else if t == TAG_BOOL {
        let g = Grammar::Bool;
        assert(enc(g) =~= b@.subrange(p as int, p + 1));
        (g, p + 1)
    } else if t == TAG_TEXT {
        let x = read_u64(b, p + 1);
        proof {
            assert(b@.subrange(p as int, p + 9) =~= seq![t] + b@.subrange(p + 1, p + 9));
        }
        let g = Grammar::Text { max_len: x as usize };
        assert(enc(g) =~= b@.subrange(p as int, p + 9));
        (g, p + 9)
    } else if t == TAG_RECORD {
        let n = read_u32(b, p + 1);
        let (fields, e) = read_fields(b, p + 5, n);
        proof {
            assert(b@.subrange(p as int, e as int) =~= seq![t] + b@.subrange(p + 1, p + 5)
                + b@.subrange(p + 5, e as int));
        }
        let g = Grammar::Record(fields);
        assert(enc(g) =~= b@.subrange(p as int, e as int));
        (g, e)
    } else if t == TAG_ONEOF {
        let n = read_u32(b, p + 1);
        let (variants, e) = read_variants(b, p + 5, n);
        proof {
            assert(b@.subrange(p as int, e as int) =~= seq![t] + b@.subrange(p + 1, p + 5)
                + b@.subrange(p + 5, e as int));
        }
        let g = Grammar::OneOf(variants);
        assert(enc(g) =~= b@.subrange(p as int, e as int));
        (g, e)
    } else {
        let lo = read_u32(b, p + 1);
        let hi = read_u32(b, p + 5);
        let (elem, e) = read_grammar(b, p + 9);
        proof {
            assert(b@.subrange(p as int, e as int) =~= seq![t] + b@.subrange(p + 1, p + 5)
                + b@.subrange(p + 5, p + 9) + b@.subrange(p + 9, e as int));
        }
        let g = Grammar::List { elem: Box::new(elem), lo, hi };
        assert(enc(g) =~= b@.subrange(p as int, e as int));
        (g, e)
    }
}

fn read_fields(b: &[u8], p: usize, n: u32) -> (r: (Vec<(String, Grammar)>, usize))
    requires
        p <= b@.len(),
        fields_end(b@, p as int, n as int) is Some,
    ensures
        r.1 == fields_end(b@, p as int, n as int)->0,
        p <= r.1 <= b@.len(),
        r.0@.len() == n,
        fields_encodable(r.0@),
        enc_fields(r.0@) == b@.subrange(p as int, r.1 as int),
    decreases b@.len() - p,
{
    let mut out: Vec<(String, Grammar)> = Vec::new();
    let mut pos = p;
    let mut i: u32 = 0;
    assert(b@.subrange(p as int, p as int) =~= Seq::<u8>::empty());
    while i < n
        invariant
            p <= pos <= b@.len(),
            i <= n,
            out@.len() == i,
            fields_end(b@, p as int, n as int) == fields_end(b@, pos as int, n - i),
            fields_end(b@, pos as int, n - i) is Some,
            fields_encodable(out@),
            enc_fields(out@) == b@.subrange(p as int, pos as int),
        decreases n - i,
    {
        let (name, s) = read_str(b, pos);
        let (g, e) = read_grammar(b, s);
        proof {
            lemma_enc_fields_push(out@, (name, g));
            assert(b@.subrange(p as int, e as int) =~= b@.subrange(p as int, pos as int)
                + b@.subrange(pos as int, s as int) + b@.subrange(s as int, e as int));
        }
        out.push((name, g));
        pos = e;
        i = i + 1;
    }
    (out, pos)
}

fn read_variants(b: &[u8], p: usize, n: u32) -> (r: (Vec<GrammarVariant>, usize))
    requires
        p <= b@.len(),
        variants_end(b@, p as int, n as int) is Some,
    ensures
        r.1 == variants_end(b@, p as int, n as int)->0,
        p <= r.1 <= b@.len(),
        r.0@.len() == n,
        variants_encodable(r.0@),
        enc_variants(r.0@) == b@.subrange(p as int, r.1 as int),
    decreases b@.len() - p,
{
    let mut out: Vec<GrammarVariant> = Vec::new();
    let mut pos = p;
    let mut i: u32 = 0;
    assert(b@.subrange(p as int, p as int) =~= Seq::<u8>::empty());
    while i < n
        invariant
            p <= pos <= b@.len(),
            i <= n,
            out@.len() == i,
            variants_end(b@, p as int, n as int) == variants_end(b@, pos as int, n - i),
            variants_end(b@, pos as int, n - i) is Some,
            variants_encodable(out@),
            enc_variants(out@) == b@.subrange(p as int, pos as int),
        decreases n - i,
    {
        let (name, s) = read_str(b, pos);
        assert(b@.len() == b.len());
        let tag = read_u32(b, s);
        let k = read_u32(b, s + 4);
        let (fields, e) = read_fields(b, s + 8, k);
        let v = GrammarVariant { name, tag, fields };
        proof {
            lemma_auto_spec_u32_to_from_le_bytes();
            lemma_enc_variants_push(out@, v);
            assert(b@.subrange(p as int, e as int) =~= b@.subrange(p as int, pos as int)
                + b@.subrange(pos as int, s as int) + b@.subrange(s as int, s + 4) + b@.subrange(
                s + 4,
                s + 8,
            ) + b@.subrange(s + 8, e as int));
        }
        out.push(v);
        pos = e;
        i = i + 1;
    }
    (out, pos)
}

/// Reconstructs the grammar encoded at the start of `bytes` (what follows it
/// is not read).
pub fn decode_grammar(bytes: &[u8]) -> (g: Grammar)
    requires
        grammar_end(bytes@, 0) is Some,
    ensures
        encodable(g),
        enc(g) == bytes@.subrange(0, grammar_end(bytes@, 0)->0),
{
    read_grammar(bytes, 0).0
}

// ------------------------------------------------------------ round trip

/// Two grammars are the same: same shape, same bounds, same names (as
/// character sequences), same tags.
pub open spec fn same(a: Grammar, b: Grammar) -> bool
    decreases a,
{
    match (a, b) {
        (Grammar::Number { lo: l1, hi: h1 }, Grammar::Number { lo: l2, hi: h2 }) => l1 == l2 && h1
            == h2,
        (Grammar::Bool, Grammar::Bool) => true,
        (Grammar::Text { max_len: m1 }, Grammar::Text { max_len: m2 }) => m1 == m2,
        (Grammar::Record(f1), Grammar::Record(f2)) => same_fields(f1@, f2@),
        (Grammar::OneOf(v1), Grammar::OneOf(v2)) => same_variants(v1@, v2@),
        (Grammar::List { elem: e1, lo: l1, hi: h1 }, Grammar::List { elem: e2, lo: l2, hi: h2 }) =>
            l1 == l2 && h1 == h2 && same(*e1, *e2),
        _ => false,
    }
}

pub open spec fn same_fields(f1: Seq<(String, Grammar)>, f2: Seq<(String, Grammar)>) -> bool
    decreases f1,
{
    f1.len() == f2.len() && (f1.len() == 0 || (f1[0].0@ == f2[0].0@ && same(f1[0].1, f2[0].1)
        && same_fields(f1.drop_first(), f2.drop_first())))
}

pub open spec fn same_variants(v1: Seq<GrammarVariant>, v2: Seq<GrammarVariant>) -> bool
    decreases v1,
{
    v1.len() == v2.len() && (v1.len() == 0 || (v1[0].name@ == v2[0].name@ && v1[0].tag == v2[0].tag
        && same_fields(v1[0].fields@, v2[0].fields@) && same_variants(
        v1.drop_first(),
        v2.drop_first(),
    )))
}

proof fn lemma_cat_eq(a1: Seq<u8>, b1: Seq<u8>, a2: Seq<u8>, b2: Seq<u8>)
    requires
        a1 + b1 == a2 + b2,
        a1.len() == a2.len(),
    ensures
        a1 == a2,
        b1 == b2,
{
    let x = a1 + b1;
    let y = a2 + b2;
    assert(x.len() == a1.len() + b1.len());
    assert(y.len() == a2.len() + b2.len());
    assert(b1.len() == b2.len());
    assert forall|i: int| 0 <= i < a1.len() implies a1[i] == a2[i] by {
        assert(x[i] == a1[i]);
        assert(y[i] == a2[i]);
    }
    assert forall|i: int| 0 <= i < b1.len() implies b1[i] == b2[i] by {
        assert(x[a1.len() + i] == b1[i]);
        assert(y[a2.len() + i] == b2[i]);
    }
    assert(a1 =~= a2);
    assert(b1 =~= b2);
}

proof fn lemma_i64_bits_injective(a: i64, b: i64)
    ensures
        (a as u64) == (b as u64) ==> a == b,
{
    assert((a as u64) == (b as u64) ==> a == b) by (bit_vector);
}

/// A string encoding at the front of two equal byte strings: the strings
/// agree and so do the bytes after them.
proof fn lemma_str_prefix(s1: Seq<char>, s2: Seq<char>, r1: Seq<u8>, r2: Seq<u8>)
    requires
        encode_utf8(s1).len() <= u32::MAX,
        encode_utf8(s2).len() <= u32::MAX,
        enc_str(s1) + r1 == enc_str(s2) + r2,
    ensures
        s1 == s2,
        r1 == r2,
{
    lemma_auto_spec_u32_to_from_le_bytes();
    broadcast use encode_utf8_decode_utf8;
    let u1 = encode_utf8(s1);
    let u2 = encode_utf8(s2);
    let l1 = spec_u32_to_le_bytes(u1.len() as u32);
    let l2 = spec_u32_to_le_bytes(u2.len() as u32);
    assert(enc_str(s1) + r1 =~= l1 + (u1 + r1));
    assert(enc_str(s2) + r2 =~= l2 + (u2 + r2));
    lemma_cat_eq(l1, u1 + r1, l2, u2 + r2);
    assert(spec_u32_from_le_bytes(l1) == u1.len() as u32);
    lemma_cat_eq(u1, r1, u2, r2);
    assert(decode_utf8(u1) == s1);
    assert(decode_utf8(u2) == s2);
}

proof fn lemma_enc_prefix(g1: Grammar, g2: Grammar, r1: Seq<u8>, r2: Seq<u8>)
    requires
        encodable(g1),
        encodable(g2),
        enc(g1) + r1 == enc(g2) + r2,
    ensures
        enc(g1) == enc(g2),
        r1 == r2,
        same(g1, g2),
    decreases g1, 1int,
{
    let b = enc(g1) + r1;
    let e1 = enc(g1);
    let e2 = enc(g2);
    assert(b.subrange(0, e1.len() as int) =~= e1);
    assert(b.subrange(0, e2.len() as int) =~= e2);
    lemma_grammar_end(g1, b, 0);
    lemma_grammar_end(g2, b, 0);
    lemma_cat_eq(e1, r1, e2, r2);
    lemma_enc_same(g1, g2);
}

proof fn lemma_enc_same(g1: Grammar, g2: Grammar)
    requires
        encodable(g1),
        encodable(g2),
        enc(g1) == enc(g2),
    ensures
        same(g1, g2),
    decreases g1, 0int,
{
    lemma_auto_spec_u32_to_from_le_bytes();
    lemma_auto_spec_u64_to_from_le_bytes();
    let e = enc(g1);
    assert(enc(g1)[0] == enc(g2)[0]);
    match (g1, g2) {
        (Grammar::Number { lo: l1, hi: h1 }, Grammar::Number { lo: l2, hi: h2 }) => {
            lemma_cat_eq(
                seq![TAG_NUMBER] + spec_u64_to_le_bytes(l1 as u64),
                spec_u64_to_le_bytes(h1 as u64),
                seq![TAG_NUMBER] + spec_u64_to_le_bytes(l2 as u64),
                spec_u64_to_le_bytes(h2 as u64),
            );
            lemma_cat_eq(
                seq![TAG_NUMBER],
                spec_u64_to_le_bytes(l1 as u64),
                seq![TAG_NUMBER],
                spec_u64_to_le_bytes(l2 as u64),
            );
            lemma_i64_bits_injective(l1, l2);
            lemma_i64_bits_injective(h1, h2);
        },
        (Grammar::Bool, Grammar::Bool) => {},
        (Grammar::Text { max_len: m1 }, Grammar::Text { max_len: m2 }) => {
            lemma_cat_eq(
                seq![TAG_TEXT],
                spec_u64_to_le_bytes(m1 as u64),
                seq![TAG_TEXT],
                spec_u64_to_le_bytes(m2 as u64),
            );
        },
        (Grammar::Record(f1), Grammar::Record(f2)) => {
            let c1 = spec_u32_to_le_bytes(f1@.len() as u32);
            let c2 = spec_u32_to_le_bytes(f2@.len() as u32);
            lemma_cat_eq(seq![TAG_RECORD] + c1, enc_fields(f1@), seq![TAG_RECORD] + c2, enc_fields(f2@));
            lemma_cat_eq(seq![TAG_RECORD], c1, seq![TAG_RECORD], c2);
            assert(spec_u32_from_le_bytes(c1) == f1@.len() as u32);
            assert(enc_fields(f1@) + Seq::<u8>::empty() =~= enc_fields(f1@));
            assert(enc_fields(f2@) + Seq::<u8>::empty() =~= enc_fields(f2@));
            lemma_fields_prefix(f1@, f2@, Seq::empty(), Seq::empty());
        },
        (Grammar::OneOf(v1), Grammar::OneOf(v2)) => {
            let c1 = spec_u32_to_le_bytes(v1@.len() as u32);
            let c2 = spec_u32_to_le_bytes(v2@.len() as u32);
            lemma_cat_eq(seq![TAG_ONEOF] + c1, enc_variants(v1@), seq![TAG_ONEOF] + c2, enc_variants(v2@));
            lemma_cat_eq(seq![TAG_ONEOF], c1, seq![TAG_ONEOF], c2);
            assert(spec_u32_from_le_bytes(c1) == v1@.len() as u32);
            assert(enc_variants(v1@) + Seq::<u8>::empty() =~= enc_variants(v1@));
            assert(enc_variants(v2@) + Seq::<u8>::empty() =~= enc_variants(v2@));
            lemma_variants_prefix(v1@, v2@, Seq::empty(), Seq::empty());
        },
        (Grammar::List { elem: e1, lo: l1, hi: h1 }, Grammar::List { elem: e2, lo: l2, hi: h2 }) => {
            let a1 = seq![TAG_LIST] + spec_u32_to_le_bytes(l1) + spec_u32_to_le_bytes(h1);
            let a2 = seq![TAG_LIST] + spec_u32_to_le_bytes(l2) + spec_u32_to_le_bytes(h2);
            lemma_cat_eq(a1, enc(*e1), a2, enc(*e2));
            lemma_cat_eq(
                seq![TAG_LIST] + spec_u32_to_le_bytes(l1),
                spec_u32_to_le_bytes(h1),
                seq![TAG_LIST] + spec_u32_to_le_bytes(l2),
                spec_u32_to_le_bytes(h2),
            );
            lemma_cat_eq(
                seq![TAG_LIST],
                spec_u32_to_le_bytes(l1),
                seq![TAG_LIST],
                spec_u32_to_le_bytes(l2),
            );
            lemma_enc_same(*e1, *e2);
        },
        _ => {},
    }
}

proof fn lemma_fields_prefix(
    f1: Seq<(String, Grammar)>,
    f2: Seq<(String, Grammar)>,
    r1: Seq<u8>,
    r2: Seq<u8>,
)
    requires
        fields_encodable(f1),
        fields_encodable(f2),
        f1.len() == f2.len(),
        enc_fields(f1) + r1 == enc_fields(f2) + r2,
    ensures
        same_fields(f1, f2),
        r1 == r2,
    decreases f1, 0int,
{
    if f1.len() == 0 {
        assert(enc_fields(f1) + r1 =~= r1);
        assert(enc_fields(f2) + r2 =~= r2);
    } else {
        let t1 = enc_fields(f1.drop_first()) + r1;
        let t2 = enc_fields(f2.drop_first()) + r2;
        assert(enc_fields(f1) + r1 =~= enc_str(f1[0].0@) + (enc(f1[0].1) + t1));
        assert(enc_fields(f2) + r2 =~= enc_str(f2[0].0@) + (enc(f2[0].1) + t2));
        lemma_str_prefix(f1[0].0@, f2[0].0@, enc(f1[0].1) + t1, enc(f2[0].1) + t2);
        lemma_enc_prefix(f1[0].1, f2[0].1, t1, t2);
        lemma_fields_prefix(f1.drop_first(), f2.drop_first(), r1, r2);
    }
}

proof fn lemma_variants_prefix(v1: Seq<GrammarVariant>, v2: Seq<GrammarVariant>, r1: Seq<u8>, r2: Seq<u8>)
    requires
        variants_encodable(v1),
        variants_encodable(v2),
        v1.len() == v2.len(),
        enc_variants(v1) + r1 == enc_variants(v2) + r2,
    ensures
        same_variants(v1, v2),
        r1 == r2,
    decreases v1, 0int,
{
    lemma_auto_spec_u32_to_from_le_bytes();
    if v1.len() == 0 {
        assert(enc_variants(v1) + r1 =~= r1);
        assert(enc_variants(v2) + r2 =~= r2);
    } else {
        let a = v1[0];
        let b = v2[0];
        let t1 = enc_variants(v1.drop_first()) + r1;
        let t2 = enc_variants(v2.drop_first()) + r2;
        let ta = spec_u32_to_le_bytes(a.tag);
        let tb = spec_u32_to_le_bytes(b.tag);
        let ca = spec_u32_to_le_bytes(a.fields@.len() as u32);
        let cb = spec_u32_to_le_bytes(b.fields@.len() as u32);
        assert(enc_variants(v1) + r1 =~= enc_str(a.name@) + (ta + ca + (enc_fields(a.fields@) + t1)));
        assert(enc_variants(v2) + r2 =~= enc_str(b.name@) + (tb + cb + (enc_fields(b.fields@) + t2)));
        lemma_str_prefix(a.name@, b.name@, ta + ca + (enc_fields(a.fields@) + t1), tb + cb + (
        enc_fields(b.fields@) + t2));
        lemma_cat_eq(ta + ca, enc_fields(a.fields@) + t1, tb + cb, enc_fields(b.fields@) + t2);
        lemma_cat_eq(ta, ca, tb, cb);
        assert(spec_u32_from_le_bytes(ca) == a.fields@.len() as u32);
        lemma_fields_prefix(a.fields@, b.fields@, t1, t2);
        lemma_variants_prefix(v1.drop_first(), v2.drop_first(), r1, r2);
    }
}

/// Two encodable grammars with the same bytes are the same grammar: the
/// format loses nothing.
pub proof fn lemma_encoding_injective(g1: Grammar, g2: Grammar)
    requires
        encodable(g1),
        encodable(g2),
        enc(g1) == enc(g2),
    ensures
        same(g1, g2),
{
    lemma_enc_same(g1, g2);
}

/// Decoding what `encode` wrote gives back the grammar that was encoded: a
/// grammar whose encoding is the decoded prefix of `enc(g)` is `g`.
pub proof fn lemma_decode_inverts_encode(g: Grammar, d: Grammar)
    requires
        encodable(g),
        encodable(d),
        enc(d) == enc(g).subrange(0, grammar_end(enc(g), 0)->0),
    ensures
        same(d, g),
{
    lemma_encoding_is_well_formed(g);
    assert(enc(g).subrange(0, enc(g).len() as int) =~= enc(g));
    lemma_enc_same(d, g);
}

/// The encoding is self-delimiting: followed by any bytes, an encoding still
/// parses to its own end, and what `decode_grammar` reads there is the
/// grammar that was encoded.
pub proof fn lemma_decode_ignores_trailing_bytes(g: Grammar, extra: Seq<u8>, d: Grammar)
    requires
        encodable(g),
        encodable(d),
        enc(d) == (enc(g) + extra).subrange(0, enc(g).len() as int),
    ensures
        grammar_end(enc(g) + extra, 0) == Some(enc(g).len() as int),
        same(d, g),
{
    let b = enc(g) + extra;
    assert(b.subrange(0, enc(g).len() as int) =~= enc(g));
    lemma_grammar_end(g, b, 0);
    lemma_enc_same(d, g);
}

} // verus!
