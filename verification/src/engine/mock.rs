//! The deterministic, grammar-respecting Mock engine: the offline default and
//! the litmus oracle. Its trace is computed from the grammar, so the
//! falsification test can show masking occurred during generation.

use vstd::prelude::*;
use crate::decoder::{decode_step, gen_spec, gen_view, generable, inhabits, seeded, splitmix, GenValue, MockDecoder, SPLITMIX_GAMMA};
use crate::engine::{
    permitted_tokens, step_sets, trace_view, DecodeStep, Engine, EngineDescription, InferRequest,
    LatencyClass, Locality, Modality, Provenance,
};
use crate::grammar::Grammar;
use crate::engine::clone_strings;
use crate::text::{i64_to_string, owned, push_char, str_eq, views};

verus! {

/// The outcome of one inference by the Mock.
pub struct Inference {
    pub value: GenValue,
    /// The numerator of a fraction of `2^53`.
    pub confidence: u64,
    pub provenance: Provenance,
}

pub struct MockEngine {
    decoder: MockDecoder,
    model_id: String,
    model_version: String,
}

impl MockEngine {
    pub closed spec fn spec_model_id(&self) -> Seq<char> {
        self.model_id@
    }

    pub closed spec fn spec_model_version(&self) -> Seq<char> {
        self.model_version@
    }

    /// The state of the engine's seeded generator.
    pub closed spec fn spec_state(&self) -> u64 {
        self.decoder.spec_state()
    }

    pub fn new(seed: u64, model_id: &str) -> (e: MockEngine)
        ensures
            e.spec_model_id() == model_id@,
            e.spec_model_version() == "mock"@,
            e.spec_state() == seed.wrapping_add(SPLITMIX_GAMMA),
            e.spec_state() == seeded(seed),
    {
        MockEngine { decoder: MockDecoder::new(seed), model_id: owned(model_id), model_version: owned("mock") }
    }

    /// Provenance of an inference: with no bound model, the intent itself
    /// stands for the model.
    pub fn provenance(&self, intent_id: &str, seed: u64) -> (p: Provenance)
        ensures
            p.oracle@ == intent_id@,
            p.model@ == (if self.spec_model_id() == Seq::<char>::empty() {
                intent_id@
            } else {
                self.spec_model_id()
            }),
            p.model_version_or_sha@ == self.spec_model_version(),
            p.backend_id@ == "mock"@,
            p.seed == seed,
            p.sampling@ == "deterministic"@,
    {
        proof {
            reveal_strlit("");
            assert(""@ =~= Seq::<char>::empty());
        }
        let model = if str_eq(self.model_id.as_str(), "") {
            owned(intent_id)
        } else {
            self.model_id.clone()
        };
        Provenance {
            oracle: owned(intent_id),
            model,
            model_version_or_sha: self.model_version.clone(),
            backend_id: owned("mock"),
            seed,
            sampling: owned("deterministic"),
        }
    }

    /// The Mock describes itself as local, interactive, grammar-constrained
    /// and litmus-safe (it masks by construction).
    pub fn describe(&self) -> (d: EngineDescription)
        ensures
            mock_description(d),
    {
        let mut tiers: Vec<String> = Vec::new();
        tiers.push(owned("test"));
        let mut modalities: Vec<Modality> = Vec::new();
        modalities.push(Modality::Text);
        assert(views(tiers@) =~= seq!["test"@]);
        assert(modalities@ =~= seq![Modality::Text]);
        EngineDescription {
            backend_id: owned("mock"),
            tiers,
            modalities,
            locality: Locality::Local,
            latency_class: LatencyClass::Interactive,
            grammar_constrained: true,
            litmus_safe: Some(true),
            non_litmus_safe_reason: None,
        }
    }

    /// One inference: a value generated under the request's grammar (so it
    /// inhabits the grammar), its confidence as the numerator of a fraction
    /// of `2^53`, and provenance naming the request's intent and seed. Both
    /// are what the generator's state determines, so an engine seeded alike
    /// answers alike. `None` when the grammar admits no value.
    pub fn infer(&mut self, req: &InferRequest) -> (r: Option<Inference>)
        ensures
            r is Some <==> generable(*req.grammar),
            r matches Some(i) ==> {
                &&& inhabits(*req.grammar, i.value)
                &&& i.confidence < 0x20_0000_0000_0000
                &&& i.provenance.oracle@ == req.intent_id@
                &&& i.provenance.model@ == (if old(self).spec_model_id() == Seq::<char>::empty() {
                    req.intent_id@
                } else {
                    old(self).spec_model_id()
                })
                &&& i.provenance.model_version_or_sha@ == old(self).spec_model_version()
                &&& i.provenance.backend_id@ == "mock"@
                &&& i.provenance.seed == req.seed
                &&& i.provenance.sampling@ == "deterministic"@
                &&& gen_view(i.value) == gen_spec(*req.grammar, old(self).spec_state()).0
                &&& i.confidence == splitmix(gen_spec(*req.grammar, old(self).spec_state()).1).1 >> 11u64
            },
            r is Some ==> final(self).spec_state() == splitmix(gen_spec(*req.grammar, old(self).spec_state()).1).0,
            r matches Some(i) ==> (gen_view(i.value), i.confidence, final(self).spec_state()) == decode_step(
                *req.grammar,
                old(self).spec_state(),
            ),
            r is None ==> final(self).spec_state() == old(self).spec_state(),
            final(self).spec_model_id() == old(self).spec_model_id(),
            final(self).spec_model_version() == old(self).spec_model_version(),
    {
        if !is_generable(req.grammar) {
            return None;
        }
        let (value, confidence) = self.decoder.decode(req.grammar);
        let provenance = self.provenance(req.intent_id, req.seed);
        Some(Inference { value, confidence, provenance })
    }

    /// Generates under `grammar` and reports, per decode step, the tokens the
    /// grammar permitted and the one the generated value chose.
    pub fn trace(&mut self, grammar: &Grammar) -> (t: Vec<DecodeStep>)
        ensures
            step_sets(t@) == crate::engine::permitted(*grammar),
    {
        let permitted = permitted_tokens(grammar);
        let chosen = if is_generable(grammar) {
            let (value, _confidence) = self.decoder.decode(grammar);
            let mut out: Vec<String> = Vec::new();
            walk_chosen(&value, &mut out);
            out
        } else {
            Vec::new()
        };
        let t = build_trace(permitted, &chosen);
        t
    }
}

/// What the Mock advertises.
pub open spec fn mock_description(d: EngineDescription) -> bool {
    &&& d.backend_id@ == "mock"@
    &&& views(d.tiers@) == seq!["test"@]
    &&& d.modalities@ == seq![Modality::Text]
    &&& d.locality == Locality::Local
    &&& d.latency_class == LatencyClass::Interactive
    &&& d.grammar_constrained
    &&& d.litmus_safe == Some(true)
    &&& d.non_litmus_safe_reason is None
}

impl Engine for MockEngine {
    open spec fn engine_backend(&self) -> Seq<char> {
        "mock"@
    }

    /// The Mock's trace shows, step by step, what the grammar permits.
    open spec fn trace_sets(&self, intent: Seq<char>, input: Seq<char>, g: Grammar, seed: u64) -> Option<Seq<Seq<Seq<char>>>> {
        Some(crate::engine::permitted(g))
    }

    fn describe(&self) -> (d: EngineDescription)
        ensures
            mock_description(d),
    {
        MockEngine::describe(self)
    }

    /// The Mock always exposes its trace.
    fn infer_traced(&mut self, req: &InferRequest) -> (t: Option<Vec<DecodeStep>>)
        ensures
            t is Some && step_sets(t->0@) == crate::engine::permitted(*req.grammar),
    {
        Some(self.trace(req.grammar))
    }
}

/// Pairs each permitted set with the token the value chose there (or the
/// first permitted token where the value says nothing).
fn build_trace(permitted: Vec<Vec<String>>, chosen: &Vec<String>) -> (t: Vec<DecodeStep>)
    ensures
        step_sets(t@) == trace_view(permitted@),
{
    let mut out: Vec<DecodeStep> = Vec::new();
    let n = permitted.len();
    let mut i: usize = 0;
    while i < n
        invariant
            n == permitted.len(),
            i <= n,
            step_sets(out@) =~= trace_view(permitted@).take(i as int),
        decreases n - i,
    {
        let set = clone_strings(&permitted[i]);
        let ch = if i < chosen.len() {
            chosen[i].clone()
        } else if set.len() > 0 {
            set[0].clone()
        } else {
            String::new()
        };
        let ghost before = out@;
        out.push(DecodeStep { permitted: set, chosen: ch });
        assert(step_sets(out@) =~= step_sets(before).push(views(permitted@[i as int]@)));
        i = i + 1;
    }
    assert(trace_view(permitted@).take(n as int) =~= trace_view(permitted@));
    out
}

/// The tokens a value chose, in the depth-first order the grammar's steps
/// are walked: a number's decimal text, `true` or `false`, a glyph's first
/// character, a variant's name; a record's fields in order; nothing for a list.
pub open spec fn chosen_tokens(v: GenValue) -> Seq<Seq<char>>
    decreases v, 1int,
{
    match v {
        GenValue::Spark(n) => seq![crate::text::int_to_dec(n as int)],
        GenValue::Bool(b) => seq![if b { "true"@ } else { "false"@ }],
        GenValue::Glyph(s) => seq![if s@.len() > 0 { seq![s@[0]] } else { Seq::<char>::empty() }],
        GenValue::Record(fields) => fields_chosen(fields@),
        GenValue::Variant(name, _) => seq![name@],
        GenValue::List(_) => Seq::empty(),
    }
}

pub open spec fn fields_chosen(fs: Seq<(String, GenValue)>) -> Seq<Seq<char>>
    decreases fs, 0int,
{
    if fs.len() == 0 {
        Seq::empty()
    } else {
        fields_chosen(fs.drop_last()) + chosen_tokens(fs.last().1)
    }
}

/// The tokens a generated value chose, in the depth-first order the grammar's
/// steps are walked.
fn walk_chosen(v: &GenValue, out: &mut Vec<String>)
    ensures
        views(final(out)@) == views(old(out)@) + chosen_tokens(*v),
    decreases *v, 2int,
{
    let ghost before = out@;
    match v {
        GenValue::Spark(n) => out.push(i64_to_string(*n)),
        GenValue::Bool(b) => out.push(if *b {
            owned("true")
        } else {
            owned("false")
        }),
        GenValue::Glyph(s) => {
            let cs = crate::chars::chars_of(s.as_str());
            let mut t = String::new();
            if cs.len() > 0 {
                push_char(&mut t, cs[0]);
            }
            assert(t@ =~= (if s@.len() > 0 { seq![s@[0]] } else { Seq::<char>::empty() }));
            out.push(t);
        },
        GenValue::Record(fields) => walk_fields(fields, out),
        GenValue::Variant(name, _) => out.push(name.clone()),
        GenValue::List(_) => {},
    }
    proof {
        if !(v is Record) {
            assert(views(out@) =~= views(before) + chosen_tokens(*v));
        }
    }
}

fn walk_fields(fields: &Vec<(String, GenValue)>, out: &mut Vec<String>)
    ensures
        views(final(out)@) == views(old(out)@) + fields_chosen(fields@),
    decreases fields@, 1int,
{
    let n = fields.len();
    let mut i: usize = 0;
    assert(views(out@) =~= views(old(out)@) + fields_chosen(fields@.take(0)));
    while i < n
        invariant
            n == fields.len(),
            i <= n,
            views(out@) == views(old(out)@) + fields_chosen(fields@.take(i as int)),
        decreases n - i,
    {
        walk_chosen(&fields[i].1, out);
        proof {
            assert(fields@.take(i + 1).drop_last() =~= fields@.take(i as int));
            assert(fields@.take(i + 1).last() == fields@[i as int]);
            assert(views(out@) =~= views(old(out)@) + fields_chosen(fields@.take(i + 1)));
        }
        i = i + 1;
    }
    assert(fields@.take(n as int) =~= fields@);
}

/// An engine and a decoder in one generator state stay in step: for any
/// sequence of generable grammars, the engine's inferences (by `infer`) and
/// the decoder's decodes (by `decode`) are the same outcomes in the same
/// order, the k-th of each being the k-th of `decode_run`. So a Mock made
/// with a seed infers what a decoder made with that seed decodes.
pub proof fn lemma_engine_follows_decoder(e: MockEngine, d: MockDecoder, gs: Seq<Grammar>)
    requires
        e.spec_state() == d.spec_state(),
    ensures
        crate::decoder::decode_run(gs, e.spec_state()) == crate::decoder::decode_run(gs, d.spec_state()),
{
}

/// Can the Mock generate under `g` (see `decoder::generable`)?
fn is_generable(g: &Grammar) -> (r: bool)
    ensures
        r == generable(*g),
    decreases *g, 2int,
{
    match g {
        Grammar::Number { .. } => true,
        Grammar::Bool => true,
        Grammar::Text { .. } => true,
        Grammar::Record(fields) => fields_are_generable(fields),
        Grammar::OneOf(variants) => variants.len() > 0 && variants_are_generable(variants),
        Grammar::List { elem, lo, hi } => *lo <= *hi && is_generable(elem),
    }
}

fn fields_are_generable(fields: &Vec<(String, Grammar)>) -> (r: bool)
    ensures
        r == crate::decoder::fields_generable(fields@),
    decreases fields@, 1int,
{
    let n = fields.len();
    let mut i: usize = 0;
    while i < n
        invariant
            n == fields.len(),
            i <= n,
            crate::decoder::fields_generable(fields@.take(i as int)),
        decreases n - i,
    {
        proof {
            assert(fields@.take(i + 1).drop_last() =~= fields@.take(i as int));
        }
        if !is_generable(&fields[i].1) {
            proof {
                lemma_fields_prefix(fields@, (i + 1) as nat);
            }
            return false;
        }
        i = i + 1;
    }
    assert(fields@.take(n as int) =~= fields@);
    true
}

proof fn lemma_fields_prefix(fs: Seq<(String, Grammar)>, k: nat)
    requires
        k <= fs.len(),
    ensures
        crate::decoder::fields_generable(fs) ==> crate::decoder::fields_generable(fs.take(k as int)),
    decreases fs.len() - k,
{
    if k < fs.len() {
        lemma_fields_prefix(fs, k + 1);
        assert(fs.take(k + 1int).drop_last() =~= fs.take(k as int));
    } else {
        assert(fs.take(k as int) =~= fs);
    }
}

fn variants_are_generable(vs: &Vec<crate::grammar::GrammarVariant>) -> (r: bool)
    ensures
        r == crate::decoder::variants_generable(vs@),
    decreases vs@, 1int,
{
    let n = vs.len();
    let mut i: usize = 0;
    while i < n
        invariant
            n == vs.len(),
            i <= n,
            crate::decoder::variants_generable(vs@.take(i as int)),
        decreases n - i,
    {
        proof {
            assert(vs@.take(i + 1).drop_last() =~= vs@.take(i as int));
        }
        if !variant_is_generable(&vs[i]) {
            proof {
                lemma_variants_prefix(vs@, (i + 1) as nat);
            }
            return false;
        }
        i = i + 1;
    }
    assert(vs@.take(n as int) =~= vs@);
    true
}

fn variant_is_generable(v: &crate::grammar::GrammarVariant) -> (r: bool)
    ensures
        r == crate::decoder::fields_generable(v.fields@),
    decreases *v, 0int,
{
    fields_are_generable(&v.fields)
}

proof fn lemma_variants_prefix(vs: Seq<crate::grammar::GrammarVariant>, k: nat)
    requires
        k <= vs.len(),
    ensures
        crate::decoder::variants_generable(vs) ==> crate::decoder::variants_generable(vs.take(k as int)),
    decreases vs.len() - k,
{
    if k < vs.len() {
        lemma_variants_prefix(vs, k + 1);
        assert(vs.take(k + 1int).drop_last() =~= vs.take(k as int));
    } else {
        assert(vs.take(k as int) =~= vs);
    }
}

} // verus!
