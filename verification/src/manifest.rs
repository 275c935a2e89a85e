//! The deployment manifest and load-time resolution. The manifest is the only
//! place a model is named; source names only a semantic intent. At load, each
//! need is resolved against the manifest and checked against the program's
//! policy (locality vs `permit(network)`, litmus-strictness). A need that
//! cannot be satisfied under the policy makes the program refuse to start.

use vstd::prelude::*;
use crate::chars::{chars_of, is_whitespace, string_of, unicode_whitespace};
use crate::engine::frontier::{frontier_reason, FrontierEngine};
use crate::engine::mock::MockEngine;
use crate::engine::{EngineDescription, Locality, Policy};
use crate::text::{nat_to_dec, owned, push_str, push_u64, str_eq};

verus! {

/// How an intent resolves to a concrete engine and model.
#[derive(Clone, Debug)]
pub struct NeedBinding {
    pub engine: String,
    pub model: String,
    pub sha256: Option<String>,
    pub locality: Option<Locality>,
    pub latency: Option<String>,
    pub tier: Option<String>,
}

/// A concrete engine definition: its kind and its other parameters.
#[derive(Clone, Debug)]
pub struct EngineSpec {
    pub kind: String,
    pub params: Vec<(String, String)>,
}

/// The value of the first pair keyed `key`.
pub open spec fn assoc(pairs: Seq<(String, String)>, key: Seq<char>) -> Option<Seq<char>>
    decreases pairs.len(),
{
    if pairs.len() == 0 {
        None
    } else if pairs[0].0@ == key {
        Some(pairs[0].1@)
    } else {
        assoc(pairs.drop_first(), key)
    }
}

fn assoc_get(pairs: &Vec<(String, String)>, key: &str) -> (r: Option<String>)
    ensures
        match r {
            Some(v) => assoc(pairs@, key@) == Some(v@),
            None => assoc(pairs@, key@) is None,
        },
{
    let n = pairs.len();
    let mut i: usize = 0;
    assert(pairs@.subrange(0, n as int) =~= pairs@);
    while i < n
        invariant
            n == pairs.len(),
            i <= n,
            assoc(pairs@, key@) == assoc(pairs@.subrange(i as int, n as int), key@),
        decreases n - i,
    {
        proof {
            assert(pairs@.subrange(i as int, n as int).drop_first() =~= pairs@.subrange(i + 1, n as int));
        }
        if str_eq(pairs[i].0.as_str(), key) {
            return Some(pairs[i].1.clone());
        }
        i = i + 1;
    }
    None
}

/// Sets `key` to `value`, replacing an existing entry.
fn assoc_set(pairs: &mut Vec<(String, String)>, key: String, value: String)
    ensures
        pairs_view(final(pairs)@) == set_kv(pairs_view(old(pairs)@), key@, value@),
{
    proof {
        lemma_key_index(pairs_view(pairs@), key@);
    }
    let n = pairs.len();
    let mut i: usize = 0;
    while i < n
        invariant
            n == pairs@.len(),
            i <= n,
            pairs@ == old(pairs)@,
            forall|k: int| 0 <= k < i ==> pairs@[k].0@ != key@,
        decreases n - i,
    {
        if str_eq(pairs[i].0.as_str(), key.as_str()) {
            proof {
                let v = pairs_view(pairs@);
                assert(v[i as int].0 == key@);
                assert forall|k: int| 0 <= k < i implies v[k].0 != key@ by {}
                lemma_key_index_at(v, key@, i as int);
            }
            pairs.set(i, (key, value));
            proof {
                assert(pairs_view(pairs@) =~= pairs_view(old(pairs)@).update(i as int, (key@, value@)));
            }
            return;
        }
        i = i + 1;
    }
    proof {
        let v = pairs_view(old(pairs)@);
        assert forall|k: int| 0 <= k < v.len() implies v[k].0 != key@ by {}
        lemma_key_index_none(v, key@);
    }
    pairs.push((key, value));
    proof {
        assert(pairs_view(pairs@) =~= pairs_view(old(pairs)@).push((key@, value@)));
    }
}

impl EngineSpec {
    pub open spec fn spec_param(&self, key: Seq<char>) -> Option<Seq<char>> {
        assoc(self.params@, key)
    }

    /// The parameter `key`, if set.
    pub fn param(&self, key: &str) -> (r: Option<String>)
        ensures
            match r {
                Some(v) => self.spec_param(key@) == Some(v@),
                None => self.spec_param(key@) is None,
            },
    {
        assoc_get(&self.params, key)
    }
}

#[derive(Clone, Debug)]
pub struct Manifest {
    pub needs: Vec<(String, NeedBinding)>,
    pub engines: Vec<(String, EngineSpec)>,
}

/// Why a need could not be bound under the policy; each refuses to start
/// with a precise, source-auditable message.
#[derive(Debug, Clone, PartialEq)]
pub enum ResolveError {
    UnknownNeed(String),
    UnknownEngine { need: String, engine: String },
    NetworkNotPermitted { need: String, engine: String },
    NonLitmusSafe { need: String, engine: String, reason: String },
    EngineUnavailable { need: String, engine: String, kind: String },
}

impl ResolveError {
    pub open spec fn spec_message(&self) -> Seq<char> {
        match self {
            ResolveError::UnknownNeed(n) => "refuse to start: need `"@ + n@
                + "` has no binding in the manifest (every inference need must resolve to an engine)"@,
            ResolveError::UnknownEngine { need, engine } => "refuse to start: need `"@ + need@
                + "` is bound to engine `"@ + engine@ + "`, which the manifest does not define"@,
            ResolveError::NetworkNotPermitted { need, engine } => "refuse to start: need `"@ + need@
                + "` is bound to network engine `"@ + engine@
                + "` but its site does not grant `permit(network)` (on-device-only is the default)"@,
            ResolveError::NonLitmusSafe { need, engine, reason } => "refuse to start: need `"@ + need@
                + "` is litmus-strict but engine `"@ + engine@ + "` is non-litmus-safe ("@ + reason@
                + "); add a source-visible downgrade to run anyway"@,
            ResolveError::EngineUnavailable { need, engine, kind } => "refuse to start: need `"@ + need@
                + "` is bound to engine `"@ + engine@ + "` of kind `"@ + kind@
                + "`, which is not compiled into this build (enable the corresponding feature)"@,
        }
    }

    pub fn message(&self) -> (r: String)
        ensures
            r@ == self.spec_message(),
    {
        match self {
            ResolveError::UnknownNeed(n) => {
                let mut s = owned("refuse to start: need `");
                push_str(&mut s, n.as_str());
                push_str(&mut s, "` has no binding in the manifest (every inference need must resolve to an engine)");
                s
            },
            ResolveError::UnknownEngine { need, engine } => {
                let mut s = owned("refuse to start: need `");
                push_str(&mut s, need.as_str());
                push_str(&mut s, "` is bound to engine `");
                push_str(&mut s, engine.as_str());
                push_str(&mut s, "`, which the manifest does not define");
                s
            },
            ResolveError::NetworkNotPermitted { need, engine } => {
                let mut s = owned("refuse to start: need `");
                push_str(&mut s, need.as_str());
                push_str(&mut s, "` is bound to network engine `");
                push_str(&mut s, engine.as_str());
                push_str(&mut s, "` but its site does not grant `permit(network)` (on-device-only is the default)");
                s
            },
            ResolveError::NonLitmusSafe { need, engine, reason } => {
                let mut s = owned("refuse to start: need `");
                push_str(&mut s, need.as_str());
                push_str(&mut s, "` is litmus-strict but engine `");
                push_str(&mut s, engine.as_str());
                push_str(&mut s, "` is non-litmus-safe (");
                push_str(&mut s, reason.as_str());
                push_str(&mut s, "); add a source-visible downgrade to run anyway");
                s
            },
            ResolveError::EngineUnavailable { need, engine, kind } => {
                let mut s = owned("refuse to start: need `");
                push_str(&mut s, need.as_str());
                push_str(&mut s, "` is bound to engine `");
                push_str(&mut s, engine.as_str());
                push_str(&mut s, "` of kind `");
                push_str(&mut s, kind.as_str());
                push_str(&mut s, "`, which is not compiled into this build (enable the corresponding feature)");
                s
            },
        }
    }
}

/// A live engine a need resolved to.
pub enum BoundEngine {
    Mock(MockEngine),
    Frontier(FrontierEngine),
}

impl BoundEngine {
    pub fn describe(&self) -> (d: EngineDescription)
        ensures
            self is Mock ==> crate::engine::mock::mock_description(d),
            self is Frontier ==> d.locality == Locality::Network && d.litmus_safe == Some(false),
    {
        match self {
            BoundEngine::Mock(m) => m.describe(),
            BoundEngine::Frontier(f) => f.describe(),
        }
    }
}

/// The binding of the first need named `name`.
pub open spec fn lookup_need(needs: Seq<(String, NeedBinding)>, name: Seq<char>) -> Option<NeedBinding>
    decreases needs.len(),
{
    if needs.len() == 0 {
        None
    } else if needs[0].0@ == name {
        Some(needs[0].1)
    } else {
        lookup_need(needs.drop_first(), name)
    }
}

/// The definition of the first engine named `name`.
pub open spec fn lookup_engine(engines: Seq<(String, EngineSpec)>, name: Seq<char>) -> Option<EngineSpec>
    decreases engines.len(),
{
    if engines.len() == 0 {
        None
    } else if engines[0].0@ == name {
        Some(engines[0].1)
    } else {
        lookup_engine(engines.drop_first(), name)
    }
}

/// Engine kinds served by the mock.
pub open spec fn is_mock_kind(k: Seq<char>) -> bool {
    k == "mock"@ || k == ""@
}

pub open spec fn is_llama_kind(k: Seq<char>) -> bool {
    k == "llama"@ || k == "llama-cpp"@
}

pub open spec fn is_frontier_kind(k: Seq<char>) -> bool {
    k == "anthropic"@ || k == "openai"@ || k == "frontier"@
}

/// The outcome of binding `intent` through binding `b` to engine `spec`.
pub open spec fn binding_resolution(intent: Seq<char>, b: NeedBinding, spec: EngineSpec, policy: Policy, r: Result<BoundEngine, ResolveError>) -> bool {
    if is_mock_kind(spec.kind@) {
        r matches Ok(BoundEngine::Mock(e)) && e.spec_model_id() == (if b.model@ == Seq::<char>::empty() {
            intent
        } else {
            b.model@
        })
    } else if is_llama_kind(spec.kind@) {
        r matches Err(ResolveError::EngineUnavailable { need, engine, kind }) && need@ == intent
            && engine@ == b.engine@ && kind@ == "llama"@
    } else if is_frontier_kind(spec.kind@) {
        if !policy.allow_network {
            r matches Err(ResolveError::NetworkNotPermitted { need, engine }) && need@ == intent
                && engine@ == b.engine@
        } else if policy.litmus_strict && !policy.allow_downgrade {
            r matches Err(ResolveError::NonLitmusSafe { need, engine, reason }) && need@ == intent
                && engine@ == b.engine@ && reason@ == frontier_reason()
        } else {
            r matches Ok(BoundEngine::Frontier(e)) && e.spec_model() == b.model@
        }
    } else {
        r matches Err(ResolveError::EngineUnavailable { need, engine, kind }) && need@ == intent
            && engine@ == b.engine@ && kind@ == spec.kind@
    }
}

/// The outcome of resolving `intent` under `policy`, by the manifest's
/// bindings: an unbound need or undefined engine refuses; the mock always
/// binds; a local llama engine is not part of this build; a network engine
/// needs `permit(network)`, and, being non-litmus-safe, a downgrade when the
/// need is litmus-strict; any other kind is unavailable.
pub open spec fn resolution(m: Manifest, intent: Seq<char>, policy: Policy, r: Result<BoundEngine, ResolveError>) -> bool {
    match lookup_need(m.needs@, intent) {
        None => r matches Err(ResolveError::UnknownNeed(n)) && n@ == intent,
        Some(b) => match lookup_engine(m.engines@, b.engine@) {
            None => r matches Err(ResolveError::UnknownEngine { need, engine }) && need@ == intent
                && engine@ == b.engine@,
            Some(spec) => binding_resolution(intent, b, spec, policy, r),
        },
    }
}

impl Manifest {
    /// Need names are distinct, and so are engine names.
    pub open spec fn wf(&self) -> bool {
        &&& forall|i: int, j: int|
            0 <= i < j < self.needs@.len() ==> self.needs@[i].0@ != self.needs@[j].0@
        &&& forall|i: int, j: int|
            0 <= i < j < self.engines@.len() ==> self.engines@[i].0@ != self.engines@[j].0@
    }

    /// The binding of `name`, if the manifest has one.
    pub fn need(&self, name: &str) -> (r: Option<&NeedBinding>)
        ensures
            match r {
                Some(b) => lookup_need(self.needs@, name@) == Some(*b),
                None => lookup_need(self.needs@, name@) is None,
            },
    {
        let n = self.needs.len();
        let mut i: usize = 0;
        assert(self.needs@.subrange(0, n as int) =~= self.needs@);
        while i < n
            invariant
                n == self.needs.len(),
                i <= n,
                lookup_need(self.needs@, name@) == lookup_need(self.needs@.subrange(i as int, n as int), name@),
            decreases n - i,
        {
            proof {
                assert(self.needs@.subrange(i as int, n as int).drop_first() =~= self.needs@.subrange(i + 1, n as int));
            }
            if str_eq(self.needs[i].0.as_str(), name) {
                return Some(&self.needs[i].1);
            }
            i = i + 1;
        }
        None
    }

    /// The definition of engine `name`, if the manifest has one.
    pub fn engine(&self, name: &str) -> (r: Option<&EngineSpec>)
        ensures
            match r {
                Some(e) => lookup_engine(self.engines@, name@) == Some(*e),
                None => lookup_engine(self.engines@, name@) is None,
            },
    {
        let n = self.engines.len();
        let mut i: usize = 0;
        assert(self.engines@.subrange(0, n as int) =~= self.engines@);
        while i < n
            invariant
                n == self.engines.len(),
                i <= n,
                lookup_engine(self.engines@, name@) == lookup_engine(self.engines@.subrange(i as int, n as int), name@),
            decreases n - i,
        {
            proof {
                assert(self.engines@.subrange(i as int, n as int).drop_first() =~= self.engines@.subrange(i + 1, n as int));
            }
            if str_eq(self.engines[i].0.as_str(), name) {
                return Some(&self.engines[i].1);
            }
            i = i + 1;
        }
        None
    }

    /// Resolves one intent under `policy` into a live engine, or refuses to
    /// start. `seed` seeds the deterministic mock.
    pub fn resolve(&self, intent: &str, policy: &Policy, seed: u64) -> (r: Result<BoundEngine, ResolveError>)
        ensures
            resolution(*self, intent@, *policy, r),
    {
        let binding = match self.need(intent) {
            Some(b) => b,
            None => {
                return Err(ResolveError::UnknownNeed(owned(intent)));
            },
        };
        let spec = match self.engine(binding.engine.as_str()) {
            Some(s) => s,
            None => {
                return Err(ResolveError::UnknownEngine { need: owned(intent), engine: binding.engine.clone() });
            },
        };
        build_engine(intent, binding, spec, policy, seed)
    }
}

/// Constructs the engine for a binding, enforcing the policy.
fn build_engine(intent: &str, binding: &NeedBinding, spec: &EngineSpec, policy: &Policy, seed: u64) -> (r: Result<BoundEngine, ResolveError>)
    ensures
        binding_resolution(intent@, *binding, *spec, *policy, r),
{
    proof {
        reveal_strlit("");
        assert(""@ =~= Seq::<char>::empty());
    }
    let k = spec.kind.as_str();
    if str_eq(k, "mock") || str_eq(k, "") {
        let model = if str_eq(binding.model.as_str(), "") {
            owned(intent)
        } else {
            binding.model.clone()
        };
        Ok(BoundEngine::Mock(MockEngine::new(seed, model.as_str())))
    } else if str_eq(k, "llama") || str_eq(k, "llama-cpp") {
        Err(ResolveError::EngineUnavailable { need: owned(intent), engine: binding.engine.clone(), kind: owned("llama") })
    } else if str_eq(k, "anthropic") || str_eq(k, "openai") || str_eq(k, "frontier") {
        if !policy.allow_network {
            return Err(ResolveError::NetworkNotPermitted { need: owned(intent), engine: binding.engine.clone() });
        }
        let engine = FrontierEngine::from_spec(binding, spec);
        let desc = engine.describe();
        if policy.litmus_strict && !policy.allow_downgrade && matches!(desc.litmus_safe, Some(false)) {
            let reason = match desc.non_litmus_safe_reason {
                Some(r) => r,
                None => owned("engine does not mask tokens during generation"),
            };
            return Err(ResolveError::NonLitmusSafe { need: owned(intent), engine: binding.engine.clone(), reason });
        }
        Ok(BoundEngine::Frontier(engine))
    } else {
        Err(ResolveError::EngineUnavailable { need: owned(intent), engine: binding.engine.clone(), kind: spec.kind.clone() })
    }
}

/// A network binding is never resolved without `permit(network)`.
pub proof fn lemma_network_needs_permit(m: Manifest, intent: Seq<char>, policy: Policy, r: Result<BoundEngine, ResolveError>)
    requires
        resolution(m, intent, policy, r),
        !policy.allow_network,
    ensures
        !(r matches Ok(BoundEngine::Frontier(_))),
{
}

/// A mock binding always resolves, whatever the policy.
pub proof fn lemma_mock_always_binds(m: Manifest, intent: Seq<char>, policy: Policy, r: Result<BoundEngine, ResolveError>)
    requires
        resolution(m, intent, policy, r),
        lookup_need(m.needs@, intent) is Some,
        lookup_engine(m.engines@, lookup_need(m.needs@, intent)->0.engine@) is Some,
        is_mock_kind(lookup_engine(m.engines@, lookup_need(m.needs@, intent)->0.engine@)->0.kind@),
    ensures
        r matches Ok(BoundEngine::Mock(_)),
{
}

/// A litmus-strict need without a downgrade never runs on a non-litmus-safe
/// (network) engine.
pub proof fn lemma_strict_refuses_unsafe(m: Manifest, intent: Seq<char>, policy: Policy, r: Result<BoundEngine, ResolveError>)
    requires
        resolution(m, intent, policy, r),
        policy.litmus_strict,
        !policy.allow_downgrade,
    ensures
        !(r matches Ok(BoundEngine::Frontier(_))),
{
}

// ------------------------------------------------------------ parsing

/// The text before the first `#`.
pub open spec fn strip_comment_spec(cs: Seq<char>) -> Seq<char>
    decreases cs.len(),
{
    if cs.len() == 0 {
        cs
    } else if cs[0] == '#' {
        Seq::empty()
    } else {
        seq![cs[0]] + strip_comment_spec(cs.drop_first())
    }
}

pub open spec fn trim_start(cs: Seq<char>) -> Seq<char>
    decreases cs.len(),
{
    if cs.len() > 0 && unicode_whitespace(cs[0]) {
        trim_start(cs.drop_first())
    } else {
        cs
    }
}

pub open spec fn trim_end(cs: Seq<char>) -> Seq<char>
    decreases cs.len(),
{
    if cs.len() > 0 && unicode_whitespace(cs.last()) {
        trim_end(cs.drop_last())
    } else {
        cs
    }
}

/// Trimming the start drops exactly the leading whitespace: what is left is
/// a suffix of the text that does not start with whitespace.
pub proof fn lemma_trim_start_drops_leading_space(cs: Seq<char>)
    ensures
        exists|a: int|
            0 <= a <= cs.len() && #[trigger] cs.subrange(a, cs.len() as int) == trim_start(cs) && forall|j: int|
                0 <= j < a ==> unicode_whitespace(cs[j]),
        trim_start(cs).len() > 0 ==> !unicode_whitespace(trim_start(cs)[0]),
    decreases cs.len(),
{
    if cs.len() > 0 && unicode_whitespace(cs[0]) {
        let rest = cs.drop_first();
        lemma_trim_start_drops_leading_space(rest);
        let a = choose|a: int|
            0 <= a <= rest.len() && #[trigger] rest.subrange(a, rest.len() as int) == trim_start(rest) && forall|j: int|
                0 <= j < a ==> unicode_whitespace(rest[j]);
        assert(cs.subrange(a + 1, cs.len() as int) =~= rest.subrange(a, rest.len() as int));
        assert forall|j: int| 0 <= j < a + 1 implies unicode_whitespace(cs[j]) by {
            if j > 0 {
                assert(cs[j] == rest[j - 1]);
            }
        }
    } else {
        assert(cs.subrange(0, cs.len() as int) =~= cs);
    }
}

/// Trimming the end drops exactly the trailing whitespace: what is left is
/// a prefix of the text that does not end with whitespace.
pub proof fn lemma_trim_end_drops_trailing_space(cs: Seq<char>)
    ensures
        exists|b: int|
            0 <= b <= cs.len() && #[trigger] cs.subrange(0, b) == trim_end(cs) && forall|j: int|
                b <= j < cs.len() ==> unicode_whitespace(cs[j]),
        trim_end(cs).len() > 0 ==> !unicode_whitespace(trim_end(cs).last()),
    decreases cs.len(),
{
    if cs.len() > 0 && unicode_whitespace(cs.last()) {
        let rest = cs.drop_last();
        lemma_trim_end_drops_trailing_space(rest);
        let b = choose|b: int|
            0 <= b <= rest.len() && #[trigger] rest.subrange(0, b) == trim_end(rest) && forall|j: int|
                b <= j < rest.len() ==> unicode_whitespace(rest[j]);
        assert(cs.subrange(0, b) =~= rest.subrange(0, b));
        assert forall|j: int| b <= j < cs.len() implies unicode_whitespace(cs[j]) by {
            if j < rest.len() {
                assert(cs[j] == rest[j]);
            }
        }
    } else {
        assert(cs.subrange(0, cs.len() as int) =~= cs);
    }
}

/// `str::trim`: leading and trailing whitespace removed.
pub open spec fn trim_spec(cs: Seq<char>) -> Seq<char> {
    trim_end(trim_start(cs))
}

/// The index of the first `c` in `cs`, or -1.
pub open spec fn index_of(cs: Seq<char>, c: char) -> int
    decreases cs.len(),
{
    if cs.len() == 0 {
        -1
    } else if cs[0] == c {
        0
    } else {
        let k = index_of(cs.drop_first(), c);
        if k < 0 {
            -1
        } else {
            k + 1
        }
    }
}

/// `index_of` finds the first occurrence of the character, or -1 when there
/// is none.
pub proof fn lemma_index_of_first(cs: Seq<char>, c: char)
    ensures
        -1 <= index_of(cs, c) < cs.len(),
        index_of(cs, c) >= 0 ==> cs[index_of(cs, c)] == c && forall|j: int| 0 <= j < index_of(cs, c) ==> cs[j] != c,
        index_of(cs, c) < 0 ==> forall|j: int| 0 <= j < cs.len() ==> cs[j] != c,
    decreases cs.len(),
{
    if cs.len() > 0 && cs[0] != c {
        let rest = cs.drop_first();
        lemma_index_of_first(rest, c);
        assert forall|j: int| 1 <= j < cs.len() implies cs[j] == rest[j - 1] by {}
    }
}

/// A comment runs from the first `#` to the end of the line: stripping it
/// keeps exactly the text before that `#` (all of it when there is none).
pub proof fn lemma_strip_comment_keeps_text_before_hash(cs: Seq<char>)
    ensures
        strip_comment_spec(cs) == (if index_of(cs, '#') < 0 { cs } else { cs.take(index_of(cs, '#')) }),
    decreases cs.len(),
{
    if cs.len() > 0 && cs[0] != '#' {
        let rest = cs.drop_first();
        lemma_strip_comment_keeps_text_before_hash(rest);
        if index_of(rest, '#') < 0 {
            assert(seq![cs[0]] + rest =~= cs);
        } else {
            lemma_index_of_first(rest, '#');
            assert(index_of(cs, '#') == index_of(rest, '#') + 1);
            assert(seq![cs[0]] + rest.take(index_of(rest, '#')) =~= cs.take(index_of(cs, '#')));
        }
    } else if cs.len() > 0 {
        assert(cs.take(0) =~= Seq::<char>::empty());
    }
}

/// A value with one layer of matching `"` or `'` quotes removed.
pub open spec fn unquote(v: Seq<char>) -> Seq<char> {
    if v.len() >= 2 && ((v[0] == '"' && v.last() == '"') || (v[0] == '\'' && v.last() == '\'')) {
        v.subrange(1, v.len() - 1)
    } else {
        v
    }
}

/// `key = value`: split at the first `=`, both sides trimmed, the value
/// unquoted; no `=` or an empty key is not an entry.
pub open spec fn kv_spec(line: Seq<char>) -> Option<(Seq<char>, Seq<char>)> {
    let eq = index_of(line, '=');
    if eq < 0 {
        None
    } else {
        let key = trim_spec(line.subrange(0, eq));
        let val = unquote(trim_spec(line.subrange(eq + 1, line.len() as int)));
        if key.len() == 0 {
            None
        } else {
            Some((key, val))
        }
    }
}

proof fn lemma_index_of(cs: Seq<char>, c: char)
    ensures
        -1 <= index_of(cs, c) < cs.len(),
        index_of(cs, c) >= 0 ==> cs[index_of(cs, c)] == c,
        index_of(cs, c) >= 0 ==> forall|i: int| 0 <= i < index_of(cs, c) ==> cs[i] != c,
        index_of(cs, c) < 0 ==> forall|i: int| 0 <= i < cs.len() ==> cs[i] != c,
    decreases cs.len(),
{
    if cs.len() > 0 && cs[0] != c {
        lemma_index_of(cs.drop_first(), c);
        assert forall|i: int| 1 <= i < cs.len() implies cs[i] == cs.drop_first()[i - 1] by {}
    }
}

proof fn lemma_index_of_from(cs: Seq<char>, c: char, i: int)
    requires
        0 <= i <= cs.len(),
        forall|k: int| 0 <= k < i ==> cs[k] != c,
    ensures
        index_of(cs, c) == (if index_of(cs.subrange(i, cs.len() as int), c) < 0 {
            -1
        } else {
            index_of(cs.subrange(i, cs.len() as int), c) + i
        }),
    decreases i,
{
    if i > 0 {
        assert(cs[0] != c);
        lemma_index_of_from(cs.drop_first(), c, i - 1);
        assert(cs.drop_first().subrange(i - 1, cs.drop_first().len() as int) =~= cs.subrange(i, cs.len() as int));
    } else {
        assert(cs.subrange(0, cs.len() as int) =~= cs);
    }
}

/// The index of the first `c` in `cs[lo..hi]`.
fn find_char(cs: &Vec<char>, lo: usize, hi: usize, c: char) -> (r: Option<usize>)
    requires
        lo <= hi <= cs.len(),
    ensures
        match r {
            Some(k) => lo <= k < hi && index_of(cs@.subrange(lo as int, hi as int), c) == k - lo,
            None => index_of(cs@.subrange(lo as int, hi as int), c) < 0,
        },
{
    let ghost sub = cs@.subrange(lo as int, hi as int);
    let mut i = lo;
    while i < hi
        invariant
            lo <= i <= hi,
            hi <= cs.len(),
            sub == cs@.subrange(lo as int, hi as int),
            forall|k: int| 0 <= k < i - lo ==> sub[k] != c,
        decreases hi - i,
    {
        if cs[i] == c {
            proof {
                lemma_index_of_from(sub, c, i - lo);
                assert(sub.subrange(i - lo, sub.len() as int)[0] == c);
            }
            return Some(i);
        }
        i = i + 1;
    }
    proof {
        lemma_index_of_from(sub, c, (hi - lo) as int);
        assert(sub.subrange((hi - lo) as int, sub.len() as int) =~= Seq::<char>::empty());
    }
    None
}

proof fn lemma_trim_start_from(cs: Seq<char>, i: int)
    requires
        0 <= i <= cs.len(),
        forall|k: int| 0 <= k < i ==> unicode_whitespace(cs[k]),
    ensures
        trim_start(cs) == trim_start(cs.subrange(i, cs.len() as int)),
    decreases i,
{
    if i > 0 {
        lemma_trim_start_from(cs.drop_first(), i - 1);
        assert(cs.drop_first().subrange(i - 1, cs.drop_first().len() as int) =~= cs.subrange(i, cs.len() as int));
    } else {
        assert(cs.subrange(0, cs.len() as int) =~= cs);
    }
}

proof fn lemma_trim_end_to(cs: Seq<char>, j: int)
    requires
        0 <= j <= cs.len(),
        forall|k: int| j <= k < cs.len() ==> unicode_whitespace(cs[k]),
    ensures
        trim_end(cs) == trim_end(cs.subrange(0, j)),
    decreases cs.len() - j,
{
    if j < cs.len() {
        lemma_trim_end_to(cs.drop_last(), j);
        assert(cs.drop_last().subrange(0, j) =~= cs.subrange(0, j));
    } else {
        assert(cs.subrange(0, j) =~= cs);
    }
}

/// The bounds of `cs[lo..hi]` with surrounding whitespace trimmed.
fn trim_range(cs: &Vec<char>, lo: usize, hi: usize) -> (r: (usize, usize))
    requires
        lo <= hi <= cs.len(),
    ensures
        lo <= r.0 <= r.1 <= hi,
        cs@.subrange(r.0 as int, r.1 as int) == trim_spec(cs@.subrange(lo as int, hi as int)),
{
    let ghost sub = cs@.subrange(lo as int, hi as int);
    let mut a = lo;
    while a < hi && is_whitespace(cs[a])
        invariant
            lo <= a <= hi,
            hi <= cs.len(),
            forall|k: int| lo <= k < a ==> unicode_whitespace(cs@[k]),
        decreases hi - a,
    {
        a = a + 1;
    }
    proof {
        assert forall|k: int| 0 <= k < a - lo implies unicode_whitespace(sub[k]) by {
            assert(sub[k] == cs@[k + lo]);
        }
        lemma_trim_start_from(sub, a - lo);
        assert(sub.subrange(a - lo, sub.len() as int) =~= cs@.subrange(a as int, hi as int));
        let rest = cs@.subrange(a as int, hi as int);
        if a < hi {
            assert(!unicode_whitespace(rest[0]));
        } else {
            assert(rest.len() == 0);
        }
        assert(trim_start(rest) == rest);
    }
    let mut b = hi;
    while b > a && is_whitespace(cs[b - 1])
        invariant
            a <= b <= hi,
            hi <= cs.len(),
            forall|k: int| b <= k < hi ==> unicode_whitespace(cs@[k]),
        decreases b - a,
    {
        b = b - 1;
    }
    proof {
        let rest = cs@.subrange(a as int, hi as int);
        assert forall|k: int| b - a <= k < rest.len() implies unicode_whitespace(rest[k]) by {
            assert(rest[k] == cs@[k + a]);
        }
        lemma_trim_end_to(rest, b - a);
        assert(rest.subrange(0, b - a) =~= cs@.subrange(a as int, b as int));
        let fin = cs@.subrange(a as int, b as int);
        if b > a {
            assert(!unicode_whitespace(fin.last()));
        }
        assert(trim_end(fin) == fin);
    }
    (a, b)
}

/// Splits `key = value` (see `kv_spec`).
fn parse_kv(cs: &Vec<char>, lo: usize, hi: usize) -> (r: Option<(String, String)>)
    requires
        lo <= hi <= cs.len(),
    ensures
        match r {
            Some(kv) => kv_spec(cs@.subrange(lo as int, hi as int)) == Some((kv.0@, kv.1@)),
            None => kv_spec(cs@.subrange(lo as int, hi as int)) is None,
        },
{
    let ghost line = cs@.subrange(lo as int, hi as int);
    let eq = match find_char(cs, lo, hi, '=') {
        Some(e) => e,
        None => {
            return None;
        },
    };
    proof {
        assert(line.subrange(0, eq - lo) =~= cs@.subrange(lo as int, eq as int));
        assert(line.subrange(eq - lo + 1, line.len() as int) =~= cs@.subrange(eq + 1, hi as int));
    }
    let (ka, kb) = trim_range(cs, lo, eq);
    let (va, vb) = trim_range(cs, eq + 1, hi);
    if ka == kb {
        return None;
    }
    let key = string_of(cs, ka, kb);
    let quoted = vb - va >= 2 && ((cs[va] == '"' && cs[vb - 1] == '"') || (cs[va] == '\'' && cs[vb - 1] == '\''));
    let val = if quoted {
        proof {
            assert(cs@.subrange(va as int, vb as int).subrange(1, (vb - va - 1) as int) =~= cs@.subrange(va + 1, vb - 1));
        }
        string_of(cs, va + 1, vb - 1)
    } else {
        string_of(cs, va, vb)
    };
    Some((key, val))
}

/// Does `cs[lo..hi]` start with the characters of `p`?
fn has_prefix(cs: &Vec<char>, lo: usize, hi: usize, p: &str) -> (r: bool)
    requires
        lo <= hi <= cs.len(),
    ensures
        r == (p@.len() <= hi - lo && cs@.subrange(lo as int, lo + p@.len()) == p@),
{
    let pc = chars_of(p);
    if pc.len() > hi - lo {
        return false;
    }
    let mut i: usize = 0;
    while i < pc.len()
        invariant
            pc@ == p@,
            pc.len() <= hi - lo,
            lo <= hi <= cs.len(),
            i <= pc.len(),
            forall|k: int| 0 <= k < i ==> cs@[lo + k] == pc@[k],
        decreases pc.len() - i,
    {
        if cs[lo + i] != pc[i] {
            assert(cs@.subrange(lo as int, lo + p@.len())[i as int] != p@[i as int]);
            return false;
        }
        i = i + 1;
    }
    assert(cs@.subrange(lo as int, lo + p@.len()) =~= p@);
    true
}

fn line_error(lineno: usize, what: &str) -> (r: String)
    requires
        lineno < usize::MAX,
    ensures
        r@ == line_message((lineno + 1) as nat, what@),
{
    let mut m = owned("manifest line ");
    push_u64(&mut m, (lineno + 1) as u64);
    push_str(&mut m, what);
    m
}

/// A key-value list by its characters.
pub open spec fn pairs_view(p: Seq<(String, String)>) -> Seq<(Seq<char>, Seq<char>)> {
    p.map_values(|e: (String, String)| (e.0@, e.1@))
}

/// The index of the first pair keyed `key`, or -1.
pub open spec fn key_index(kv: Seq<(Seq<char>, Seq<char>)>, key: Seq<char>) -> int
    decreases kv.len(),
{
    if kv.len() == 0 {
        -1
    } else if kv[0].0 == key {
        0
    } else {
        let i = key_index(kv.drop_first(), key);
        if i < 0 {
            -1
        } else {
            i + 1
        }
    }
}

/// The value keyed `key`.
pub open spec fn lookup_kv(kv: Seq<(Seq<char>, Seq<char>)>, key: Seq<char>) -> Option<Seq<char>> {
    let i = key_index(kv, key);
    if 0 <= i < kv.len() {
        Some(kv[i].1)
    } else {
        None
    }
}

/// `key` set to `value`: an existing entry is replaced in place, a new key
/// is appended.
pub open spec fn set_kv(kv: Seq<(Seq<char>, Seq<char>)>, key: Seq<char>, value: Seq<char>) -> Seq<(Seq<char>, Seq<char>)> {
    let i = key_index(kv, key);
    if 0 <= i < kv.len() {
        kv.update(i, (key, value))
    } else {
        kv.push((key, value))
    }
}

/// `key_index` finds the first entry with the key, or reports that none
/// has it.
pub proof fn lemma_key_index_first(kv: Seq<(Seq<char>, Seq<char>)>, key: Seq<char>)
    ensures
        key_index(kv, key) < kv.len(),
        key_index(kv, key) >= 0 ==> kv[key_index(kv, key)].0 == key && forall|j: int|
            0 <= j < key_index(kv, key) ==> (#[trigger] kv[j]).0 != key,
        key_index(kv, key) < 0 ==> key_index(kv, key) == -1 && forall|j: int| 0 <= j < kv.len() ==> (#[trigger] kv[j]).0 != key,
    decreases kv.len(),
{
    if kv.len() > 0 && kv[0].0 != key {
        let rest = kv.drop_first();
        lemma_key_index_first(rest, key);
        assert forall|j: int| 1 <= j < kv.len() implies kv[j] == rest[j - 1] by {}
    }
}

/// Setting a key then reading it gives the value set, and reading any other
/// key gives what it gave before.
pub proof fn lemma_set_then_lookup(kv: Seq<(Seq<char>, Seq<char>)>, key: Seq<char>, value: Seq<char>, other: Seq<char>)
    ensures
        lookup_kv(set_kv(kv, key, value), key) == Some(value),
        other != key ==> lookup_kv(set_kv(kv, key, value), other) == lookup_kv(kv, other),
{
    lemma_key_index_first(kv, key);
    lemma_key_index_first(kv, other);
    let s = set_kv(kv, key, value);
    lemma_key_index_first(s, key);
    lemma_key_index_first(s, other);
    let i = key_index(kv, key);
    if 0 <= i < kv.len() {
        assert(s[i].0 == key);
        if key_index(s, key) != i {
            assert(key_index(s, key) < i ==> s[key_index(s, key)] == kv[key_index(s, key)]);
        }
    } else {
        assert(s[kv.len() as int] == (key, value));
        assert forall|j: int| 0 <= j < kv.len() implies s[j] == kv[j] by {}
    }
    if other != key {
        let oi = key_index(kv, other);
        let si = key_index(s, other);
        assert forall|j: int| 0 <= j < kv.len() && s[j].0 == other implies s[j] == kv[j] by {}
        if 0 <= oi {
            assert(s[oi] == kv[oi]);
        }
        if 0 <= si && si < kv.len() {
            assert(s[si] == kv[si]);
        }
    }
}

/// The lines of a text: split at each `\n`, with no empty line after a
/// final `\n`.
pub open spec fn lines(cs: Seq<char>) -> Seq<Seq<char>>
    decreases cs.len(),
{
    if cs.len() == 0 {
        Seq::empty()
    } else {
        let e = index_of(cs, '\n');
        if 0 <= e < cs.len() {
            seq![cs.take(e)] + lines(cs.skip(e + 1))
        } else {
            seq![cs]
        }
    }
}

/// What one line of a manifest says.
pub enum Line {
    Blank,
    /// `[need.<name>]`
    Need(Seq<char>),
    /// `[engine.<name>]`
    Engine(Seq<char>),
    /// Any other `[...]` header, by its trimmed contents.
    BadTable(Seq<char>),
    /// `key = value`
    Entry(Seq<char>, Seq<char>),
    Malformed,
}

pub open spec fn has_prefix_spec(h: Seq<char>, p: Seq<char>) -> bool {
    p.len() <= h.len() && h.subrange(0, p.len() as int) == p
}

/// A line with its comment cut off and surrounding whitespace trimmed; a
/// header names a need or an engine (its name trimmed), anything else is an
/// entry.
pub open spec fn classify(line: Seq<char>) -> Line {
    let t = trim_spec(strip_comment_spec(line));
    if t.len() == 0 {
        Line::Blank
    } else if t.len() >= 2 && t[0] == '[' && t[t.len() - 1] == ']' {
        let h = trim_spec(t.subrange(1, t.len() - 1));
        if has_prefix_spec(h, "need."@) {
            Line::Need(trim_spec(h.subrange(5, h.len() as int)))
        } else if has_prefix_spec(h, "engine."@) {
            Line::Engine(trim_spec(h.subrange(7, h.len() as int)))
        } else {
            Line::BadTable(h)
        }
    } else {
        match kv_spec(t) {
            Some((k, v)) => Line::Entry(k, v),
            None => Line::Malformed,
        }
    }
}

/// The table the following entries belong to.
pub enum Current {
    Outside,
    Need(int),
    Engine(int),
}

/// The tables read so far: each need with its entries, each engine with its
/// kind and parameters, in order of first appearance.
pub struct Sections {
    pub needs: Seq<(Seq<char>, Seq<(Seq<char>, Seq<char>)>)>,
    pub engines: Seq<(Seq<char>, Seq<char>, Seq<(Seq<char>, Seq<char>)>)>,
    pub current: Current,
}

pub open spec fn need_index(needs: Seq<(Seq<char>, Seq<(Seq<char>, Seq<char>)>)>, name: Seq<char>) -> int
    decreases needs.len(),
{
    if needs.len() == 0 {
        -1
    } else if needs.last().0 == name {
        let i = need_index(needs.drop_last(), name);
        if i < 0 {
            needs.len() - 1
        } else {
            i
        }
    } else {
        need_index(needs.drop_last(), name)
    }
}

pub open spec fn engine_index(engines: Seq<(Seq<char>, Seq<char>, Seq<(Seq<char>, Seq<char>)>)>, name: Seq<char>) -> int
    decreases engines.len(),
{
    if engines.len() == 0 {
        -1
    } else if engines.last().0 == name {
        let i = engine_index(engines.drop_last(), name);
        if i < 0 {
            engines.len() - 1
        } else {
            i
        }
    } else {
        engine_index(engines.drop_last(), name)
    }
}

pub open spec fn line_message(lineno: nat, what: Seq<char>) -> Seq<char> {
    "manifest line "@ + nat_to_dec(lineno) + what
}

/// The effect of line number `lineno` (counting from 1) on the tables read
/// so far: a header opens (or reopens) its table; an entry sets a key of
/// the open table, `kind` being an engine's kind; the rest are errors.
pub open spec fn step(s: Sections, line: Line, lineno: nat) -> Result<Sections, Seq<char>> {
    match line {
        Line::Blank => Ok(s),
        Line::Need(name) => {
            let i = need_index(s.needs, name);
            if i >= 0 {
                Ok(Sections { needs: s.needs, engines: s.engines, current: Current::Need(i) })
            } else {
                Ok(Sections {
                    needs: s.needs.push((name, Seq::empty())),
                    engines: s.engines,
                    current: Current::Need(s.needs.len() as int),
                })
            }
        },
        Line::Engine(name) => {
            let i = engine_index(s.engines, name);
            if i >= 0 {
                Ok(Sections { needs: s.needs, engines: s.engines, current: Current::Engine(i) })
            } else {
                Ok(Sections {
                    needs: s.needs,
                    engines: s.engines.push((name, Seq::empty(), Seq::empty())),
                    current: Current::Engine(s.engines.len() as int),
                })
            }
        },
        Line::BadTable(h) => Err(line_message(lineno, ": unknown table `["@ + h
            + "]` (expected [need.*] or [engine.*])"@)),
        Line::Entry(k, v) => match s.current {
            Current::Need(i) => if 0 <= i < s.needs.len() {
                Ok(Sections {
                    needs: s.needs.update(i, (s.needs[i].0, set_kv(s.needs[i].1, k, v))),
                    engines: s.engines,
                    current: s.current,
                })
            } else {
                Ok(s)
            },
            Current::Engine(i) => if 0 <= i < s.engines.len() {
                let e = s.engines[i];
                if k == "kind"@ {
                    Ok(Sections { needs: s.needs, engines: s.engines.update(i, (e.0, v, e.2)), current: s.current })
                } else {
                    Ok(Sections {
                        needs: s.needs,
                        engines: s.engines.update(i, (e.0, e.1, set_kv(e.2, k, v))),
                        current: s.current,
                    })
                }
            } else {
                Ok(s)
            },
            Current::Outside => Err(line_message(lineno, ": key outside any [need.*]/[engine.*] table"@)),
        },
        Line::Malformed => Err(line_message(lineno, ": expected `key = \"value\"`"@)),
    }
}

/// The tables read from a sequence of lines, or the first line's error.
pub open spec fn scan(ls: Seq<Seq<char>>) -> Result<Sections, Seq<char>>
    decreases ls.len(),
{
    if ls.len() == 0 {
        Ok(Sections { needs: Seq::empty(), engines: Seq::empty(), current: Current::Outside })
    } else {
        match scan(ls.drop_last()) {
            Err(e) => Err(e),
            Ok(s) => step(s, classify(ls.last()), ls.len()),
        }
    }
}

/// Why a need's entries do not make a binding: no `engine`, or a
/// `locality` other than `local` or `network`.
pub open spec fn need_error(name: Seq<char>, kv: Seq<(Seq<char>, Seq<char>)>) -> Option<Seq<char>> {
    match lookup_kv(kv, "engine"@) {
        None => Some("manifest need `"@ + name + "` is missing `engine = \"...\"`"@),
        Some(_) => match lookup_kv(kv, "locality"@) {
            None => None,
            Some(l) => if l == "local"@ || l == "network"@ {
                None
            } else {
                Some("manifest need `"@ + name + "`: unknown locality `"@ + l + "` (use local|network)"@)
            },
        },
    }
}

/// The error of the first need, in order, whose entries make no binding.
pub open spec fn first_need_error(needs: Seq<(Seq<char>, Seq<(Seq<char>, Seq<char>)>)>) -> Option<Seq<char>>
    decreases needs.len(),
{
    if needs.len() == 0 {
        None
    } else {
        match need_error(needs[0].0, needs[0].1) {
            Some(e) => Some(e),
            None => first_need_error(needs.drop_first()),
        }
    }
}

pub open spec fn opt_view(o: Option<String>) -> Option<Seq<char>> {
    match o {
        Some(s) => Some(s@),
        None => None,
    }
}

pub open spec fn locality_of(l: Option<Seq<char>>) -> Option<Locality> {
    match l {
        Some(v) => if v == "local"@ {
            Some(Locality::Local)
        } else {
            Some(Locality::Network)
        },
        None => None,
    }
}

/// The binding a need's entries make.
pub open spec fn binding_of(b: NeedBinding, kv: Seq<(Seq<char>, Seq<char>)>) -> bool {
    &&& Some(b.engine@) == lookup_kv(kv, "engine"@)
    &&& b.model@ == (match lookup_kv(kv, "model"@) {
        Some(m) => m,
        None => Seq::<char>::empty(),
    })
    &&& opt_view(b.sha256) == lookup_kv(kv, "sha256"@)
    &&& b.locality == locality_of(lookup_kv(kv, "locality"@))
    &&& opt_view(b.latency) == lookup_kv(kv, "latency"@)
    &&& opt_view(b.tier) == lookup_kv(kv, "tier"@)
}

/// `m` holds exactly the tables read: the needs and engines in order, each
/// with the binding or definition its entries make.
pub open spec fn manifest_of(m: Manifest, s: Sections) -> bool {
    &&& m.needs@.len() == s.needs.len()
    &&& forall|i: int|
        #![trigger m.needs@[i]]
        0 <= i < s.needs.len() ==> m.needs@[i].0@ == s.needs[i].0 && binding_of(m.needs@[i].1, s.needs[i].1)
    &&& m.engines@.len() == s.engines.len()
    &&& forall|i: int|
        #![trigger m.engines@[i]]
        0 <= i < s.engines.len() ==> m.engines@[i].0@ == s.engines[i].0 && m.engines@[i].1.kind@
            == s.engines[i].1 && pairs_view(m.engines@[i].1.params@) == s.engines[i].2
}

/// What parsing a manifest text gives: the first line error, else the first
/// need error, else the manifest of the tables read.
pub open spec fn parsed(src: Seq<char>, r: Result<Manifest, String>) -> bool {
    match scan(lines(src)) {
        Err(e) => r matches Err(x) && x@ == e,
        Ok(s) => match first_need_error(s.needs) {
            Some(e) => r matches Err(x) && x@ == e,
            None => r matches Ok(m) && manifest_of(m, s),
        },
    }
}

enum Section {
    Outside,
    Need(usize),
    Engine(usize),
}

proof fn lemma_key_index(kv: Seq<(Seq<char>, Seq<char>)>, key: Seq<char>)
    ensures
        -1 <= key_index(kv, key) < kv.len(),
        key_index(kv, key) >= 0 ==> kv[key_index(kv, key)].0 == key,
        forall|j: int| 0 <= j < key_index(kv, key) ==> kv[j].0 != key,
        key_index(kv, key) < 0 ==> forall|j: int| 0 <= j < kv.len() ==> kv[j].0 != key,
    decreases kv.len(),
{
    if kv.len() > 0 && kv[0].0 != key {
        lemma_key_index(kv.drop_first(), key);
        assert forall|j: int| 1 <= j < kv.len() implies kv[j] == kv.drop_first()[j - 1] by {}
    }
}

proof fn lemma_key_index_at(kv: Seq<(Seq<char>, Seq<char>)>, key: Seq<char>, i: int)
    requires
        0 <= i < kv.len(),
        kv[i].0 == key,
        forall|j: int| 0 <= j < i ==> kv[j].0 != key,
    ensures
        key_index(kv, key) == i,
{
    lemma_key_index(kv, key);
}

proof fn lemma_key_index_none(kv: Seq<(Seq<char>, Seq<char>)>, key: Seq<char>)
    requires
        forall|j: int| 0 <= j < kv.len() ==> kv[j].0 != key,
    ensures
        key_index(kv, key) < 0,
{
    lemma_key_index(kv, key);
}

proof fn lemma_assoc_lookup(p: Seq<(String, String)>, key: Seq<char>)
    ensures
        assoc(p, key) == lookup_kv(pairs_view(p), key),
    decreases p.len(),
{
    if p.len() > 0 {
        lemma_assoc_lookup(p.drop_first(), key);
        assert(pairs_view(p.drop_first()) =~= pairs_view(p).drop_first());
        lemma_key_index(pairs_view(p), key);
        lemma_key_index(pairs_view(p).drop_first(), key);
    }
}

proof fn lemma_need_index(needs: Seq<(Seq<char>, Seq<(Seq<char>, Seq<char>)>)>, name: Seq<char>)
    ensures
        -1 <= need_index(needs, name) < needs.len(),
        need_index(needs, name) >= 0 ==> needs[need_index(needs, name)].0 == name,
        forall|j: int| 0 <= j < need_index(needs, name) ==> needs[j].0 != name,
        need_index(needs, name) < 0 ==> forall|j: int| 0 <= j < needs.len() ==> needs[j].0 != name,
    decreases needs.len(),
{
    if needs.len() > 0 {
        lemma_need_index(needs.drop_last(), name);
        assert forall|j: int| 0 <= j < needs.len() - 1 implies needs[j] == needs.drop_last()[j] by {}
    }
}

proof fn lemma_engine_index(engines: Seq<(Seq<char>, Seq<char>, Seq<(Seq<char>, Seq<char>)>)>, name: Seq<char>)
    ensures
        -1 <= engine_index(engines, name) < engines.len(),
        engine_index(engines, name) >= 0 ==> engines[engine_index(engines, name)].0 == name,
        forall|j: int| 0 <= j < engine_index(engines, name) ==> engines[j].0 != name,
        engine_index(engines, name) < 0 ==> forall|j: int| 0 <= j < engines.len() ==> engines[j].0 != name,
    decreases engines.len(),
{
    if engines.len() > 0 {
        lemma_engine_index(engines.drop_last(), name);
        assert forall|j: int| 0 <= j < engines.len() - 1 implies engines[j] == engines.drop_last()[j] by {}
    }
}

proof fn lemma_strip_comment(x: Seq<char>)
    ensures
        strip_comment_spec(x) == (if index_of(x, '#') < 0 {
            x
        } else {
            x.take(index_of(x, '#'))
        }),
    decreases x.len(),
{
    if x.len() > 0 && x[0] != '#' {
        lemma_strip_comment(x.drop_first());
        lemma_index_of(x.drop_first(), '#');
        if index_of(x.drop_first(), '#') >= 0 {
            assert(seq![x[0]] + x.drop_first().take(index_of(x.drop_first(), '#')) =~= x.take(
                index_of(x, '#'),
            ));
        } else {
            assert(seq![x[0]] + x.drop_first() =~= x);
        }
    } else if x.len() > 0 {
        assert(x.take(0) =~= Seq::<char>::empty());
    }
}

proof fn lemma_scan_err(a: Seq<Seq<char>>, b: Seq<Seq<char>>)
    requires
        scan(a) is Err,
    ensures
        scan(a + b) == scan(a),
    decreases b.len(),
{
    if b.len() == 0 {
        assert(a + b =~= a);
    } else {
        lemma_scan_err(a, b.drop_last());
        assert((a + b).drop_last() =~= a + b.drop_last());
    }
}

proof fn lemma_scan_push(a: Seq<Seq<char>>, l: Seq<char>)
    ensures
        scan(a.push(l)) == (match scan(a) {
            Err(e) => Err(e),
            Ok(s) => step(s, classify(l), (a.len() + 1) as nat),
        }),
{
    assert(a.push(l).drop_last() =~= a);
}

/// The tables being read, and the one entries go to.
struct Tables {
    needs: Vec<(String, Vec<(String, String)>)>,
    engines: Vec<(String, EngineSpec)>,
    section: Section,
}

impl Tables {
    spec fn view(&self) -> Sections {
        Sections {
            needs: self.needs@.map_values(|e: (String, Vec<(String, String)>)| (e.0@, pairs_view(e.1@))),
            engines: self.engines@.map_values(|e: (String, EngineSpec)| (e.0@, e.1.kind@, pairs_view(e.1.params@))),
            current: match self.section {
                Section::Outside => Current::Outside,
                Section::Need(i) => Current::Need(i as int),
                Section::Engine(i) => Current::Engine(i as int),
            },
        }
    }

    spec fn inv(&self) -> bool {
        &&& forall|i: int, j: int| 0 <= i < j < self.needs@.len() ==> self.needs@[i].0@ != self.needs@[j].0@
        &&& forall|i: int, j: int| 0 <= i < j < self.engines@.len() ==> self.engines@[i].0@ != self.engines@[j].0@
        &&& (self.section matches Section::Need(i) ==> i < self.needs@.len())
        &&& (self.section matches Section::Engine(i) ==> i < self.engines@.len())
    }
}

/// What a line says, as read.
enum LineKind {
    Blank,
    Need(String),
    Engine(String),
    BadTable(String),
    Entry(String, String),
    Malformed,
}

spec fn kind_view(k: LineKind) -> Line {
    match k {
        LineKind::Blank => Line::Blank,
        LineKind::Need(n) => Line::Need(n@),
        LineKind::Engine(n) => Line::Engine(n@),
        LineKind::BadTable(h) => Line::BadTable(h@),
        LineKind::Entry(k, v) => Line::Entry(k@, v@),
        LineKind::Malformed => Line::Malformed,
    }
}

/// Reads what the line `cs[start..end]` says.
fn classify_line(cs: &Vec<char>, start: usize, end: usize) -> (k: LineKind)
    requires
        start <= end <= cs@.len(),
    ensures
        kind_view(k) == classify(cs@.subrange(start as int, end as int)),
{
    let ghost line = cs@.subrange(start as int, end as int);
    let cut = match find_char(cs, start, end, '#') {
        Some(h) => h,
        None => end,
    };
    proof {
        lemma_strip_comment(line);
        lemma_index_of(line, '#');
        assert(cs@.subrange(start as int, cut as int) =~= strip_comment_spec(line));
    }
    let (a, b) = trim_range(cs, start, cut);
    let ghost t = cs@.subrange(a as int, b as int);
    if a == b {
        return LineKind::Blank;
    }
    if b - a >= 2 && cs[a] == '[' && cs[b - 1] == ']' {
        let (ha, hb) = trim_range(cs, a + 1, b - 1);
        let ghost h = cs@.subrange(ha as int, hb as int);
        proof {
            assert(t.subrange(1, t.len() - 1) =~= cs@.subrange(a + 1, b - 1));
            reveal_strlit("need.");
            reveal_strlit("engine.");
            if hb - ha >= 5 {
                assert(h.subrange(0, 5) =~= cs@.subrange(ha as int, ha + 5));
            }
            if hb - ha >= 7 {
                assert(h.subrange(0, 7) =~= cs@.subrange(ha as int, ha + 7));
            }
        }
        if has_prefix(cs, ha, hb, "need.") {
            let (na, nb) = trim_range(cs, ha + 5, hb);
            proof {
                assert(h.subrange(5, h.len() as int) =~= cs@.subrange(ha + 5, hb as int));
            }
            return LineKind::Need(string_of(cs, na, nb));
        } else if has_prefix(cs, ha, hb, "engine.") {
            let (na, nb) = trim_range(cs, ha + 7, hb);
            proof {
                assert(h.subrange(7, h.len() as int) =~= cs@.subrange(ha + 7, hb as int));
            }
            return LineKind::Engine(string_of(cs, na, nb));
        } else {
            return LineKind::BadTable(string_of(cs, ha, hb));
        }
    }
    match parse_kv(cs, a, b) {
        None => LineKind::Malformed,
        Some((key, value)) => LineKind::Entry(key, value),
    }
}

/// Applies what line number `lineno + 1` says to the tables (see `step`).
fn apply_line(t: &mut Tables, k: LineKind, lineno: usize) -> (r: Result<(), String>)
    requires
        old(t).inv(),
        lineno < usize::MAX,
    ensures
        match step(old(t).view(), kind_view(k), (lineno + 1) as nat) {
            Ok(s) => r is Ok && final(t).view() == s && final(t).inv(),
            Err(e) => r matches Err(x) && x@ == e,
        },
{
    let ghost s0 = t.view();
    match k {
        LineKind::Blank => Ok(()),
        LineKind::Need(name) => {
            proof {
                lemma_need_index(s0.needs, name@);
            }
            match find_need(&t.needs, name.as_str()) {
                Some(i) => {
                    proof {
                        assert(s0.needs[i as int].0 == name@);
                        assert forall|j: int| 0 <= j < i implies s0.needs[j].0 != name@ by {}
                    }
                    t.section = Section::Need(i);
                    assert(t.view().needs =~= s0.needs);
                    assert(t.view().engines =~= s0.engines);
                },
                None => {
                    proof {
                        assert forall|j: int| 0 <= j < s0.needs.len() implies s0.needs[j].0 != name@ by {}
                    }
                    t.needs.push((name, Vec::new()));
                    t.section = Section::Need(t.needs.len() - 1);
                    proof {
                        assert(pairs_view(t.needs@[t.needs@.len() - 1].1@) =~= Seq::empty());
                        assert(t.view().needs =~= s0.needs.push((name@, Seq::empty())));
                        assert(t.view().engines =~= s0.engines);
                    }
                },
            }
            Ok(())
        },
        LineKind::Engine(name) => {
            proof {
                lemma_engine_index(s0.engines, name@);
            }
            match find_engine(&t.engines, name.as_str()) {
                Some(i) => {
                    proof {
                        assert(s0.engines[i as int].0 == name@);
                        assert forall|j: int| 0 <= j < i implies s0.engines[j].0 != name@ by {}
                    }
                    t.section = Section::Engine(i);
                    assert(t.view().needs =~= s0.needs);
                    assert(t.view().engines =~= s0.engines);
                },
                None => {
                    proof {
                        assert forall|j: int| 0 <= j < s0.engines.len() implies s0.engines[j].0 != name@ by {}
                    }
                    t.engines.push((name, EngineSpec { kind: String::new(), params: Vec::new() }));
                    t.section = Section::Engine(t.engines.len() - 1);
                    proof {
                        assert(pairs_view(t.engines@[t.engines@.len() - 1].1.params@) =~= Seq::empty());
                        assert(t.view().engines =~= s0.engines.push((name@, Seq::empty(), Seq::empty())));
                        assert(t.view().needs =~= s0.needs);
                    }
                },
            }
            Ok(())
        },
        LineKind::BadTable(header) => {
            let mut what = owned(": unknown table `[");
            push_str(&mut what, header.as_str());
            push_str(&mut what, "]` (expected [need.*] or [engine.*])");
            Err(line_error(lineno, what.as_str()))
        },
        LineKind::Malformed => Err(line_error(lineno, ": expected `key = \"value\"`")),
        LineKind::Entry(key, value) => {
            match t.section {
                Section::Need(i) => {
                    let ghost before = t.needs@;
                    let mut entry = t.needs.remove(i);
                    assoc_set(&mut entry.1, key, value);
                    t.needs.insert(i, entry);
                    proof {
                        assert(t.needs@ =~= before.update(i as int, entry));
                        assert(t.view().needs =~= s0.needs.update(
                            i as int,
                            (s0.needs[i as int].0, set_kv(s0.needs[i as int].1, key@, value@)),
                        ));
                        assert(t.view().engines =~= s0.engines);
                        assert forall|x: int, y: int| 0 <= x < y < t.needs@.len() implies t.needs@[x].0@
                            != t.needs@[y].0@ by {
                            assert(t.needs@[x].0 == before[x].0 && t.needs@[y].0 == before[y].0);
                        }
                    }
                    Ok(())
                },
                Section::Engine(i) => {
                    let ghost before = t.engines@;
                    let ghost is_kind = key@ == "kind"@;
                    let mut entry = t.engines.remove(i);
                    if str_eq(key.as_str(), "kind") {
                        entry.1.kind = value;
                    } else {
                        assoc_set(&mut entry.1.params, key, value);
                    }
                    t.engines.insert(i, entry);
                    proof {
                        assert(t.engines@ =~= before.update(i as int, entry));
                        let e = s0.engines[i as int];
                        if is_kind {
                            assert(t.view().engines =~= s0.engines.update(i as int, (e.0, value@, e.2)));
                        } else {
                            assert(t.view().engines =~= s0.engines.update(
                                i as int,
                                (e.0, e.1, set_kv(e.2, key@, value@)),
                            ));
                        }
                        assert(t.view().needs =~= s0.needs);
                        assert forall|x: int, y: int| 0 <= x < y < t.engines@.len() implies t.engines@[x].0@
                            != t.engines@[y].0@ by {
                            assert(t.engines@[x].0 == before[x].0 && t.engines@[y].0 == before[y].0);
                        }
                    }
                    Ok(())
                },
                Section::Outside => Err(line_error(lineno, ": key outside any [need.*]/[engine.*] table")),
            }
        },
    }
}

fn find_need(v: &Vec<(String, Vec<(String, String)>)>, name: &str) -> (r: Option<usize>)
    ensures
        match r {
            Some(i) => i < v@.len() && v@[i as int].0@ == name@ && forall|k: int| 0 <= k < i ==> v@[k].0@ != name@,
            None => forall|k: int| 0 <= k < v@.len() ==> v@[k].0@ != name@,
        },
{
    let n = v.len();
    let mut i: usize = 0;
    while i < n
        invariant
            n == v@.len(),
            i <= n,
            forall|k: int| 0 <= k < i ==> v@[k].0@ != name@,
        decreases n - i,
    {
        if str_eq(v[i].0.as_str(), name) {
            return Some(i);
        }
        i = i + 1;
    }
    None
}

fn find_engine(v: &Vec<(String, EngineSpec)>, name: &str) -> (r: Option<usize>)
    ensures
        match r {
            Some(i) => i < v@.len() && v@[i as int].0@ == name@ && forall|k: int| 0 <= k < i ==> v@[k].0@ != name@,
            None => forall|k: int| 0 <= k < v@.len() ==> v@[k].0@ != name@,
        },
{
    let n = v.len();
    let mut i: usize = 0;
    while i < n
        invariant
            n == v@.len(),
            i <= n,
            forall|k: int| 0 <= k < i ==> v@[k].0@ != name@,
        decreases n - i,
    {
        if str_eq(v[i].0.as_str(), name) {
            return Some(i);
        }
        i = i + 1;
    }
    None
}

fn missing_engine_error(name: &String) -> (r: String)
    ensures
        r@ == "manifest need `"@ + name@ + "` is missing `engine = \"...\"`"@,
{
    let mut m = owned("manifest need `");
    push_str(&mut m, name.as_str());
    push_str(&mut m, "` is missing `engine = \"...\"`");
    m
}

/// The binding a need's entries make, or the need's error.
fn need_binding(name: &String, kv: &Vec<(String, String)>) -> (r: Result<NeedBinding, String>)
    ensures
        match need_error(name@, pairs_view(kv@)) {
            Some(e) => r matches Err(x) && x@ == e,
            None => r matches Ok(b) && binding_of(b, pairs_view(kv@)),
        },
{
    proof {
        lemma_assoc_lookup(kv@, "engine"@);
        lemma_assoc_lookup(kv@, "model"@);
        lemma_assoc_lookup(kv@, "locality"@);
        lemma_assoc_lookup(kv@, "sha256"@);
        lemma_assoc_lookup(kv@, "latency"@);
        lemma_assoc_lookup(kv@, "tier"@);
        reveal_strlit("");
        assert(""@ =~= Seq::<char>::empty());
    }
    let engine = match assoc_get(kv, "engine") {
        Some(e) => e,
        None => {
            return Err(missing_engine_error(name));
        },
    };
    let model = match assoc_get(kv, "model") {
        Some(m) => m,
        None => String::new(),
    };
    let locality = match assoc_get(kv, "locality") {
        None => None,
        Some(l) => {
            if str_eq(l.as_str(), "local") {
                Some(Locality::Local)
            } else if str_eq(l.as_str(), "network") {
                Some(Locality::Network)
            } else {
                let mut msg = owned("manifest need `");
                push_str(&mut msg, name.as_str());
                push_str(&mut msg, "`: unknown locality `");
                push_str(&mut msg, l.as_str());
                push_str(&mut msg, "` (use local|network)");
                return Err(msg);
            }
        },
    };
    Ok(NeedBinding {
        engine,
        model,
        sha256: assoc_get(kv, "sha256"),
        locality,
        latency: assoc_get(kv, "latency"),
        tier: assoc_get(kv, "tier"),
    })
}

impl Manifest {
    /// Parses a manifest from a TOML subset: `[need.<intent>]` and
    /// `[engine.<id>]` tables with `key = "value"` entries. Comments (`#`)
    /// and blank lines are skipped; an engine's keys other than `kind` are its
    /// parameters; a need's unknown keys are ignored.
    pub fn parse(src: &str) -> (r: Result<Manifest, String>)
        ensures
            parsed(src@, r),
            r is Ok ==> r->Ok_0.wf(),
    {
        let cs = chars_of(src);
        let mut t = Tables { needs: Vec::new(), engines: Vec::new(), section: Section::Outside };
        let n = cs.len();
        let mut start: usize = 0;
        let mut lineno: usize = 0;
        let ghost mut done: Seq<Seq<char>> = Seq::empty();
        proof {
            assert(cs@.subrange(0, n as int) =~= cs@);
            assert(done + lines(cs@) =~= lines(cs@));
            assert(t.view().needs =~= Seq::empty());
            assert(t.view().engines =~= Seq::empty());
        }
        while start < n
            invariant
                n == cs@.len(),
                cs@ == src@,
                start <= n,
                lineno <= start,
                lineno == done.len(),
                lines(cs@) == done + lines(cs@.subrange(start as int, n as int)),
                scan(done) == Ok::<Sections, Seq<char>>(t.view()),
                t.inv(),
            decreases n - start,
        {
            let ghost rest = cs@.subrange(start as int, n as int);
            let found_end = find_char(&cs, start, n, '\n');
            let end = match found_end {
                Some(e) => e,
                None => n,
            };
            let ghost line = cs@.subrange(start as int, end as int);
            let next = if end < n {
                end + 1
            } else {
                n
            };
            proof {
                match found_end {
                    Some(e) => {
                        assert(rest.take(e - start) =~= line);
                        assert(rest.skip(e - start + 1) =~= cs@.subrange(next as int, n as int));
                    },
                    None => {
                        assert(rest =~= line);
                        assert(cs@.subrange(next as int, n as int) =~= Seq::<char>::empty());
                        assert(lines(cs@.subrange(next as int, n as int)) =~= Seq::<Seq<char>>::empty());
                    },
                }
                assert(lines(rest) =~= seq![line] + lines(cs@.subrange(next as int, n as int)));
                assert(lines(cs@) =~= done.push(line) + lines(cs@.subrange(next as int, n as int)));
                lemma_scan_push(done, line);
            }
            let k = classify_line(&cs, start, end);
            let applied = apply_line(&mut t, k, lineno);
            proof {
                done = done.push(line);
            }
            start = next;
            lineno = lineno + 1;
            if let Err(e) = applied {
                proof {
                    lemma_scan_err(done, lines(cs@.subrange(start as int, n as int)));
                }
                return Err(e);
            }
        }
        let ghost sv = t.view();
        proof {
            assert(cs@.subrange(n as int, n as int) =~= Seq::<char>::empty());
            assert(lines(cs@.subrange(n as int, n as int)) =~= Seq::<Seq<char>>::empty());
            assert(lines(cs@) =~= done);
            assert(sv.needs.subrange(0, sv.needs.len() as int) =~= sv.needs);
        }
        let mut needs: Vec<(String, NeedBinding)> = Vec::new();
        let m = t.needs.len();
        let mut i: usize = 0;
        while i < m
            invariant
                m == t.needs@.len(),
                i <= m,
                sv == t.view(),
                scan(lines(src@)) == Ok::<Sections, Seq<char>>(sv),
                first_need_error(sv.needs) == first_need_error(sv.needs.subrange(i as int, m as int)),
                needs@.len() == i,
                forall|k: int|
                    #![trigger needs@[k]]
                    0 <= k < i ==> needs@[k].0@ == sv.needs[k].0 && binding_of(needs@[k].1, sv.needs[k].1),
            decreases m - i,
        {
            let name = t.needs[i].0.clone();
            let b = need_binding(&name, &t.needs[i].1);
            proof {
                let rest = sv.needs.subrange(i as int, m as int);
                assert(sv.needs[i as int] == (t.needs@[i as int].0@, pairs_view(t.needs@[i as int].1@)));
                assert(rest[0] == sv.needs[i as int]);
                assert(rest.drop_first() =~= sv.needs.subrange(i + 1, m as int));
            }
            match b {
                Ok(binding) => {
                    needs.push((name, binding));
                    proof {
                        assert(needs@[i as int].0@ == sv.needs[i as int].0);
                    }
                },
                Err(e) => {
                    return Err(e);
                },
            }
            i = i + 1;
        }
        proof {
            assert(sv.needs.subrange(m as int, m as int) =~= Seq::<(Seq<char>, Seq<(Seq<char>, Seq<char>)>)>::empty());
        }
        let r = Manifest { needs, engines: t.engines };
        proof {
            assert forall|x: int, y: int| 0 <= x < y < r.needs@.len() implies r.needs@[x].0@ != r.needs@[y].0@ by {
                assert(r.needs@[x].0@ == sv.needs[x].0);
                assert(r.needs@[y].0@ == sv.needs[y].0);
            }
            assert(manifest_of(r, sv));
        }
        Ok(r)
    }
}

} // verus!
