//! The frontier (network) engine's identity: it maps the output grammar to a
//! JSON Schema and asks a provider for structured output. Enforcement is
//! server-side and exposes no token-level mask, so it describes itself as
//! non-litmus-safe and offers no decode trace.

use vstd::prelude::*;
use crate::engine::{DecodeStep, Engine, EngineDescription, InferRequest, LatencyClass, Locality, Modality, Provenance};
use crate::manifest::{EngineSpec, NeedBinding};
use crate::grammar::Grammar;
use crate::text::{owned, str_eq, views};

verus! {

pub struct FrontierEngine {
    backend_id: String,
    model: String,
    /// The environment variable the API key is read from at request time.
    api_key_env: String,
    endpoint: String,
}

pub open spec fn frontier_reason() -> Seq<char> {
    "provider enforces JSON-schema structured output server-side; token-level masking is not observable, so masking-during-generation cannot be demonstrated"@
}

impl FrontierEngine {
    pub closed spec fn spec_backend_id(&self) -> Seq<char> {
        self.backend_id@
    }

    pub closed spec fn spec_model(&self) -> Seq<char> {
        self.model@
    }

    pub closed spec fn spec_api_key_env(&self) -> Seq<char> {
        self.api_key_env@
    }

    pub closed spec fn spec_endpoint(&self) -> Seq<char> {
        self.endpoint@
    }

    /// An `openai` engine targets OpenAI; any other kind targets Anthropic.
    /// The key variable and endpoint may be overridden by the engine's
    /// `api_key_env` and `endpoint` parameters.
    pub fn from_spec(binding: &NeedBinding, spec: &EngineSpec) -> (e: FrontierEngine)
        ensures
            e.spec_model() == binding.model@,
            spec.kind@ == "openai"@ ==> e.spec_backend_id() == "frontier-openai"@,
            spec.kind@ != "openai"@ ==> e.spec_backend_id() == "frontier-anthropic"@,
            e.spec_api_key_env() == (match spec.spec_param("api_key_env"@) {
                Some(v) => v,
                None => if spec.kind@ == "openai"@ { "OPENAI_API_KEY"@ } else { "ANTHROPIC_API_KEY"@ },
            }),
            e.spec_endpoint() == (match spec.spec_param("endpoint"@) {
                Some(v) => v,
                None => if spec.kind@ == "openai"@ {
                    "https://api.openai.com/v1/chat/completions"@
                } else {
                    "https://api.anthropic.com/v1/messages"@
                },
            }),
    {
        let openai = str_eq(spec.kind.as_str(), "openai");
        let backend_id = if openai {
            owned("frontier-openai")
        } else {
            owned("frontier-anthropic")
        };
        let api_key_env = match spec.param("api_key_env") {
            Some(v) => v,
            None => if openai {
                owned("OPENAI_API_KEY")
            } else {
                owned("ANTHROPIC_API_KEY")
            },
        };
        let endpoint = match spec.param("endpoint") {
            Some(v) => v,
            None => if openai {
                owned("https://api.openai.com/v1/chat/completions")
            } else {
                owned("https://api.anthropic.com/v1/messages")
            },
        };
        FrontierEngine { backend_id, model: binding.model.clone(), api_key_env, endpoint }
    }

    pub fn model(&self) -> (r: &String)
        ensures
            r@ == self.spec_model(),
    {
        &self.model
    }

    pub fn api_key_env(&self) -> (r: &String)
        ensures
            r@ == self.spec_api_key_env(),
    {
        &self.api_key_env
    }

    pub fn endpoint(&self) -> (r: &String)
        ensures
            r@ == self.spec_endpoint(),
    {
        &self.endpoint
    }

    pub fn provenance(&self, intent_id: &str, seed: u64) -> (p: Provenance)
        ensures
            p.oracle@ == intent_id@,
            p.model@ == self.spec_model(),
            p.model_version_or_sha@ == self.spec_model(),
            p.backend_id@ == self.spec_backend_id(),
            p.seed == seed,
            p.sampling@ == "structured-output"@,
    {
        Provenance {
            oracle: owned(intent_id),
            model: self.model.clone(),
            model_version_or_sha: self.model.clone(),
            backend_id: self.backend_id.clone(),
            seed,
            sampling: owned("structured-output"),
        }
    }

    /// A network, batch engine that accepts a schema but is not litmus-safe.
    pub fn describe(&self) -> (d: EngineDescription)
        ensures
            d.backend_id@ == self.spec_backend_id(),
            views(d.tiers@) == seq!["frontier"@],
            d.modalities@ == seq![Modality::Text],
            d.locality == Locality::Network,
            d.latency_class == LatencyClass::Batch,
            d.grammar_constrained,
            d.litmus_safe == Some(false),
            d.non_litmus_safe_reason is Some && d.non_litmus_safe_reason->0@ == frontier_reason(),
    {
        let mut tiers: Vec<String> = Vec::new();
        tiers.push(owned("frontier"));
        assert(views(tiers@) =~= seq!["frontier"@]);
        let mut modalities: Vec<Modality> = Vec::new();
        modalities.push(Modality::Text);
        assert(modalities@ =~= seq![Modality::Text]);
        EngineDescription {
            backend_id: self.backend_id.clone(),
            tiers,
            modalities,
            locality: Locality::Network,
            latency_class: LatencyClass::Batch,
            grammar_constrained: true,
            litmus_safe: Some(false),
            non_litmus_safe_reason: Some(owned("provider enforces JSON-schema structured output server-side; token-level masking is not observable, so masking-during-generation cannot be demonstrated")),
        }
    }
}

impl Engine for FrontierEngine {
    open spec fn engine_backend(&self) -> Seq<char> {
        self.spec_backend_id()
    }

    /// A provider exposes no token-level trace.
    open spec fn trace_sets(&self, intent: Seq<char>, input: Seq<char>, g: Grammar, seed: u64) -> Option<Seq<Seq<Seq<char>>>> {
        None
    }

    fn describe(&self) -> (d: EngineDescription)
        ensures
            d.backend_id@ == self.spec_backend_id(),
            views(d.tiers@) == seq!["frontier"@],
            d.modalities@ == seq![Modality::Text],
            d.locality == Locality::Network,
            d.latency_class == LatencyClass::Batch,
            d.grammar_constrained,
            d.litmus_safe == Some(false),
            d.non_litmus_safe_reason is Some && d.non_litmus_safe_reason->0@ == frontier_reason(),
    {
        FrontierEngine::describe(self)
    }

    /// A provider exposes no token-level trace.
    fn infer_traced(&mut self, req: &InferRequest) -> (t: Option<Vec<DecodeStep>>)
        ensures
            t is None,
    {
        None
    }
}

} // verus!
