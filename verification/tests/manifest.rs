//! Manifest binding and load-time resolution: a need that cannot be satisfied
//! under the policy refuses to start, with a precise message.

use witchcraft::engine::frontier::FrontierEngine;
use witchcraft::engine::Policy;
use witchcraft::manifest::{BoundEngine, Manifest, ResolveError};

const MANIFEST: &str = r#"
# models are named ONLY here, never in source
[need.TriageReasoner]
engine = "local-mock"
model = "qwen2.5-3b-instruct"
sha256 = "deadbeef"
locality = "local"

[need.CloudReasoner]
engine = "frontier"
model = "some-frontier-model"
locality = "network"

[engine.local-mock]
kind = "mock"

[engine.frontier]
kind = "anthropic"
"#;

fn manifest() -> Manifest {
    Manifest::parse(MANIFEST).expect("manifest parses")
}

#[test]
fn parses_needs_and_engines() {
    let m = manifest();
    assert!(m.need("TriageReasoner").is_some());
    assert_eq!(m.need("TriageReasoner").unwrap().model, "qwen2.5-3b-instruct");
    assert_eq!(m.engine("local-mock").unwrap().kind, "mock");
}

#[test]
fn resolves_a_local_mock_need() {
    let m = manifest();
    let engine = m
        .resolve("TriageReasoner", &Policy::default(), 0)
        .expect("local mock resolves under the default on-device policy");
    assert_eq!(engine.describe().backend_id, "mock");
}

#[test]
fn unknown_need_refuses_to_start() {
    let m = manifest();
    match m.resolve("NoSuchNeed", &Policy::default(), 0) {
        Err(e) => assert_eq!(e, ResolveError::UnknownNeed("NoSuchNeed".into())),
        Ok(_) => panic!("an unbound need must refuse to start"),
    }
}

#[test]
fn network_engine_without_permit_refuses_to_start() {
    let m = manifest();
    match m.resolve("CloudReasoner", &Policy::default(), 0) {
        Err(e) => assert!(
            matches!(e, ResolveError::NetworkNotPermitted { .. }),
            "expected NetworkNotPermitted, got {e:?}"
        ),
        Ok(_) => panic!("network engine under on-device-only must refuse"),
    }
}

fn network_policy(allow_downgrade: bool) -> Policy {
    Policy {
        allow_network: true,
        allow_downgrade,
        ..Policy::default()
    }
}

#[test]
fn strict_need_refuses_a_non_litmus_safe_engine() {
    let m = manifest();
    match m.resolve("CloudReasoner", &network_policy(false), 0) {
        Err(ResolveError::NonLitmusSafe { need, engine, .. }) => {
            assert_eq!(need, "CloudReasoner");
            assert_eq!(engine, "frontier");
        }
        Err(e) => panic!("expected NonLitmusSafe, got {e:?}"),
        Ok(_) => panic!("a litmus-strict need must refuse a non-litmus-safe engine"),
    }
}

#[test]
fn downgrade_binds_the_frontier_engine() {
    let m = manifest();
    match m.resolve("CloudReasoner", &network_policy(true), 0) {
        Ok(BoundEngine::Frontier(f)) => {
            assert_eq!(f.model(), "some-frontier-model");
            let d = f.describe();
            assert_eq!(d.backend_id, "frontier-anthropic");
            assert_eq!(d.litmus_safe, Some(false));
        }
        Ok(_) => panic!("expected the frontier engine"),
        Err(e) => panic!("downgrade with permit(network) must bind: {e:?}"),
    }
}

#[test]
fn undefined_engine_refuses_to_start() {
    let m = Manifest::parse("[need.A]\nengine = \"ghost\"\n").expect("parses");
    match m.resolve("A", &Policy::default(), 0) {
        Err(e) => assert_eq!(
            e,
            ResolveError::UnknownEngine {
                need: "A".into(),
                engine: "ghost".into()
            }
        ),
        Ok(_) => panic!("an undefined engine must refuse"),
    }
}

#[test]
fn llama_engine_is_unavailable_in_this_build() {
    let m = Manifest::parse("[need.A]\nengine = \"l\"\n[engine.l]\nkind = \"llama\"\ngguf = \"m.gguf\"\n")
        .expect("parses");
    assert_eq!(m.engine("l").unwrap().param("gguf"), Some("m.gguf".to_string()));
    match m.resolve("A", &Policy::default(), 0) {
        Err(e) => assert_eq!(
            e,
            ResolveError::EngineUnavailable {
                need: "A".into(),
                engine: "l".into(),
                kind: "llama".into()
            }
        ),
        Ok(_) => panic!("llama is not part of this build"),
    }
}

#[test]
fn refusal_messages_name_need_and_engine() {
    let e = ResolveError::NetworkNotPermitted {
        need: "CloudReasoner".into(),
        engine: "frontier".into(),
    };
    assert_eq!(
        e.message(),
        "refuse to start: need `CloudReasoner` is bound to network engine `frontier` but its site does not grant `permit(network)` (on-device-only is the default)"
    );
    let u = ResolveError::UnknownNeed("X".into());
    assert_eq!(
        u.message(),
        "refuse to start: need `X` has no binding in the manifest (every inference need must resolve to an engine)"
    );
}

#[test]
fn mock_binding_without_model_uses_the_intent() {
    let m = Manifest::parse("[need.Intent]\nengine = \"e\"\n[engine.e]\nkind = \"mock\"\n").expect("parses");
    match m.resolve("Intent", &Policy::default(), 5) {
        Ok(BoundEngine::Mock(e)) => {
            let p = e.provenance("Intent", 5);
            assert_eq!(p.model, "Intent");
            assert_eq!(p.backend_id, "mock");
            assert_eq!(p.seed, 5);
        }
        _ => panic!("mock binds"),
    }
}

#[test]
fn manifest_parse_errors_are_reported() {
    let e = Manifest::parse("[model.x]\n").err().expect("unknown table");
    assert_eq!(
        e,
        "manifest line 1: unknown table `[model.x]` (expected [need.*] or [engine.*])"
    );
    let e = Manifest::parse("kind = \"mock\"\n").err().expect("key outside table");
    assert_eq!(e, "manifest line 1: key outside any [need.*]/[engine.*] table");
    let e = Manifest::parse("[need.A]\nnot a pair\n").err().expect("no equals");
    assert_eq!(e, "manifest line 2: expected `key = \"value\"`");
    let e = Manifest::parse("[need.A]\nmodel = \"m\"\n").err().expect("missing engine");
    assert_eq!(e, "manifest need `A` is missing `engine = \"...\"`");
    let e = Manifest::parse("[need.A]\nengine = \"e\"\nlocality = \"moon\"\n")
        .err()
        .expect("bad locality");
    assert_eq!(e, "manifest need `A`: unknown locality `moon` (use local|network)");
}

#[test]
fn comments_and_quotes_are_handled() {
    let m = Manifest::parse("[engine.e] # the engine\nkind = 'mock' # single quotes\nx = bare\n")
        .expect("parses");
    let spec = m.engine("e").unwrap();
    assert_eq!(spec.kind, "mock");
    assert_eq!(spec.param("x"), Some("bare".to_string()));
}

#[test]
fn frontier_engine_reads_its_parameters() {
    let m = Manifest::parse(
        "[need.C]\nengine = \"o\"\nmodel = \"gpt\"\n[engine.o]\nkind = \"openai\"\napi_key_env = \"KEY\"\nendpoint = \"http://x\"\n",
    )
    .expect("parses");
    let binding = m.need("C").unwrap();
    let spec = m.engine("o").unwrap();
    let f = FrontierEngine::from_spec(binding, spec);
    assert_eq!(f.model(), "gpt");
    assert_eq!(f.api_key_env(), "KEY");
    assert_eq!(f.endpoint(), "http://x");
    assert_eq!(f.describe().backend_id, "frontier-openai");
}
