//! One inference by the Mock: a value inside the grammar, a confidence below
//! one, and provenance naming the request.

use witchcraft::decoder::GenValue;
use witchcraft::engine::mock::MockEngine;
use witchcraft::engine::{InferRequest, Policy};
use witchcraft::grammar::{Grammar, GrammarVariant};

fn request<'a>(grammar: &'a Grammar, policy: &'a Policy, seed: u64) -> InferRequest<'a> {
    InferRequest { intent_id: "MoodReader", input: "hello", grammar, policy, seed }
}

#[test]
fn a_number_inference_lies_in_its_range() {
    let g = Grammar::Number { lo: 0, hi: 10 };
    let policy = Policy::default();
    let mut e = MockEngine::new(7, "");
    for _ in 0..20 {
        let i = e.infer(&request(&g, &policy, 7)).expect("a range admits values");
        match i.value {
            GenValue::Spark(n) => assert!((0..=10).contains(&n)),
            other => panic!("expected a spark, got {other:?}"),
        }
        assert!(i.confidence < 1u64 << 53);
        assert_eq!(i.provenance.oracle, "MoodReader");
        assert_eq!(i.provenance.model, "MoodReader", "an unbound mock stands for the intent");
        assert_eq!(i.provenance.backend_id, "mock");
        assert_eq!(i.provenance.seed, 7);
    }
}

#[test]
fn a_bound_model_names_the_provenance() {
    let g = Grammar::Bool;
    let policy = Policy::default();
    let mut e = MockEngine::new(1, "qwen2.5-3b-instruct");
    let i = e.infer(&request(&g, &policy, 1)).expect("bool admits values");
    assert_eq!(i.provenance.model, "qwen2.5-3b-instruct");
    assert_eq!(i.provenance.model_version_or_sha, "mock");
}

#[test]
fn a_variant_inference_is_one_of_the_declared_variants() {
    let g = Grammar::OneOf(vec![
        GrammarVariant { name: "Draft".to_string(), fields: vec![("reply".to_string(), Grammar::Text { max_len: 8 })] },
        GrammarVariant { name: "Escalate".to_string(), fields: vec![] },
    ]);
    let policy = Policy::default();
    let mut e = MockEngine::new(3, "");
    for _ in 0..20 {
        match e.infer(&request(&g, &policy, 3)).expect("admits values").value {
            GenValue::Variant(name, fields) => {
                assert!(name == "Draft" || name == "Escalate");
                if name == "Draft" {
                    assert_eq!(fields.len(), 1);
                    assert_eq!(fields[0].0, "reply");
                } else {
                    assert!(fields.is_empty());
                }
            }
            other => panic!("expected a variant, got {other:?}"),
        }
    }
}

#[test]
fn a_grammar_without_values_yields_nothing() {
    let empty = Grammar::OneOf(vec![]);
    let policy = Policy::default();
    let mut e = MockEngine::new(0, "");
    assert!(e.infer(&request(&empty, &policy, 0)).is_none());
}

#[test]
fn an_empty_number_range_yields_its_lower_bound() {
    let inverted = Grammar::Number { lo: 5, hi: 1 };
    let policy = Policy::default();
    let mut e = MockEngine::new(0, "");
    for _ in 0..3 {
        let i = e.infer(&request(&inverted, &policy, 0)).expect("the lower bound stands in");
        assert!(matches!(i.value, GenValue::Spark(5)));
    }
}

#[test]
fn the_same_seed_gives_the_same_inferences() {
    let g = Grammar::Number { lo: -100, hi: 100 };
    let policy = Policy::default();
    let run = |seed: u64| -> Vec<(i64, u64)> {
        let mut e = MockEngine::new(seed, "");
        (0..5)
            .map(|_| {
                let i = e.infer(&request(&g, &policy, seed)).expect("admits values");
                match i.value {
                    GenValue::Spark(n) => (n, i.confidence),
                    _ => panic!("expected a spark"),
                }
            })
            .collect()
    };
    assert_eq!(run(42), run(42));
}

#[test]
fn the_generator_state_determines_each_inference() {
    // Seed 42: the first draw across `0..=10` is 5 and the confidence the next
    // draw's top 53 bits; the state then moves on, so the second draw is 1.
    let g = Grammar::Number { lo: 0, hi: 10 };
    let policy = Policy::default();
    let mut e = MockEngine::new(42, "");
    let first = e.infer(&request(&g, &policy, 42)).expect("admits values");
    assert!(matches!(first.value, GenValue::Spark(5)), "{:?}", first.value);
    assert_eq!(first.confidence, 2509415892804083);
    let second = e.infer(&request(&g, &policy, 42)).expect("admits values");
    assert!(matches!(second.value, GenValue::Spark(1)), "{:?}", second.value);
}
