//! The falsification harness: the output type must mask tokens during
//! generation, witnessed on the deterministic Mock engine, and the grammar
//! renderers must close variants and bound numbers and lists.

use witchcraft::engine::mock::MockEngine;
use witchcraft::engine::{falsify, grammar_to_gbnf, grammar_to_json_schema, Engine};
use witchcraft::grammar::{Grammar, GrammarVariant};

fn real_grammar() -> Grammar {
    Grammar::Record(vec![
        ("urgency".into(), Grammar::Number { lo: 0, hi: 10 }),
        (
            "action".into(),
            Grammar::OneOf(vec![
                GrammarVariant {
                    name: "Draft".into(),
                    fields: vec![],
                },
                GrammarVariant {
                    name: "Escalate".into(),
                    fields: vec![],
                },
                GrammarVariant {
                    name: "AskClarify".into(),
                    fields: vec![],
                },
            ]),
        ),
    ])
}

fn weakened_grammar() -> Grammar {
    Grammar::Text { max_len: 160 }
}

#[test]
fn mock_engine_masks_tokens_during_generation() {
    let mut engine = MockEngine::new(7, "TriageReasoner");
    let outcome = falsify(
        &mut engine,
        "TriageReasoner",
        "the customer is furious",
        &real_grammar(),
        &weakened_grammar(),
        7,
    );
    assert!(
        outcome.masked,
        "litmus must hold for the Mock engine: {}",
        outcome.reason
    );
    let witness = outcome.witness.expect("a masking witness is recorded");
    assert!(
        !witness.forbidden_token.is_empty(),
        "witness names a forbidden token: {}",
        outcome.reason
    );
}

#[test]
fn falsification_fails_loudly_when_grammars_do_not_mask() {
    let mut engine = MockEngine::new(1, "TriageReasoner");
    let g = weakened_grammar();
    let outcome = falsify(&mut engine, "TriageReasoner", "x", &g, &g, 1);
    assert!(
        !outcome.masked,
        "identical grammars cannot demonstrate masking, but harness claimed they did"
    );
    assert!(
        outcome.reason.contains("LITMUS FAILED"),
        "the harness reports the failure loudly: {}",
        outcome.reason
    );
}

#[test]
fn gbnf_closes_variants_and_bounds_numbers() {
    let g = real_grammar();
    let gbnf = grammar_to_gbnf(&g);
    assert!(gbnf.contains("Draft") && gbnf.contains("Escalate") && gbnf.contains("AskClarify"));
    assert!(gbnf.contains("\"10\""), "upper bound is reachable: {gbnf}");
    assert!(
        !gbnf.contains("\"11\""),
        "out-of-range value is unreachable: {gbnf}"
    );
}

#[test]
fn json_schema_encodes_range_and_strict_variant() {
    let g = real_grammar();
    let schema = grammar_to_json_schema(&g);
    assert!(schema.contains("\"minimum\":0") && schema.contains("\"maximum\":10"));
    assert!(
        schema.contains("\"anyOf\""),
        "variant action maps to anyOf: {schema}"
    );
    assert!(
        !schema.contains("\"oneOf\""),
        "oneOf is forbidden in OpenAI strict mode: {schema}"
    );
    assert!(
        schema.contains("\"tag\":{\"const\":\"Draft\"}"),
        "each branch carries a tag discriminator: {schema}"
    );
    assert!(
        schema.contains("\"additionalProperties\":false"),
        "every object is closed: {schema}"
    );
}

#[test]
fn mock_engine_is_grammar_constrained_and_litmus_safe() {
    let engine = MockEngine::new(0, "X");
    let desc = engine.describe();
    assert!(desc.grammar_constrained, "Mock enforces the grammar");
    assert_eq!(
        desc.litmus_safe,
        Some(true),
        "Mock is the deterministic litmus oracle"
    );
}

fn directions() -> Grammar {
    Grammar::OneOf(vec![
        GrammarVariant {
            name: "North".into(),
            fields: vec![],
        },
        GrammarVariant {
            name: "South".into(),
            fields: vec![],
        },
        GrammarVariant {
            name: "East".into(),
            fields: vec![],
        },
        GrammarVariant {
            name: "West".into(),
            fields: vec![],
        },
    ])
}

fn exits_list(lo: u32, hi: u32) -> Grammar {
    Grammar::List {
        elem: Box::new(directions()),
        lo,
        hi,
    }
}

#[test]
fn mock_masks_list_cardinality_over_length_is_unreachable() {
    let mut engine = MockEngine::new(7, "DungeonMaster");
    let outcome = falsify(
        &mut engine,
        "DungeonMaster",
        "you are in a damp cellar",
        &exits_list(0, 4),
        &exits_list(0, 10),
        7,
    );
    assert!(
        outcome.masked,
        "list cardinality litmus must hold on the Mock: {}",
        outcome.reason
    );
    let witness = outcome.witness.expect("a cardinality masking witness");
    assert_eq!(
        witness.forbidden_token, "ITEM_4",
        "the witness must be the forbidden 5th element (slot 4): {}",
        outcome.reason
    );
}

#[test]
fn mock_masks_list_element_type_out_of_set_is_unreachable() {
    let weak = Grammar::List {
        elem: Box::new(Grammar::Text { max_len: 160 }),
        lo: 0,
        hi: 4,
    };
    let mut engine = MockEngine::new(3, "DungeonMaster");
    let outcome = falsify(
        &mut engine,
        "DungeonMaster",
        "you are in a damp cellar",
        &exits_list(0, 4),
        &weak,
        3,
    );
    assert!(
        outcome.masked,
        "list element-type litmus must hold on the Mock: {}",
        outcome.reason
    );
    let witness = outcome.witness.expect("an element-type masking witness");
    assert!(
        witness.forbidden_token.len() == 1
            && witness
                .forbidden_token
                .chars()
                .all(|c| c.is_ascii_lowercase()),
        "witness names an out-of-set element token: {:?}",
        witness.forbidden_token
    );
}

#[test]
fn list_gbnf_is_a_closed_length_disjunction_no_unbounded_repeat() {
    let gbnf = grammar_to_gbnf(&exits_list(0, 2));
    assert!(
        !gbnf.contains('*') && !gbnf.contains('+'),
        "no unbounded repetition in the list GBNF: {gbnf}"
    );
    assert!(gbnf.contains("\"[]\""), "empty list is reachable: {gbnf}");
    assert!(gbnf.contains("North") && gbnf.contains("West"));
}

#[test]
fn list_json_schema_bounds_item_count() {
    let schema = grammar_to_json_schema(&exits_list(0, 4));
    assert!(
        schema.contains("\"type\":\"array\""),
        "array schema: {schema}"
    );
    assert!(schema.contains("\"minItems\":0") && schema.contains("\"maxItems\":4"));
}

#[test]
fn glyph_field_is_a_quoted_json_string_in_gbnf() {
    let g = Grammar::Record(vec![
        ("narration".into(), Grammar::Text { max_len: 8 }),
        ("danger".into(), Grammar::Number { lo: 0, hi: 3 }),
    ]);
    let gbnf = grammar_to_gbnf(&g);
    assert!(
        gbnf.contains("\"\\\"\""),
        "the glyph field value is wrapped in literal JSON quotes: {gbnf}"
    );
    let bare = grammar_to_gbnf(&Grammar::Text { max_len: 8 });
    assert!(
        !bare.contains("\\\""),
        "a root free-text output is unquoted: {bare}"
    );
}

#[test]
fn mock_trace_follows_the_grammar_at_every_step() {
    // Every step's chosen token is among those the grammar permitted there.
    let mut engine = MockEngine::new(11, "TriageReasoner");
    let trace = engine.trace(&real_grammar());
    assert!(!trace.is_empty());
    for step in &trace {
        assert!(
            step.permitted.contains(&step.chosen) || step.chosen.is_empty(),
            "chosen {:?} not permitted in {:?}",
            step.chosen,
            step.permitted
        );
    }
}
