//! The compiled runtime: the artifact's grammar format, the run's output
//! sink and seed, the engine bridge, and the governed-memory registry.

use witchcraft::runtime::decode::{decode_grammar, encode, Grammar, GrammarVariant};
use witchcraft::runtime::engines::Bridge;
use witchcraft::runtime::memory::Memories;
use witchcraft::runtime::sink::Sink;
use witchcraft::runtime::value::Provenance;

fn triage_grammar() -> Grammar {
    Grammar::Record(vec![
        ("urgency".into(), Grammar::Number { lo: 0, hi: 10 }),
        (
            "action".into(),
            Grammar::OneOf(vec![
                GrammarVariant {
                    name: "Draft".into(),
                    tag: 0,
                    fields: vec![("reply".into(), Grammar::Text { max_len: 16 })],
                },
                GrammarVariant {
                    name: "Escalate".into(),
                    tag: 1,
                    fields: vec![],
                },
            ]),
        ),
        (
            "exits".into(),
            Grammar::List {
                elem: Box::new(Grammar::Bool),
                lo: 0,
                hi: 4,
            },
        ),
    ])
}

#[test]
fn grammar_round_trips_through_its_encoding() {
    let g = triage_grammar();
    let bytes = encode(&g);
    assert_eq!(decode_grammar(&bytes), g);
}

#[test]
fn scalar_encodings_are_little_endian() {
    assert_eq!(encode(&Grammar::Bool), vec![1]);
    let n = encode(&Grammar::Number { lo: -1, hi: 2 });
    let mut expect = vec![0u8];
    expect.extend_from_slice(&[0xff; 8]);
    expect.extend_from_slice(&[2, 0, 0, 0, 0, 0, 0, 0]);
    assert_eq!(n, expect);
    assert_eq!(encode(&Grammar::Text { max_len: 258 }), vec![2, 2, 1, 0, 0, 0, 0, 0, 0]);
}

#[test]
fn record_and_list_encodings() {
    let g = Grammar::Record(vec![("é".into(), Grammar::Bool)]);
    // tag, field count, name length in bytes (2 for é), UTF-8 bytes, field grammar
    assert_eq!(encode(&g), vec![3, 1, 0, 0, 0, 2, 0, 0, 0, 0xc3, 0xa9, 1]);
    let l = Grammar::List {
        elem: Box::new(Grammar::Bool),
        lo: 1,
        hi: 3,
    };
    assert_eq!(encode(&l), vec![5, 1, 0, 0, 0, 3, 0, 0, 0, 1]);
    assert_eq!(decode_grammar(&encode(&l)), l);
}

#[test]
fn decoding_reads_one_grammar_and_ignores_what_follows() {
    let mut bytes = encode(&Grammar::Text { max_len: 5 });
    bytes.extend_from_slice(&[9, 9, 9]);
    assert_eq!(decode_grammar(&bytes), Grammar::Text { max_len: 5 });
}

#[test]
fn variant_tags_survive_the_round_trip() {
    let g = Grammar::OneOf(vec![GrammarVariant {
        name: "Slip".into(),
        tag: 77,
        fields: vec![],
    }]);
    match decode_grammar(&encode(&g)) {
        Grammar::OneOf(vs) => {
            assert_eq!(vs[0].tag, 77);
            assert_eq!(vs[0].name, "Slip");
        }
        other => panic!("expected a variant set, got {other:?}"),
    }
}

#[test]
fn compiled_provenance_renders_mock_constants() {
    let p = Provenance {
        oracle: "triage".into(),
        model: "m".into(),
        seed: 42,
    };
    assert_eq!(
        p.render(),
        "intent=triage model=m version=mock backend=mock seed=42 sampling=deterministic"
    );
}

#[test]
fn capture_collects_emitted_lines() {
    let mut sink = Sink::new();
    assert_eq!(sink.emit_line("to stdout"), Some("to stdout".to_string()));
    sink.begin_capture();
    assert_eq!(sink.emit_line("a"), None);
    assert_eq!(sink.emit_line("b"), None);
    assert_eq!(sink.end_capture(), "a\nb\n");
    assert_eq!(sink.end_capture(), "");
    assert_eq!(sink.emit_line("again"), Some("again".to_string()));
}

#[test]
fn seed_is_recorded_and_reseeds_the_decoder() {
    let mut sink = Sink::new();
    assert_eq!(sink.seed(), 0);
    sink.set_seed(7);
    assert_eq!(sink.seed(), 7);
    let first = sink.rng().next_u64();
    sink.set_seed(7);
    assert_eq!(sink.rng().next_u64(), first);
}

const MANIFEST: &str = "[need.Local]\nengine = \"m\"\n[need.Cloud]\nengine = \"f\"\n[engine.m]\nkind = \"mock\"\n[engine.f]\nkind = \"openai\"\n";

#[test]
fn bridge_without_manifest_serves_every_need_with_the_mock() {
    let mut b = Bridge::new();
    assert_eq!(b.resolve_needs(&vec![("Anything".to_string(), false, false)], 0), Ok(()));
}

#[test]
fn bridge_resolves_needs_and_refuses_to_start() {
    let mut b = Bridge::new();
    assert!(b.set_manifest(MANIFEST).is_ok());
    assert_eq!(b.resolve_needs(&vec![("Local".to_string(), false, false)], 3), Ok(()));
    let err = b
        .resolve_needs(
            &vec![
                ("Local".to_string(), false, false),
                ("Cloud".to_string(), false, false),
            ],
            3,
        )
        .expect_err("a network need without permit(network) refuses");
    assert!(err.contains("refuse to start") && err.contains("permit(network)"), "{err}");
    assert_eq!(
        b.resolve_needs(&vec![("Cloud".to_string(), true, true)], 3),
        Ok(())
    );
    b.clear();
    assert_eq!(b.resolve_needs(&vec![("Cloud".to_string(), false, false)], 3), Ok(()));
}

#[test]
fn bridge_keeps_its_state_on_a_bad_manifest() {
    let mut b = Bridge::new();
    assert!(b.set_manifest("[bogus]\n").is_err());
    assert_eq!(b.resolve_needs(&vec![("X".to_string(), false, false)], 0), Ok(()));
}

#[test]
fn recency_retrieval_is_newest_first() {
    let mut m: Memories<u32> = Memories::new();
    m.register("tickets", "tenant", None, false);
    m.write("tickets", 1);
    m.write("tickets", 2);
    m.write("tickets", 3);
    assert_eq!(m.query("tickets", "recent", 2), vec![3, 2]);
    assert_eq!(m.query("tickets", "recent", 10), vec![3, 2, 1]);
    assert_eq!(m.query("nowhere", "recent", 10), Vec::<u32>::new());
}

#[test]
fn expired_entries_are_not_retrieved() {
    let mut m: Memories<u32> = Memories::new();
    m.register("tickets", "tenant", Some(2), false);
    m.write("tickets", 10);
    m.advance(5);
    m.write("tickets", 20);
    assert_eq!(m.query("tickets", "recent", 5), vec![20]);
}

#[test]
fn audited_access_is_logged_and_unaudited_is_not() {
    let mut m: Memories<u32> = Memories::new();
    m.register("tickets", "tenant", None, true);
    m.register("notes", "tenant", None, false);
    m.write("tickets", 1);
    m.write("notes", 2);
    m.query("tickets", "recent", 1);
    assert_eq!(
        m.audit_log(),
        vec![
            "memory=tickets op=write scope=tenant".to_string(),
            "memory=tickets op=recent scope=tenant".to_string()
        ]
    );
    m.reset();
    assert!(m.audit_log().is_empty());
    assert_eq!(m.query("tickets", "recent", 1), Vec::<u32>::new());
}

#[test]
fn writes_at_a_saturated_clock_keep_write_order() {
    let mut m: Memories<u32> = Memories::new();
    m.register("s", "x", None, false);
    m.write("s", 1);
    m.advance(u64::MAX);
    m.write("s", 2);
    m.write("s", 3);
    // Entries 2 and 3 share the last tick: newest first, ties in write order.
    assert_eq!(m.query("s", "recent", 3), vec![2, 3, 1]);
}

#[test]
fn re_registering_a_store_empties_it() {
    let mut m: Memories<u32> = Memories::new();
    m.register("s", "x", None, false);
    m.write("s", 1);
    m.register("s", "x", None, false);
    assert_eq!(m.query("s", "recent", 5), Vec::<u32>::new());
}

#[test]
fn setting_the_seed_starts_a_fresh_run() {
    let mut sink = Sink::new();
    sink.memory().register("tickets", "tenant", None, true);
    sink.memory().write("tickets", 1);
    sink.memory().advance(3);
    assert!(!sink.memory().audit_log().is_empty());
    sink.set_seed(42);
    assert_eq!(sink.seed(), 42);
    assert!(sink.memory().audit_log().is_empty());
    assert_eq!(sink.memory().query("tickets", "recent", 5), Vec::<u64>::new());
}
