//! Load-time needs: which intents a program's `divine` sites consult, under
//! which policy, and their resolution against a manifest before the program
//! starts.

use witchcraft::error::Stage;
use witchcraft::manifest::{BoundEngine, Manifest};
use witchcraft::parser::parse;
use witchcraft::policy::{oracle_needs, resolve_engines, summon_table};

const MANIFEST: &str = r#"
[need.TriageReasoner]
engine = "local-mock"
model = "qwen2.5-3b-instruct"

[need.CloudReasoner]
engine = "frontier"
model = "some-frontier-model"

[engine.local-mock]
kind = "mock"

[engine.frontier]
kind = "anthropic"
"#;

const TYPES: &str = "\
type Action = one_of { Draft(reply: glyph), Escalate }
type Disposition = { urgency: spark in 0..10, action: Action }
";

fn manifest() -> Manifest {
    Manifest::parse(MANIFEST).expect("manifest parses")
}

#[test]
fn a_site_reads_its_oracle_through_the_latest_summon() {
    let src = format!(
        "{TYPES}oracle triage = summon \"TriageReasoner\"
divine d: Disposition from (\"x\") using triage with confidence >= 0.0 fallback \"low\"
"
    );
    let prog = parse(&src).expect("parses");
    let summons = summon_table(&prog);
    assert_eq!(summons, vec![("triage".to_string(), "TriageReasoner".to_string())]);
    let needs = oracle_needs(&prog);
    assert_eq!(needs.len(), 1);
    assert_eq!(needs[0].intent, "TriageReasoner");
    assert!(!needs[0].allow_network);
    assert!(!needs[0].allow_downgrade);
}

#[test]
fn an_unsummoned_oracle_names_its_own_intent() {
    let src = format!("{TYPES}divine d: Disposition from (\"x\") using Loose with confidence >= 0.0 fallback \"low\"\n");
    let prog = parse(&src).expect("parses");
    let needs = oracle_needs(&prog);
    assert_eq!(needs.len(), 1);
    assert_eq!(needs[0].intent, "Loose");
}

#[test]
fn grants_around_a_site_set_its_policy_and_sites_of_one_intent_merge() {
    let src = format!(
        "{TYPES}oracle cloud = summon \"CloudReasoner\"
divine a: Disposition from (\"x\") using cloud with confidence >= 0.0 fallback \"low\"
with grant permit(network), permit(unsafe_inference) {{
    divine b: Disposition from (\"y\") using cloud with confidence >= 0.0 fallback \"low\"
}}
"
    );
    let prog = parse(&src).expect("parses");
    let needs = oracle_needs(&prog);
    assert_eq!(needs.len(), 1, "both sites share one need");
    assert_eq!(needs[0].intent, "CloudReasoner");
    assert!(needs[0].allow_network);
    assert!(needs[0].allow_downgrade);
}

#[test]
fn a_definitions_requires_hold_at_its_sites() {
    let src = format!(
        "{TYPES}oracle cloud = summon \"CloudReasoner\"
define ask(t) requires permit(network) {{
    divine a: Disposition from (t) using cloud with confidence >= 0.0 fallback \"low\"
}}
"
    );
    let prog = parse(&src).expect("parses");
    let needs = oracle_needs(&prog);
    assert_eq!(needs.len(), 1);
    assert!(needs[0].allow_network);
    assert!(!needs[0].allow_downgrade);
}

#[test]
fn needs_keep_the_order_their_intents_first_appear() {
    let src = format!(
        "{TYPES}oracle a = summon \"TriageReasoner\"
oracle b = summon \"CloudReasoner\"
divine x: Disposition from (\"x\") using b with confidence >= 0.0 fallback \"low\"
divine y: Disposition from (\"y\") using a with confidence >= 0.0 fallback \"low\"
divine z: Disposition from (\"z\") using b with confidence >= 0.0 fallback \"low\"
"
    );
    let prog = parse(&src).expect("parses");
    let needs = oracle_needs(&prog);
    let intents: Vec<&str> = needs.iter().map(|n| n.intent.as_str()).collect();
    assert_eq!(intents, vec!["CloudReasoner", "TriageReasoner"]);
}

#[test]
fn program_resolves_when_the_manifest_binds_its_intent_to_the_mock() {
    let src = format!(
        "{TYPES}oracle triage = summon \"TriageReasoner\"
divine d: Disposition from (\"angry customer\") using triage with confidence >= 0.0 fallback \"low confidence\"
speak d.urgency
"
    );
    let prog = parse(&src).expect("parses");
    let needs = oracle_needs(&prog);
    let engines = resolve_engines(&manifest(), &needs, 3).expect("the mock binding resolves");
    assert_eq!(engines.len(), 1);
    assert_eq!(engines[0].0, "TriageReasoner");
    assert!(matches!(engines[0].1, BoundEngine::Mock(_)));
}

#[test]
fn program_without_network_permit_refuses_to_start() {
    let src = format!(
        "{TYPES}oracle cloud = summon \"CloudReasoner\"
divine d: Disposition from (\"angry customer\") using cloud with confidence >= 0.0 fallback \"low confidence\"
speak d.urgency
"
    );
    let prog = parse(&src).expect("parses");
    let needs = oracle_needs(&prog);
    let d = resolve_engines(&manifest(), &needs, 3).err().expect("must refuse to start");
    assert_eq!(d.stage, Stage::Runtime);
    assert!(d.message.contains("refuse to start") && d.message.contains("permit(network)"), "{}", d.message);
    assert_eq!(d.span, Some(needs[0].span));
}

#[test]
fn network_permit_without_downgrade_still_refuses_a_non_litmus_safe_engine() {
    let src = format!(
        "{TYPES}oracle cloud = summon \"CloudReasoner\"
with grant permit(network) {{
    divine d: Disposition from (\"x\") using cloud with confidence >= 0.0 fallback \"low\"
}}
"
    );
    let prog = parse(&src).expect("parses");
    let needs = oracle_needs(&prog);
    let d = resolve_engines(&manifest(), &needs, 3).err().expect("strict need refuses");
    assert!(d.message.contains("litmus"), "{}", d.message);
}

#[test]
fn downgrade_and_network_permit_bind_the_frontier_engine() {
    let src = format!(
        "{TYPES}oracle cloud = summon \"CloudReasoner\"
with grant permit(network), permit(unsafe_inference) {{
    divine d: Disposition from (\"x\") using cloud with confidence >= 0.0 fallback \"low\"
}}
"
    );
    let prog = parse(&src).expect("parses");
    let needs = oracle_needs(&prog);
    let engines = resolve_engines(&manifest(), &needs, 3).expect("downgraded need binds");
    assert!(matches!(engines[0].1, BoundEngine::Frontier(_)));
}
