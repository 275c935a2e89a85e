//! Structural rules the checker enforces whatever the types of expressions:
//! familiars are single-pass, memories declare a scope, and a familiar
//! consults only the oracles its permits (or a grant around the site) allow.

use witchcraft::check_source;

const TYPES: &str = "\
type Action = one_of { Draft(reply: glyph), Escalate }
type Disposition = { urgency: spark in 0..10, action: Action }
oracle triage = summon \"mock-triage-v1\"
";

fn errors(src: &str) -> Vec<String> {
    match check_source(src) {
        Ok(()) => Vec::new(),
        Err(ds) => ds.into_iter().map(|d| d.message).collect(),
    }
}

#[test]
fn a_loop_nested_in_a_familiars_branch_is_rejected() {
    let src = format!(
        "{TYPES}familiar loopy(x) permits {{ }} {{
    if true {{
        while true {{ speak \"x\" }}
    }}
}}
"
    );
    let errs = errors(&src);
    assert_eq!(
        errs.iter().filter(|m| m.contains("may not contain an unbounded loop")).count(),
        1,
        "{errs:?}"
    );
}

#[test]
fn every_loop_of_a_familiar_is_reported() {
    let src = format!(
        "{TYPES}familiar loopy() permits {{ }} {{
    while true {{ speak \"a\" }}
    with grant permit(x) {{
        while false {{ speak \"b\" }}
    }}
}}
"
    );
    let errs = errors(&src);
    assert_eq!(errs.iter().filter(|m| m.contains("`loopy` may not contain")).count(), 2, "{errs:?}");
}

#[test]
fn a_loop_outside_a_familiar_is_fine() {
    let src = "var n = 0\nwhile n < 3 { n = n + 1 }\n";
    assert!(errors(src).is_empty());
}

#[test]
fn a_memory_without_scope_nested_in_a_loop_is_rejected() {
    let src = "while false {\n    memory notes { retention 1 hours }\n}\n";
    let errs = errors(src);
    assert!(errs.iter().any(|m| m == "memory `notes` must declare a `scope`"), "{errs:?}");
}

#[test]
fn a_memory_with_scope_is_accepted() {
    let src = "memory notes { scope operator, retention 1 hours }\n";
    assert!(errors(src).is_empty(), "{:?}", errors(src));
}

#[test]
fn a_grant_inside_a_familiar_can_permit_an_oracle() {
    let src = format!(
        "{TYPES}familiar support(ticket) permits {{ escalate }} {{
    with grant invoke triage {{
        divine decision: Disposition
            from (ticket)
            using triage
            with confidence >= 0.0
            fallback \"low\"
    }}
}}
"
    );
    let errs = errors(&src);
    assert!(!errs.iter().any(|m| m.contains("triage")), "{errs:?}");
}

#[test]
fn each_unpermitted_divine_of_a_familiar_is_reported() {
    let src = format!(
        "{TYPES}familiar support(ticket) permits {{ escalate }} {{
    divine a: Disposition from (ticket) using triage with confidence >= 0.0 fallback \"low\"
    if true {{
        divine b: Disposition from (ticket) using triage with confidence >= 0.0 fallback \"low\"
    }}
}}
"
    );
    let errs = errors(&src);
    assert!(errs.iter().filter(|m| m.contains("support") && m.contains("triage")).count() >= 2, "{errs:?}");
}

#[test]
fn a_call_without_the_callees_capability_is_rejected() {
    let src = "define escalate() requires permit(escalate) { speak \"e\" }\nescalate()\n";
    let errs = errors(src);
    assert!(errs.iter().any(|m| m.contains("escalate")), "{errs:?}");
}

#[test]
fn a_grant_around_the_call_provides_the_capability() {
    let src = "define escalate() requires permit(escalate) { speak \"e\" }\nwith grant permit(escalate) {\n    escalate()\n}\n";
    assert!(errors(src).is_empty(), "{:?}", errors(src));
}

#[test]
fn every_missing_capability_of_a_call_is_reported() {
    let src = "define act() requires permit(escalate), scope(tenant) { speak \"a\" }\nspeak \"${act()}\"\n";
    let errs = errors(src);
    assert_eq!(errs.len(), 2, "{errs:?}");
}

#[test]
fn a_memory_access_outside_its_scope_is_rejected_even_inside_an_interpolation() {
    let src = "memory notes { scope operator }\nspeak \"recent: ${notes.recent(1)}\"\n";
    let errs = errors(src);
    assert!(
        errs.iter().any(|m| m.contains("out-of-scope access to memory `notes`")),
        "{errs:?}"
    );
}

#[test]
fn a_memory_access_within_its_scope_is_accepted() {
    let src = "memory notes { scope operator }\nwithin operator {\n    notes.write(\"x\")\n    let r = notes.recent(1)\n}\n";
    assert!(errors(src).is_empty(), "{:?}", errors(src));
}

#[test]
fn a_definition_may_require_the_scope_it_reads() {
    let src = "memory notes { scope operator }\ndefine peek() requires scope(operator) { notes.recent(1) }\n";
    assert!(errors(src).is_empty(), "{:?}", errors(src));
}

const HEADER: &str = "\
type Action = one_of { Draft(reply: glyph), Escalate }
type Disposition = { urgency: spark in 0..10, action: Action }
oracle o = summon \"m\"
";

#[test]
fn reading_an_undischarged_value_at_top_level_is_rejected() {
    let src = format!("{HEADER}divine d: Disposition from (\"t\") using o\nspeak d.urgency\n");
    let errs = errors(&src);
    assert!(errs.iter().any(|m| m.contains("discharged")), "{errs:?}");
}

#[test]
fn enacting_an_undischarged_value_inside_a_definition_is_rejected() {
    let src = format!(
        "{HEADER}define go() {{
    divine d: Disposition from (\"t\") using o
    enact d.action {{
        Draft(reply) => {{ speak reply }}
        Escalate => {{ speak \"e\" }}
    }}
}}
"
    );
    let errs = errors(&src);
    assert!(errs.iter().any(|m| m.contains("discharged")), "{errs:?}");
}

#[test]
fn an_undischarged_value_read_in_a_nested_branch_is_rejected() {
    let src = format!(
        "{HEADER}if true {{
    divine d: Disposition from (\"t\") using o
    let u = 1
    speak \"urgency ${{d.urgency}}\"
}}
"
    );
    let errs = errors(&src);
    assert!(errs.iter().any(|m| m.contains("discharged")), "{errs:?}");
}

#[test]
fn a_discharged_value_may_be_read() {
    let src = format!(
        "{HEADER}divine d: Disposition from (\"t\") using o with confidence >= 0.5 fallback \"low\"\nspeak d.urgency\n"
    );
    let errs = errors(&src);
    assert!(errs.is_empty(), "{errs:?}");
}

#[test]
fn an_enact_missing_a_declared_variant_inside_a_loop_is_rejected() {
    let src = format!(
        "{TYPES}var n = 0
while n < 1 {{
    divine d: Disposition from (\"t\") using triage with confidence >= 0.5 fallback \"f\"
    enact d.action {{
        Draft(reply) => {{ speak reply }}
    }}
    n = n + 1
}}
"
    );
    let errs = errors(&src);
    assert!(errs.iter().any(|m| m.contains("missing variant `Escalate`")), "{errs:?}");
}

#[test]
fn an_enact_naming_an_unknown_variant_is_rejected() {
    let src = format!(
        "{TYPES}divine d: Disposition from (\"t\") using triage with confidence >= 0.5 fallback \"f\"
enact d.action {{
    Draft(reply) => {{ speak reply }}
    Escalate => {{ speak \"up\" }}
    Retry => {{ speak \"again\" }}
}}
"
    );
    let errs = errors(&src);
    assert!(errs.iter().any(|m| m.contains("unknown variant `Retry`")), "{errs:?}");
}

#[test]
fn an_exhaustive_enact_is_accepted() {
    let src = format!(
        "{TYPES}divine d: Disposition from (\"t\") using triage with confidence >= 0.5 fallback \"f\"
enact d.action {{
    Draft(reply) => {{ speak reply }}
    Escalate => {{ speak \"up\" }}
}}
"
    );
    assert_eq!(errors(&src), Vec::<String>::new());
}

#[test]
fn comparing_embeddings_of_two_models_inside_a_definition_is_rejected() {
    let src = "\
define compare() {
    oracle a = summon \"m-one\"
    oracle b = summon \"m-two\"
    let ea = a.embed(\"x\")
    speak similarity(ea, b.embed(\"y\"))
}
";
    let errs = errors(src);
    assert!(errs.iter().any(|m| m.contains("m-one") && m.contains("m-two")), "{errs:?}");
}

#[test]
fn nearest_across_models_is_rejected_and_within_one_model_accepted() {
    let cross = "\
oracle a = summon \"m-one\"
oracle b = summon \"m-two\"
let q = a.embed(\"x\")
let c = b.embed(\"y\")
speak nearest(q, [c], 1)
";
    let errs = errors(cross);
    assert!(errs.iter().any(|m| m.contains("m-one") && m.contains("m-two")), "{errs:?}");
    let same = "\
oracle a = summon \"m-one\"
let q = a.embed(\"x\")
let c = a.embed(\"y\")
speak nearest(q, [c], 1)
speak similarity(q, c)
";
    assert_eq!(errors(same), Vec::<String>::new());
}
