//! The flagship's "will not compile" contrasts, under composition.

use witchcraft::check_source;

const HEADER: &str = "\
type Action = one_of { Draft(reply: glyph), Escalate, AskClarify(question: glyph) }
type Disposition = { urgency: spark in 0..10, action: Action }
oracle triage = summon \"mock-triage-v1\"
";

fn check_err(src: &str) -> String {
    match check_source(src) {
        Ok(()) => panic!("expected a compile error, but the program checked clean"),
        Err(ds) => ds
            .iter()
            .map(|d| d.message.clone())
            .collect::<Vec<_>>()
            .join(" | "),
    }
}

#[test]
fn undischarged_divine_will_not_compile() {
    let src = format!(
        "{HEADER}
divine decision: Disposition from (\"x\") using triage
print decision.urgency
"
    );
    assert!(
        check_err(&src).to_lowercase().contains("discharge")
            || check_err(&src).contains("inferred"),
        "discharge error: {}",
        check_err(&src)
    );
}

#[test]
fn unscoped_memory_read_will_not_compile() {
    let src = "\
memory tickets { scope tenant }
print tickets.recent(5)
";
    let err = check_err(src);
    assert!(err.contains("tickets") && err.contains("tenant"), "{err}");
}

#[test]
fn cross_space_embedding_comparison_will_not_compile() {
    let src = "\
oracle a = summon \"model-a\"
oracle b = summon \"model-b\"
let ea = a.embed(\"x\")
let eb = b.embed(\"y\")
print similarity(ea, eb)
";
    let err = check_err(src);
    assert!(err.contains("model-a") && err.contains("model-b"), "{err}");
}

#[test]
fn out_of_permit_familiar_action_will_not_compile() {
    let src = format!(
        "{HEADER}
fn delete() requires delete {{ print \"gone\" }}
familiar support_triage(msg) permits {{ invoke triage }} {{
    delete()
}}
support_triage(\"x\")
"
    );
    let err = check_err(&src);
    assert!(
        err.contains("support_triage") && err.contains("delete"),
        "{err}"
    );
}
