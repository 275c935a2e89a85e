//! Bounded familiars: the `permits` set is the checkable boundary.

use witchcraft::check_source;

fn check_err(src: &str) -> String {
    match check_source(src) {
        Ok(()) => panic!("expected a compile error, but the program checked clean"),
        Err(ds) => ds
            .iter()
            .map(|d| d.message.clone())
            .collect::<Vec<_>>()
            .join(" | "),
    }
}

const TYPES: &str = "\
type Action = one_of { Draft(reply: glyph), Escalate }
type Disposition = { urgency: spark in 0..10, action: Action }
oracle triage = summon \"mock-triage-v1\"
";

#[test]
fn out_of_permit_action_will_not_compile() {
    let src = format!(
        "{TYPES}
define delete() requires delete {{ speak \"gone\" }}
familiar support() permits {{ invoke triage }} {{
    delete()
}}
support()
"
    );
    let err = check_err(&src);
    assert!(err.contains("support"), "names familiar: {err}");
    assert!(err.contains("delete"), "names action: {err}");
}

#[test]
fn divine_without_invoke_permit_is_a_violation() {
    let src = format!(
        "{TYPES}
familiar support(ticket) permits {{ escalate }} {{
    divine decision: Disposition
        from (ticket)
        using triage
        with confidence >= 0.0
        fallback \"low\"
    speak decision.urgency
}}
support(\"x\")
"
    );
    let err = check_err(&src);
    assert!(err.contains("support"), "names familiar: {err}");
    assert!(err.contains("triage"), "names the oracle: {err}");
}

#[test]
fn unbounded_iteration_is_rejected() {
    let src = format!(
        "{TYPES}
familiar loopy() permits {{ }} {{
    while true {{ speak \"x\" }}
}}
"
    );
    let err = check_err(&src);
    assert!(err.contains("loopy"), "names familiar: {err}");
    assert!(err.contains("unbounded loop"), "explains the bound: {err}");
}

#[test]
fn ambient_divine_outside_familiar_needs_no_permit() {
    let src = format!(
        "{TYPES}
divine d: Disposition from (\"x\") using triage with confidence >= 0.0 fallback \"low\"
speak d.urgency
"
    );
    assert!(check_source(&src).is_ok());
}
