//! Governed memory: scope is a capability, so cross-scope access will not
//! compile.

use witchcraft::check_source;

fn check_err(src: &str) -> String {
    match check_source(src) {
        Ok(()) => panic!("expected a compile error, but the program checked clean"),
        Err(ds) => ds
            .iter()
            .map(|d| d.message.clone())
            .collect::<Vec<_>>()
            .join(" | "),
    }
}

#[test]
fn declare_a_governed_memory() {
    let src = "\
memory tickets { scope tenant, retention 24 months, retrieval recency, audit required }
within tenant { tickets.write(\"hello\") }
";
    assert!(check_source(src).is_ok());
}

#[test]
fn memory_without_scope_is_rejected() {
    let src = "memory tickets { retention 24 months }";
    assert!(check_err(src).contains("must declare a `scope`"));
}

#[test]
fn out_of_scope_access_is_a_compile_error() {
    let src = "\
memory tickets { scope tenant }
tickets.write(\"leak\")
";
    let err = check_err(src);
    assert!(err.contains("tickets"), "names the memory: {err}");
    assert!(err.contains("tenant"), "names the scope: {err}");
}

#[test]
fn scope_grant_does_not_leak_past_within() {
    let src = "\
memory tickets { scope tenant }
within tenant { tickets.write(\"a\") }
print tickets.recent(1)
";
    assert!(check_err(src).contains("tickets"));
}
