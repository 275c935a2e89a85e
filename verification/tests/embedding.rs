//! Typed embeddings: an embedding carries its space in its type, so comparing
//! across spaces is a compile-time error.

use witchcraft::check_source;

fn check_err(src: &str) -> String {
    match check_source(src) {
        Ok(()) => panic!("expected a compile error, but the program checked clean"),
        Err(ds) => ds
            .iter()
            .map(|d| d.message.clone())
            .collect::<Vec<_>>()
            .join(" | "),
    }
}

#[test]
fn cross_space_similarity_is_a_compile_error() {
    let src = "\
oracle a = summon \"space-A\"
oracle b = summon \"space-B\"
let ea = a.embed(\"x\")
let eb = b.embed(\"y\")
print similarity(ea, eb)
";
    let err = check_err(src);
    assert!(err.contains("space-A"), "names space A: {err}");
    assert!(err.contains("space-B"), "names space B: {err}");
}

#[test]
fn cross_space_nearest_is_a_compile_error() {
    let src = "\
oracle a = summon \"space-A\"
oracle b = summon \"space-B\"
let q = a.embed(\"x\")
let c = b.embed(\"y\")
print nearest(q, [c], 1)
";
    let err = check_err(src);
    assert!(err.contains("space-A") && err.contains("space-B"), "{err}");
}

#[test]
fn no_implicit_bridge_between_spaces() {
    let src = "\
oracle a = summon \"A\"
oracle b = summon \"B\"
let ea = a.embed(\"x\")
let eb = b.embed(\"y\")
let same = similarity(ea, eb)
print same
";
    assert!(check_source(src).is_err());
}
