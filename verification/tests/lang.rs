//! Structural compile errors: discharge, refinement and exhaustiveness are
//! caught at check time.

use witchcraft::ast::{BinOp, Expr, Item, Stmt, StrSeg, TypeExpr};
use witchcraft::check_source;
use witchcraft::parser::parse;
use witchcraft::typeck::{build_type_table, resolve_type};

const ACTION_TYPES: &str = "\
type Action = one_of {
    Draft(reply: glyph),
    Escalate,
    AskClarify(question: glyph),
}
type Disposition = { urgency: spark in 0..10, action: Action }
";

fn check_err(src: &str) -> String {
    match check_source(src) {
        Ok(()) => panic!("expected a compile error, but the program checked clean"),
        Err(ds) => ds
            .iter()
            .map(|d| d.message.clone())
            .collect::<Vec<_>>()
            .join(" | "),
    }
}

#[test]
fn missing_type_is_a_compile_error() {
    let err = check_err("let x: Nope = 1");
    assert!(err.contains("unknown type"));
}

#[test]
fn refinement_out_of_range_is_a_compile_error() {
    let src = "type R = spark in 0..10\nlet x: R = 11";
    assert!(check_err(src).contains("outside the refinement bound"));
}

#[test]
fn undischarged_inferred_value_cannot_be_used() {
    let src = format!(
        "{ACTION_TYPES}
oracle o = summon \"m\"
divine d: Disposition from (\"t\") using o
enact d.action {{
    Draft(reply) => {{}}
    Escalate => {{}}
    AskClarify(question) => {{}}
}}
"
    );
    assert!(check_err(&src).contains("discharged"));
}

#[test]
fn non_exhaustive_enact_is_a_compile_error() {
    let src = format!(
        "{ACTION_TYPES}
oracle o = summon \"m\"
divine d: Disposition from (\"t\") using o with confidence >= 0.0 fallback \"f\"
enact d.action {{
    Draft(reply) => {{}}
    Escalate => {{}}
}}
"
    );
    assert!(check_err(&src).contains("non-exhaustive"));
}

#[test]
fn unknown_variant_in_enact_is_a_compile_error() {
    let src = format!(
        "{ACTION_TYPES}
oracle o = summon \"m\"
divine d: Disposition from (\"t\") using o with confidence >= 0.0 fallback \"f\"
enact d.action {{
    Draft(reply) => {{}}
    Escalate => {{}}
    AskClarify(question) => {{}}
    Bogus => {{}}
}}
"
    );
    assert!(check_err(&src).contains("unknown variant"));
}

#[test]
fn declared_types_resolve_to_their_structure_in_order() {
    let prog = parse(
        "type Action = one_of { Draft(reply: glyph), Escalate }
type Disposition = { urgency: spark in 0..10, action: Action, tags: list of glyph }
type Broken = { x: Missing }
",
    )
    .expect("parses");
    let table = build_type_table(&prog);
    let names: Vec<&str> = table.iter().map(|(n, _)| n.as_str()).collect();
    assert_eq!(names, vec!["Action", "Disposition"]);
    let te = match &prog.items[1] {
        Item::Type(td) => &td.ty,
        _ => panic!("a type declaration"),
    };
    let t = resolve_type(te, &table).expect("resolves");
    assert_eq!(
        t.display(),
        "{ urgency: spark in 0..10, action: one_of { Draft, Escalate }, tags: list of glyph }"
    );
    let unknown = TypeExpr::Named("Missing".to_string(), witchcraft::span::Span::new(0, 7));
    let err = resolve_type(&unknown, &table).expect_err("undeclared");
    assert!(err.message.contains("unknown type `Missing`"));
}

#[test]
fn an_empty_source_checks_and_lowers_clean() {
    assert_eq!(check_source("").map_err(|d| d.len()), Ok(()));
    assert_eq!(check_source("# only a comment\n").map_err(|d| d.len()), Ok(()));
    let p = witchcraft::lower_source("").expect("lowers");
    assert!(p.functions.is_empty());
    assert_eq!(p.main.name, "main");
}

#[test]
fn a_program_of_plain_statements_checks_clean() {
    let src = "oracle o = summon \"m\"\nlet x = 1 + 2\nvar y = \"hi\"\ny = \"there\"\nspeak x\nspeak not true\n";
    assert_eq!(check_source(src).map_err(|d| d.len()), Ok(()));
}

#[test]
fn plain_loops_and_branches_check_clean() {
    let src = "var n = 0\nwhile n < 3 {\n  n = n + 1\n  if n == 2 { speak \"two\" } else { speak n }\n}\n";
    assert_eq!(check_source(src).map_err(|d| d.len()), Ok(()));
}

#[test]
fn statements_parse_to_the_tree_their_tokens_spell() {
    let p = parse("let x: spark = 1 + 2 * 3\nvar y = 4\ny = 5\nspeak (1 + 2) * 3\n").expect("parses");
    assert_eq!(p.items.len(), 4);
    match &p.items[0] {
        Item::Stmt(Stmt::Let { name, ty: Some(TypeExpr::Named(t, _)), value, .. }) => {
            assert_eq!(name, "x");
            assert_eq!(t, "spark");
            match value {
                Expr::Binary { op: BinOp::Add, rhs, .. } => {
                    assert!(matches!(**rhs, Expr::Binary { op: BinOp::Mul, .. }));
                },
                other => panic!("expected a sum, got {:?}", other),
            }
        },
        other => panic!("expected an annotated let, got {:?}", other),
    }
    assert!(matches!(&p.items[1], Item::Stmt(Stmt::Var { name, ty: None, .. }) if name == "y"));
    assert!(matches!(&p.items[2], Item::Stmt(Stmt::Assign { name, .. }) if name == "y"));
    match &p.items[3] {
        Item::Stmt(Stmt::Speak { value: Expr::Binary { op: BinOp::Mul, lhs, .. }, .. }) => {
            assert!(matches!(**lhs, Expr::Binary { op: BinOp::Add, .. }));
        },
        other => panic!("expected a product, got {:?}", other),
    }
}

#[test]
fn a_source_that_starts_with_no_item_is_a_syntax_error() {
    let err = parse(") speak 1").expect_err("no item starts with `)`");
    assert!(err.message.contains("expected an expression"));
    assert!(check_source("speak 1\nspeak 2\n").is_ok());
    assert!(witchcraft::lower_source("speak 1\nspeak true\n").is_ok());
}

#[test]
fn an_interpolation_parses_as_an_expression() {
    let p = parse("speak \"n=${n + 1}!\"\n").expect("parses");
    match &p.items[0] {
        Item::Stmt(Stmt::Speak { value: Expr::Str(segs, _), .. }) => {
            assert_eq!(segs.len(), 3);
            assert!(matches!(&segs[0], StrSeg::Lit(t) if t == "n="));
            match &segs[1] {
                StrSeg::Interp(e) => {
                    assert!(matches!(**e, Expr::Binary { op: BinOp::Add, .. }));
                },
                other => panic!("expected an interpolation, got {:?}", other),
            }
            assert!(matches!(&segs[2], StrSeg::Lit(t) if t == "!"));
        },
        other => panic!("expected a glyph, got {:?}", other),
    }
}
