//! Lowering (type-checked AST to IR): `divine` becomes a runtime `Decode`
//! plus a confidence branch, `enact` a tag `Switch`, host control flow basic
//! blocks.

use witchcraft::ir::{Function, Instr, Program, Terminator};
use witchcraft::lower_source;

const ACTION_TYPES: &str = "\
type Action = one_of {
    Draft(reply: glyph),
    Escalate,
    AskClarify(question: glyph),
}
type Disposition = { urgency: spark in 0..10, action: Action }
";

fn lower(src: &str) -> Program {
    lower_source(src).unwrap_or_else(|ds| {
        panic!(
            "expected program to lower, got: {}",
            ds.iter().map(|d| d.render()).collect::<Vec<_>>().join("; ")
        )
    })
}

fn func<'a>(p: &'a Program, name: &str) -> &'a Function {
    if p.main.name == name {
        return &p.main;
    }
    p.functions
        .iter()
        .find(|f| f.name == name)
        .unwrap_or_else(|| panic!("no function named `{}`", name))
}

fn all_instrs(f: &Function) -> Vec<&Instr> {
    f.blocks.iter().flat_map(|b| b.instrs.iter()).collect()
}

fn terminators(f: &Function) -> Vec<&Terminator> {
    f.blocks.iter().map(|b| &b.term).collect()
}

#[test]
fn host_function_has_params_and_returns_last_expression() {
    let p = lower("define add(a, b) { a + b }");
    let add = func(&p, "add");
    assert_eq!(add.params.len(), 2, "two declared parameters");
    assert!(
        all_instrs(add).iter().any(|i| matches!(
            i,
            Instr::Bin {
                op: witchcraft::ast::BinOp::Add,
                ..
            }
        )),
        "the body adds its parameters"
    );
    assert!(
        terminators(add)
            .iter()
            .any(|t| matches!(t, Terminator::Return(Some(_)))),
        "fall-through returns the last expression's value"
    );
}

#[test]
fn top_level_statements_become_main() {
    let p = lower("define add(a, b) { a + b }\nspeak add(2, 3)");
    let main = func(&p, "main");
    assert!(
        all_instrs(main)
            .iter()
            .any(|i| matches!(i, Instr::Speak { .. })),
        "the top-level speak lives in main"
    );
    assert!(
        all_instrs(main)
            .iter()
            .any(|i| matches!(i, Instr::Call { callee, .. } if callee == "add")),
        "the call to add is lowered in main"
    );
}

#[test]
fn while_loop_lowers_to_branching_blocks() {
    let p = lower("var n = 0\nwhile n < 3 { speak n n = n + 1 }");
    let main = func(&p, "main");
    assert!(
        main.blocks.len() >= 4,
        "a loop introduces header/body/exit blocks, got {}",
        main.blocks.len()
    );
    assert!(
        terminators(main)
            .iter()
            .any(|t| matches!(t, Terminator::Branch { .. })),
        "the loop condition lowers to a branch"
    );
}

#[test]
fn divine_with_threshold_emits_decode_grammar_and_discharge_branch() {
    let src = format!(
        "{ACTION_TYPES}
oracle o = summon \"m\"
divine d: Disposition from (\"t\") using o with confidence >= 0.8 fallback \"fb\"
speak d.urgency
"
    );
    let p = lower(&src);
    assert_eq!(p.grammars.len(), 1, "one divine site compiles one grammar");

    let main = func(&p, "main");
    let intent = all_instrs(main)
        .into_iter()
        .find_map(|i| match i {
            Instr::Decode { intent, .. } => Some(intent.clone()),
            _ => None,
        })
        .expect("divine lowers to a runtime Decode (inference is never resolved at lower time)");
    assert_eq!(
        intent, "m",
        "the decode carries the oracle's summoned intent"
    );

    assert!(
        terminators(main)
            .iter()
            .any(|t| matches!(t, Terminator::Branch { .. })),
        "discharge lowers to a confidence branch"
    );
    assert!(
        terminators(main)
            .iter()
            .any(|t| matches!(t, Terminator::Return(_))),
        "the fallback path returns"
    );
}

#[test]
fn undischarged_divine_emits_make_inferred_and_no_branch() {
    let src = format!(
        "{ACTION_TYPES}
oracle o = summon \"m\"
divine d: Disposition from (\"t\") using o
speak \"ok\"
"
    );
    let p = lower(&src);
    let main = func(&p, "main");
    assert!(
        all_instrs(main)
            .iter()
            .any(|i| matches!(i, Instr::MakeInferred { .. })),
        "an undischarged divine binds an inferred value"
    );
    assert!(
        all_instrs(main).iter().all(|i| !matches!(
            i,
            Instr::Bin {
                op: witchcraft::ast::BinOp::Ge,
                ..
            }
        )),
        "no confidence comparison without a threshold"
    );
}

#[test]
fn enact_lowers_to_a_tag_switch_and_interns_variants() {
    let src = format!(
        "{ACTION_TYPES}
oracle o = summon \"m\"
divine d: Disposition from (\"t\") using o with confidence >= 0.0 fallback \"fb\"
enact d.action {{
    Draft(reply) => {{ speak \"drafted\" }}
    Escalate => {{ speak \"escalated\" }}
    AskClarify(question) => {{ speak \"asked\" }}
}}
"
    );
    let p = lower(&src);
    let main = func(&p, "main");
    let switch = terminators(main)
        .into_iter()
        .find_map(|t| match t {
            Terminator::Switch { arms, .. } => Some(arms.clone()),
            _ => None,
        })
        .expect("enact lowers to a Switch on the variant tag");
    assert_eq!(switch.len(), 3, "one switch arm per enact arm");

    for v in ["Draft", "Escalate", "AskClarify"] {
        assert!(
            p.variant_names.iter().any(|n| n == v),
            "variant `{}` is interned",
            v
        );
    }
    assert!(
        all_instrs(main)
            .iter()
            .any(|i| matches!(i, Instr::VariantTag { .. })),
        "dispatch reads the variant's tag"
    );
}

#[test]
fn logical_and_short_circuits_through_blocks() {
        let p = lower("var hit = false\nlet x = false and (hit == false)\nspeak x");
    let main = func(&p, "main");
    assert!(
        terminators(main)
            .iter()
            .any(|t| matches!(t, Terminator::Branch { .. })),
        "short-circuit `and` lowers to control flow"
    );
}

#[test]
fn weakened_lowering_decodes_free_text() {
    let src = format!(
        "{ACTION_TYPES}
oracle o = summon \"m\"
divine d: Disposition from (\"t\") using o with confidence >= 0.8 fallback \"fb\"
"
    );
    let p = witchcraft::lower_source_weaken(&src, true).expect("lowers");
    assert_eq!(p.grammars.len(), 1);
    assert!(matches!(
        p.grammars[0],
        witchcraft::grammar::Grammar::Text { max_len: 16 }
    ));
    let strict = lower(&src);
    assert!(matches!(strict.grammars[0], witchcraft::grammar::Grammar::Record(_)));
}

#[test]
fn every_branch_target_is_a_block() {
    let p = lower("var n = 0\nwhile n < 3 { if n == 1 { speak n } n = n + 1 }\nspeak true and false");
    let main = func(&p, "main");
    for (i, b) in main.blocks.iter().enumerate() {
        assert_eq!(b.id as usize, i);
        match &b.term {
            Terminator::Jump(t) => assert!((*t as usize) < main.blocks.len()),
            Terminator::Branch { then_blk, else_blk, .. } => {
                assert!((*then_blk as usize) < main.blocks.len());
                assert!((*else_blk as usize) < main.blocks.len());
            }
            _ => {}
        }
    }
}

#[test]
fn familiar_lowers_to_a_function() {
    let src = format!(
        "{ACTION_TYPES}
oracle triage = summon \"mock-triage-v1\"
familiar handle(ticket) permits {{ invoke triage }} {{
    speak ticket
}}
handle(\"printer on fire\")
"
    );
    let p = lower(&src);
    let handle = func(&p, "handle");
    assert_eq!(handle.params.len(), 1);
}

#[test]
fn unsupported_constructs_are_reported() {
    let errs = witchcraft::lower_source("let xs = [1, 2]").expect_err("lists are interpreter-only");
    assert!(errs[0].message.contains("list literals are not supported"));
    let errs = witchcraft::lower_source("memory tickets { scope tenant }").expect_err("memory is interpreter-only");
    assert!(errs[0].message.contains("governed memory"));
}

#[test]
fn out_of_scope_memory_access_is_a_compile_error_on_the_native_path() {
    // Lowering runs the type checker first, so an unscoped governed read never
    // reaches the backend.
    let src = "\
memory tickets { scope tenant }
speak tickets.recent(5)
";
    let err = lower_source(src).expect_err("must not lower");
    let msg = err.iter().map(|d| d.message.clone()).collect::<String>();
    assert!(msg.contains("tickets") && msg.contains("tenant"), "{msg}");
}

#[test]
fn cross_space_embedding_comparison_is_a_compile_error_on_the_native_path() {
    let src = "\
oracle a = summon \"model-a\"
oracle b = summon \"model-b\"
let ea = a.embed(\"x\")
let eb = b.embed(\"y\")
speak similarity(ea, eb)
";
    let err = lower_source(src).expect_err("must not lower");
    let msg = err.iter().map(|d| d.message.clone()).collect::<String>();
    assert!(msg.contains("model-a") && msg.contains("model-b"), "{msg}");
}
