//! The lexical environment: `let` is immutable, `var` is not, scopes nest,
//! and a called function sees only the globals.

use witchcraft::env::{AssignError, DefineError, Env};

#[test]
fn define_then_get_returns_the_value() {
    let mut env: Env<i64> = Env::new();
    assert!(env.define("x", 1, false).is_ok());
    assert_eq!(env.get("x"), Some(&1));
    assert_eq!(env.get("y"), None);
}

#[test]
fn redefinition_in_one_scope_is_a_duplicate() {
    let mut env: Env<i64> = Env::new();
    assert!(env.define("x", 1, false).is_ok());
    assert!(matches!(env.define("x", 2, true), Err(DefineError::Duplicate)));
    assert_eq!(env.get("x"), Some(&1));
}

#[test]
fn let_is_immutable_var_is_not_in_the_environment() {
    let mut env: Env<i64> = Env::new();
    env.define("l", 1, false).ok();
    env.define("v", 1, true).ok();
    assert!(matches!(env.assign("l", 2), Err(AssignError::Immutable)));
    assert_eq!(env.get("l"), Some(&1));
    assert!(env.assign("v", 2).is_ok());
    assert_eq!(env.get("v"), Some(&2));
    assert!(matches!(env.assign("nope", 3), Err(AssignError::Undefined)));
}

#[test]
fn inner_scopes_shadow_and_assign_outer_bindings() {
    let mut env: Env<i64> = Env::new();
    env.define("x", 1, true).ok();
    env.push();
    assert!(env.assign("x", 5).is_ok());
    env.define("x", 9, false).ok();
    assert_eq!(env.get("x"), Some(&9));
    env.pop();
    assert_eq!(env.get("x"), Some(&5));
}

#[test]
fn a_called_function_sees_only_globals() {
    let mut env: Env<i64> = Env::new();
    env.define("g", 1, false).ok();
    env.push();
    env.define("local", 5, false).ok();
    let callee = env.global_only();
    assert_eq!(callee.get("g"), Some(&1));
    assert_eq!(callee.get("local"), None);
}
