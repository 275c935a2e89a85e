//! The static type checker. It verifies only STRUCTURAL properties
//! (refinement bounds, variant validity, the discharge rule, `enact`
//! exhaustiveness, capabilities, memory scopes, embedding spaces, familiar
//! boundaries). A successful check is never a claim that an inferred value is
//! correct.

use vstd::prelude::*;
use crate::ast::{
    BinOp, Capability, DefineDecl, DivineStmt, EnactArm, Expr, FamiliarDecl, Item, MemoryDecl,
    Program, Stmt, StrSeg, TypeExpr, UnOp, opt_view,
};
use crate::error::{Diagnostic, Stage};
use crate::grammar::compile;
use crate::policy::{summons_arms, summons_in, summons_items, summons_of};
use crate::num::Num;
use crate::span::Span;
use crate::text::{owned, push_str, str_eq};
use crate::types::{clone_type, fields_v, type_v, variants_v, Type, TypeV, Variant};

verus! {

// ------------------------------------------------------------ diagnostics

/// The messages of a list of diagnostics.
pub open spec fn messages(ds: Seq<Diagnostic>) -> Seq<Seq<char>> {
    ds.map_values(|d: Diagnostic| d.message@)
}

/// Every diagnostic is a type error.
pub open spec fn all_type_errors(ds: Seq<Diagnostic>) -> bool {
    forall|i: int| 0 <= i < ds.len() ==> (#[trigger] ds[i]).stage == Stage::Type
}

/// `new` extends `old`: checking only ever adds diagnostics.
pub open spec fn extends(old: Seq<Diagnostic>, new: Seq<Diagnostic>) -> bool {
    old.len() <= new.len() && forall|i: int| 0 <= i < old.len() ==> new[i] == old[i]
}

pub proof fn lemma_extends_trans(a: Seq<Diagnostic>, b: Seq<Diagnostic>, c: Seq<Diagnostic>)
    requires
        extends(a, b),
        extends(b, c),
    ensures
        extends(a, c),
{
}

// ------------------------------------------------------------ declared types

/// An annotated binding that its declared type refuses: the type does not
/// resolve, or it resolves to a refined `spark` and the value is a numeric
/// literal outside the bounds.
pub open spec fn binding_refused(ty: Option<TypeExpr>, value: Expr, tbl: Seq<(Seq<char>, TypeV)>) -> bool {
    match ty {
        Some(te) => match resolved(te, tbl) {
            None => true,
            Some(TypeV::Spark { lo, hi }) => match value {
                Expr::Number(n, _) => !within_bounds(n, lo, hi),
                _ => false,
            },
            _ => false,
        },
        None => false,
    }
}

/// A statement, or a block nested in it (a loop's, a branch's or a
/// region's body), holds a binding that its declared type refuses.
pub open spec fn stmt_bounds_bad(s: Stmt, tbl: Seq<(Seq<char>, TypeV)>) -> bool
    decreases s, 1int,
{
    match s {
        Stmt::Let { ty, value, .. } => binding_refused(ty, value, tbl),
        Stmt::Var { ty, value, .. } => binding_refused(ty, value, tbl),
        Stmt::While { body, .. } => bounds_bad(body@, tbl),
        Stmt::If { then_branch, else_branch, .. } => bounds_bad(then_branch@, tbl) || match else_branch {
            Some(eb) => bounds_bad(eb@, tbl),
            None => false,
        },
        Stmt::Within { body, .. } => bounds_bad(body@, tbl),
        Stmt::Grant { body, .. } => bounds_bad(body@, tbl),
        _ => false,
    }
}

pub open spec fn bounds_bad(ss: Seq<Stmt>, tbl: Seq<(Seq<char>, TypeV)>) -> bool
    decreases ss, 0int,
{
    ss.len() > 0 && (bounds_bad(ss.drop_last(), tbl) || stmt_bounds_bad(ss.last(), tbl))
}

pub open spec fn item_bounds_bad(it: Item, tbl: Seq<(Seq<char>, TypeV)>) -> bool {
    match it {
        Item::Stmt(s) => stmt_bounds_bad(s, tbl),
        Item::Define(f) => bounds_bad(f.body@, tbl),
        Item::Familiar(fam) => bounds_bad(fam.body@, tbl),
        Item::Type(_) => false,
    }
}

/// Every annotated `let` and `var` (at the top level, or in a block of a
/// loop, branch, region, definition or familiar) names a declared or
/// built-in type, and a numeric literal bound to a refined `spark` lies
/// within its bounds.
pub open spec fn refinements_respected(p: Program) -> bool {
    forall|i: int| 0 <= i < p.items@.len() ==> !item_bounds_bad(#[trigger] p.items@[i], type_table(p.items@))
}

// ------------------------------------------------------------ clean programs

/// An expression the checker types without a diagnostic in any scope:
/// literals (glyphs without interpolation), names, and unary and binary
/// operations on such expressions.
pub open spec fn quiet_expr(e: Expr) -> bool
    decreases e,
{
    match e {
        Expr::Number(..) => true,
        Expr::Bool(..) => true,
        Expr::Str(segs, _) => forall|i: int| 0 <= i < segs@.len() ==> (#[trigger] segs@[i]) is Lit,
        Expr::Ident(..) => true,
        Expr::Unary { rhs, .. } => quiet_expr(*rhs),
        Expr::Binary { lhs, rhs, .. } => quiet_expr(*lhs) && quiet_expr(*rhs),
        _ => false,
    }
}

/// A statement the checker accepts without a diagnostic in any scope:
/// an unannotated `let`/`var`, an assignment, `speak` or an expression
/// statement of a quiet expression, a `summon`, or a loop, branch, grant or
/// region whose condition is quiet and whose blocks hold quiet statements.
pub open spec fn quiet_stmt(s: Stmt) -> bool
    decreases s, 1int,
{
    match s {
        Stmt::While { cond, body, .. } => quiet_expr(cond) && quiet_block(body@),
        Stmt::If { cond, then_branch, else_branch, .. } => quiet_expr(cond) && quiet_block(then_branch@)
            && match else_branch {
            Some(eb) => quiet_block(eb@),
            None => true,
        },
        Stmt::Grant { body, .. } => quiet_block(body@),
        Stmt::Within { body, .. } => quiet_block(body@),
        Stmt::Let { ty, value, .. } => ty is None && quiet_expr(value),
        Stmt::Var { ty, value, .. } => ty is None && quiet_expr(value),
        Stmt::Assign { value, .. } => quiet_expr(value),
        Stmt::Speak { value, .. } => quiet_expr(value),
        Stmt::Expr(e) => quiet_expr(e),
        Stmt::Summon { .. } => true,
        _ => false,
    }
}

pub open spec fn quiet_block(ss: Seq<Stmt>) -> bool
    decreases ss, 0int,
{
    ss.len() == 0 || (quiet_block(ss.drop_last()) && quiet_stmt(ss.last()))
}

pub open spec fn quiet_item(it: Item) -> bool {
    match it {
        Item::Stmt(s) => quiet_stmt(s),
        _ => false,
    }
}

/// A program of quiet statements only.
pub open spec fn quiet_program(p: Program) -> bool {
    forall|i: int| 0 <= i < p.items@.len() ==> quiet_item(#[trigger] p.items@[i])
}

// ------------------------------------------------------------ enact coverage

/// Is some variant of `vs` named `name`?
pub open spec fn has_variant(vs: Seq<Variant>, name: Seq<char>) -> bool {
    exists|i: int| 0 <= i < vs.len() && (#[trigger] vs[i]).name@ == name
}

/// Does some arm of `arms` handle the variant `name`?
pub open spec fn has_arm(arms: Seq<EnactArm>, name: Seq<char>) -> bool {
    exists|i: int| 0 <= i < arms.len() && (#[trigger] arms[i]).variant@ == name
}

pub open spec fn unknown_arm_msg(name: Seq<char>) -> Seq<char> {
    "unknown variant `"@ + name + "` in `enact`"@
}

pub open spec fn missing_variant_msg(name: Seq<char>) -> Seq<char> {
    "non-exhaustive `enact`: missing variant `"@ + name + "`"@
}

/// One message per arm (in order) that names no declared variant.
pub open spec fn unknown_arm_msgs(vs: Seq<Variant>, arms: Seq<EnactArm>) -> Seq<Seq<char>>
    decreases arms.len(),
{
    if arms.len() == 0 {
        Seq::empty()
    } else {
        unknown_arm_msgs(vs, arms.drop_last()) + if has_variant(vs, arms.last().variant@) {
            Seq::<Seq<char>>::empty()
        } else {
            seq![unknown_arm_msg(arms.last().variant@)]
        }
    }
}

/// One message per declared variant (in order) that no arm handles.
pub open spec fn missing_variant_msgs(vs: Seq<Variant>, arms: Seq<EnactArm>) -> Seq<Seq<char>>
    decreases vs.len(),
{
    if vs.len() == 0 {
        Seq::empty()
    } else {
        missing_variant_msgs(vs.drop_last(), arms) + if has_arm(arms, vs.last().name@) {
            Seq::<Seq<char>>::empty()
        } else {
            seq![missing_variant_msg(vs.last().name@)]
        }
    }
}

proof fn lemma_unknown_empty(vs: Seq<Variant>, arms: Seq<EnactArm>)
    ensures
        unknown_arm_msgs(vs, arms).len() == 0 <==> forall|i: int|
            0 <= i < arms.len() ==> has_variant(vs, (#[trigger] arms[i]).variant@),
    decreases arms.len(),
{
    if arms.len() > 0 {
        lemma_unknown_empty(vs, arms.drop_last());
        assert forall|i: int| 0 <= i < arms.len() - 1 implies arms.drop_last()[i] == arms[i] by {}
        if !has_variant(vs, arms.last().variant@) {
            assert(!has_variant(vs, arms[arms.len() - 1].variant@));
        }
    }
}

proof fn lemma_missing_empty(vs: Seq<Variant>, arms: Seq<EnactArm>)
    ensures
        missing_variant_msgs(vs, arms).len() == 0 <==> forall|i: int|
            0 <= i < vs.len() ==> has_arm(arms, (#[trigger] vs[i]).name@),
    decreases vs.len(),
{
    if vs.len() > 0 {
        lemma_missing_empty(vs.drop_last(), arms);
        assert forall|i: int| 0 <= i < vs.len() - 1 implies vs.drop_last()[i] == vs[i] by {}
        if !has_arm(arms, vs.last().name@) {
            assert(!has_arm(arms, vs[vs.len() - 1].name@));
        }
    }
}

/// An `enact` over a variant type is accepted exactly when its arms name only
/// declared variants and every declared variant has an arm.
pub proof fn lemma_enact_coverage(vs: Seq<Variant>, arms: Seq<EnactArm>)
    ensures
        (unknown_arm_msgs(vs, arms) + missing_variant_msgs(vs, arms)).len() == 0 <==> (
        (forall|i: int| 0 <= i < arms.len() ==> has_variant(vs, (#[trigger] arms[i]).variant@))
            && (forall|i: int| 0 <= i < vs.len() ==> has_arm(arms, (#[trigger] vs[i]).name@))),
{
    lemma_unknown_empty(vs, arms);
    lemma_missing_empty(vs, arms);
}

/// Checking `enact subject { arms }` in `scopes` must refuse it: the
/// subject is a path whose shape is a variant set the arms do not cover.
pub open spec fn enact_refused(subject: Expr, arms: Seq<EnactArm>, scopes: Seq<Vec<(String, Type)>>) -> bool {
    match path_root(subject) {
        Some(x) => uncovered(path_shape(subject, bound_shape(scopes, x)), arms),
        None => false,
    }
}

/// The arms of an `enact` name exactly the variants `vs` (by shape): each
/// arm a declared variant, and each declared variant some arm.
pub open spec fn arms_cover(vs: Seq<(Seq<char>, Seq<(Seq<char>, TypeV)>)>, arms: Seq<EnactArm>) -> bool {
    &&& forall|i: int|
        0 <= i < arms.len() ==> exists|j: int| 0 <= j < vs.len() && vs[j].0 == (#[trigger] arms[i]).variant@
    &&& forall|j: int| 0 <= j < vs.len() ==> has_arm(arms, (#[trigger] vs[j]).0)
}

/// An `enact` over a value of shape `t` leaves a variant unhandled or names
/// one that `t` does not have.
pub open spec fn uncovered(t: TypeV, arms: Seq<EnactArm>) -> bool {
    match t {
        TypeV::Sum(vs) => !arms_cover(vs, arms),
        _ => false,
    }
}

proof fn lemma_uncovered_reported(vs: Seq<Variant>, arms: Seq<EnactArm>)
    requires
        !arms_cover(variants_v(vs), arms),
    ensures
        (unknown_arm_msgs(vs, arms) + missing_variant_msgs(vs, arms)).len() > 0,
{
    lemma_enact_coverage(vs, arms);
    crate::types::lemma_variants_v_len(vs);
    let sv = variants_v(vs);
    if !(forall|i: int| 0 <= i < arms.len() ==> exists|j: int| 0 <= j < sv.len() && sv[j].0 == (#[trigger] arms[i]).variant@) {
        let i = choose|i: int| 0 <= i < arms.len() && !(exists|j: int| 0 <= j < sv.len() && sv[j].0 == (#[trigger] arms[i]).variant@);
        if has_variant(vs, arms[i].variant@) {
            let j = choose|j: int| 0 <= j < vs.len() && (#[trigger] vs[j]).name@ == arms[i].variant@;
            assert(sv[j].0 == vs[j].name@);
        }
    } else {
        let j = choose|j: int| 0 <= j < sv.len() && !has_arm(arms, (#[trigger] sv[j]).0);
        assert(sv[j].0 == vs[j].name@);
    }
}

fn variant_exists(vs: &Vec<Variant>, name: &String) -> (r: bool)
    ensures
        r == has_variant(vs@, name@),
{
    let n = vs.len();
    let mut i: usize = 0;
    while i < n
        invariant
            n == vs.len(),
            i <= n,
            forall|k: int| 0 <= k < i ==> vs@[k].name@ != name@,
        decreases n - i,
    {
        if vs[i].name == *name {
            return true;
        }
        i = i + 1;
    }
    false
}

fn arm_exists(arms: &Vec<EnactArm>, name: &String) -> (r: bool)
    ensures
        r == has_arm(arms@, name@),
{
    let n = arms.len();
    let mut i: usize = 0;
    while i < n
        invariant
            n == arms.len(),
            i <= n,
            forall|k: int| 0 <= k < i ==> arms@[k].variant@ != name@,
        decreases n - i,
    {
        if arms[i].variant == *name {
            return true;
        }
        i = i + 1;
    }
    false
}

fn push_diag(ds: &mut Vec<Diagnostic>, d: Diagnostic)
    ensures
        final(ds)@ == old(ds)@.push(d),
        messages(final(ds)@) == messages(old(ds)@).push(d.message@),
{
    let ghost before = ds@;
    ds.push(d);
    assert(messages(ds@) =~= messages(before).push(d.message@));
}

/// The diagnostics of an `enact` over the variants `vs`: first each arm that
/// names an unknown variant, then each declared variant without an arm.
pub fn enact_coverage(vs: &Vec<Variant>, arms: &Vec<EnactArm>, span: Span) -> (r: Vec<Diagnostic>)
    ensures
        messages(r@) == unknown_arm_msgs(vs@, arms@) + missing_variant_msgs(vs@, arms@),
        all_type_errors(r@),
{
    let mut out: Vec<Diagnostic> = Vec::new();
    let n = arms.len();
    let mut i: usize = 0;
    while i < n
        invariant
            n == arms.len(),
            i <= n,
            messages(out@) == unknown_arm_msgs(vs@, arms@.take(i as int)),
            all_type_errors(out@),
        decreases n - i,
    {
        proof {
            assert(arms@.take(i + 1).drop_last() =~= arms@.take(i as int));
        }
        if !variant_exists(vs, &arms[i].variant) {
            let mut m = owned("unknown variant `");
            push_str(&mut m, arms[i].variant.as_str());
            push_str(&mut m, "` in `enact`");
            push_diag(&mut out, Diagnostic::type_error(m, arms[i].span));
        }
        assert(messages(out@) =~= unknown_arm_msgs(vs@, arms@.take(i + 1)));
        i = i + 1;
    }
    assert(arms@.take(n as int) =~= arms@);
    let ghost unknown = messages(out@);
    let m = vs.len();
    let mut j: usize = 0;
    while j < m
        invariant
            m == vs.len(),
            j <= m,
            messages(out@) == unknown + missing_variant_msgs(vs@.take(j as int), arms@),
            unknown == unknown_arm_msgs(vs@, arms@),
            all_type_errors(out@),
        decreases m - j,
    {
        proof {
            assert(vs@.take(j + 1).drop_last() =~= vs@.take(j as int));
        }
        if !arm_exists(arms, &vs[j].name) {
            let mut msg = owned("non-exhaustive `enact`: missing variant `");
            push_str(&mut msg, vs[j].name.as_str());
            push_str(&mut msg, "`");
            push_diag(&mut out, Diagnostic::type_error(msg, span));
        }
        assert(messages(out@) =~= unknown + missing_variant_msgs(vs@.take(j + 1), arms@));
        j = j + 1;
    }
    assert(vs@.take(m as int) =~= vs@);
    out
}

// ------------------------------------------------------------ embeddings

pub open spec fn space_conflict_msg(a: Seq<char>, b: Seq<char>) -> Seq<char> {
    "cannot compare embeddings of different spaces `"@ + a + "` and `"@ + b
        + "` (no implicit cross-space bridge)"@
}

/// The error for comparing two embeddings: only when both are embeddings and
/// their spaces differ.
pub fn space_conflict(a: &Type, b: &Type, span: Span) -> (r: Option<Diagnostic>)
    ensures
        r is Some <==> (a is Embedding && b is Embedding && a->Embedding_0@ != b->Embedding_0@),
        r is Some ==> r->0.stage == Stage::Type && r->0.message@ == space_conflict_msg(
            a->Embedding_0@,
            b->Embedding_0@,
        ),
{
    match (a, b) {
        (Type::Embedding(sa), Type::Embedding(sb)) => {
            if *sa != *sb {
                let mut m = owned("cannot compare embeddings of different spaces `");
                push_str(&mut m, sa.as_str());
                push_str(&mut m, "` and `");
                push_str(&mut m, sb.as_str());
                push_str(&mut m, "` (no implicit cross-space bridge)");
                Some(Diagnostic::type_error(m, span))
            } else {
                None
            }
        },
        _ => None,
    }
}

/// A type has the shape `o` where `o` is known.
pub open spec fn shape_is(o: Option<TypeV>, t: Type) -> bool {
    match o {
        Some(v) => type_v(t) == v,
        None => true,
    }
}

/// Where a shape `o` is known, the binding `b` has it.
pub open spec fn shape_bound(o: Option<TypeV>, b: Option<Type>) -> bool {
    match o {
        Some(v) => has_shape(b, v),
        None => true,
    }
}

/// After statement `s`, the name it binds has the shape its binding gives:
/// an oracle for a summon, the value's known shape for an unannotated
/// `let` or `var`.
pub open spec fn binding_shaped(
    s: Stmt,
    after: Seq<Vec<(String, Type)>>,
    env: spec_fn(Seq<char>) -> Option<TypeV>,
    spaces: Seq<(Seq<char>, Seq<char>)>,
) -> bool {
    match s {
        Stmt::Summon { name, .. } => has_shape(scope_lookup(after, name@), TypeV::Oracle),
        Stmt::Let { name, ty, value, .. } => ty is Some || shape_bound(known_shape(value, env, spaces), scope_lookup(after, name@)),
        Stmt::Var { name, ty, value, .. } => ty is Some || shape_bound(known_shape(value, env, spaces), scope_lookup(after, name@)),
        _ => true,
    }
}

/// The space an oracle embeds into: the model of its latest summon (a
/// placeholder where none is known).
pub open spec fn oracle_space(spaces: Seq<(Seq<char>, Seq<char>)>, o: Seq<char>) -> Seq<char> {
    match mem_lookup(spaces, o) {
        Some(s) => s,
        None => "<oracle>"@,
    }
}

/// The shapes that names have where the checker stands in `scopes`.
pub open spec fn scope_env(scopes: Seq<Vec<(String, Type)>>) -> spec_fn(Seq<char>) -> Option<TypeV> {
    |n: Seq<char>| Some(bound_shape(scopes, n))
}

/// Every name that `e1` gives a shape has that shape in `e2`.
pub open spec fn env_le(e1: spec_fn(Seq<char>) -> Option<TypeV>, e2: spec_fn(Seq<char>) -> Option<TypeV>) -> bool {
    forall|n: Seq<char>| #[trigger] e1(n) is Some ==> e2(n) == e1(n)
}

/// The shape of an expression where it follows from the shapes of names
/// (`env`): a name, a field of a known value, `o.embed(..)` of a known
/// oracle, or a list literal whose first item has a known shape.
pub open spec fn known_shape(
    e: Expr,
    env: spec_fn(Seq<char>) -> Option<TypeV>,
    spaces: Seq<(Seq<char>, Seq<char>)>,
) -> Option<TypeV>
    decreases e,
{
    match e {
        Expr::Ident(x, _) => env(x@),
        Expr::Field { recv, field, .. } => match known_shape(*recv, env, spaces) {
            Some(v) => Some(crate::types::field_shape(v, field@)),
            None => None,
        },
        Expr::Method { recv, method, .. } => if method@ == "embed"@ {
            match *recv {
                Expr::Ident(o, _) => if env(o@) == Some(TypeV::Oracle) {
                    Some(TypeV::Embedding(oracle_space(spaces, o@)))
                } else {
                    None
                },
                _ => None,
            }
        } else {
            None
        },
        Expr::List { items, .. } => if items.len() > 0 {
            match known_shape(items[0], env, spaces) {
                Some(v) => if v != TypeV::Unknown {
                    Some(TypeV::List { elem: Box::new(v), lo: None, hi: None })
                } else {
                    None
                },
                None => None,
            }
        } else {
            None
        },
        _ => None,
    }
}

/// The space of an embedding shape.
pub open spec fn embedding_of(v: Option<TypeV>) -> Option<Seq<char>> {
    match v {
        Some(TypeV::Embedding(s)) => Some(s),
        _ => None,
    }
}

/// The space of the items of a list of embeddings.
pub open spec fn list_embedding_of(v: Option<TypeV>) -> Option<Seq<char>> {
    match v {
        Some(TypeV::List { elem, .. }) => match *elem {
            TypeV::Embedding(s) => Some(s),
            _ => None,
        },
        _ => None,
    }
}

/// Two known spaces that differ.
pub open spec fn spaces_differ(a: Option<Seq<char>>, b: Option<Seq<char>>) -> bool {
    match (a, b) {
        (Some(x), Some(y)) => x != y,
        _ => false,
    }
}

/// `e` compares embeddings of two different spaces: `similarity(a, b)`, or
/// `nearest(q, cands, k)` whose query and candidates differ in space.
pub open spec fn cross_space(e: Expr, env: spec_fn(Seq<char>) -> Option<TypeV>, spaces: Seq<(Seq<char>, Seq<char>)>) -> bool {
    match e {
        Expr::Call { callee, args, .. } => (callee@ == "similarity"@ && args.len() == 2 && spaces_differ(
            embedding_of(known_shape(args[0], env, spaces)),
            embedding_of(known_shape(args[1], env, spaces)),
        )) || (callee@ == "nearest"@ && args.len() == 3 && spaces_differ(
            embedding_of(known_shape(args[0], env, spaces)),
            list_embedding_of(known_shape(args[1], env, spaces)),
        )),
        _ => false,
    }
}

/// A cross-space comparison stands in `e` or in one of its subexpressions.
pub open spec fn expr_cross(e: Expr, env: spec_fn(Seq<char>) -> Option<TypeV>, spaces: Seq<(Seq<char>, Seq<char>)>) -> bool
    decreases e, 1int,
{
    cross_space(e, env, spaces) || match e {
        Expr::Field { recv, .. } => expr_cross(*recv, env, spaces),
        Expr::Str(segs, _) => segs_cross(segs@, env, spaces),
        Expr::Unary { rhs, .. } => expr_cross(*rhs, env, spaces),
        Expr::Binary { lhs, rhs, .. } => expr_cross(*lhs, env, spaces) || expr_cross(*rhs, env, spaces),
        Expr::Call { args, .. } => exprs_cross(args@, env, spaces),
        Expr::Method { recv, args, .. } => expr_cross(*recv, env, spaces) || exprs_cross(args@, env, spaces),
        Expr::Variant { fields, .. } => fields_cross(fields@, env, spaces),
        Expr::Record { fields, .. } => fields_cross(fields@, env, spaces),
        Expr::List { items, .. } => exprs_cross(items@, env, spaces),
        _ => false,
    }
}

pub open spec fn exprs_cross(es: Seq<Expr>, env: spec_fn(Seq<char>) -> Option<TypeV>, spaces: Seq<(Seq<char>, Seq<char>)>) -> bool
    decreases es, 2int,
{
    es.len() > 0 && (exprs_cross(es.drop_last(), env, spaces) || expr_cross(es.last(), env, spaces))
}

pub open spec fn fields_cross(fs: Seq<(String, Expr)>, env: spec_fn(Seq<char>) -> Option<TypeV>, spaces: Seq<(Seq<char>, Seq<char>)>) -> bool
    decreases fs, 2int,
{
    fs.len() > 0 && (fields_cross(fs.drop_last(), env, spaces) || expr_cross(fs.last().1, env, spaces))
}

pub open spec fn segs_cross(segs: Seq<StrSeg>, env: spec_fn(Seq<char>) -> Option<TypeV>, spaces: Seq<(Seq<char>, Seq<char>)>) -> bool
    decreases segs, 2int,
{
    segs.len() > 0 && (segs_cross(segs.drop_last(), env, spaces) || match segs.last() {
        StrSeg::Interp(inner) => expr_cross(*inner, env, spaces),
        StrSeg::Lit(_) => false,
    })
}

/// A cross-space comparison stands in an expression that the checker
/// types in statement `s` (an annotated binding's value excepted).
pub open spec fn stmt_cross(s: Stmt, env: spec_fn(Seq<char>) -> Option<TypeV>, spaces: Seq<(Seq<char>, Seq<char>)>) -> bool {
    match s {
        Stmt::Let { ty, value, .. } => ty is None && expr_cross(value, env, spaces),
        Stmt::Var { ty, value, .. } => ty is None && expr_cross(value, env, spaces),
        Stmt::Assign { value, .. } => expr_cross(value, env, spaces),
        Stmt::Speak { value, .. } => expr_cross(value, env, spaces),
        Stmt::While { cond, .. } => expr_cross(cond, env, spaces),
        Stmt::If { cond, .. } => expr_cross(cond, env, spaces),
        Stmt::Return { value, .. } => match value {
            Some(v) => expr_cross(v, env, spaces),
            None => false,
        },
        Stmt::Divine(d) => exprs_cross(d.inputs@, env, spaces) || match d.fallback {
            Some(f) => expr_cross(f, env, spaces),
            None => false,
        },
        Stmt::Enact { subject, .. } => expr_cross(subject, env, spaces),
        Stmt::Expr(e) => expr_cross(e, env, spaces),
        _ => false,
    }
}

proof fn lemma_known_mono(
    e: Expr,
    e1: spec_fn(Seq<char>) -> Option<TypeV>,
    e2: spec_fn(Seq<char>) -> Option<TypeV>,
    spaces: Seq<(Seq<char>, Seq<char>)>,
)
    requires
        env_le(e1, e2),
    ensures
        known_shape(e, e1, spaces) is Some ==> known_shape(e, e2, spaces) == known_shape(e, e1, spaces),
    decreases e,
{
    match e {
        Expr::Ident(x, _) => {
            assert(e1(x@) is Some ==> e2(x@) == e1(x@));
        },
        Expr::Field { recv, .. } => {
            lemma_known_mono(*recv, e1, e2, spaces);
        },
        Expr::Method { recv, .. } => {
            match *recv {
                Expr::Ident(o, _) => {
                    assert(e1(o@) is Some ==> e2(o@) == e1(o@));
                },
                _ => {},
            }
        },
        Expr::List { items, .. } => {
            if items.len() > 0 {
                lemma_known_mono(items[0], e1, e2, spaces);
            }
        },
        _ => {},
    }
}

proof fn lemma_cross_space_mono(
    e: Expr,
    e1: spec_fn(Seq<char>) -> Option<TypeV>,
    e2: spec_fn(Seq<char>) -> Option<TypeV>,
    spaces: Seq<(Seq<char>, Seq<char>)>,
)
    requires
        env_le(e1, e2),
    ensures
        cross_space(e, e1, spaces) ==> cross_space(e, e2, spaces),
{
    if let Expr::Call { args, .. } = e {
        if args.len() >= 2 {
            lemma_known_mono(args[0], e1, e2, spaces);
            lemma_known_mono(args[1], e1, e2, spaces);
        }
    }
}

proof fn lemma_expr_cross_mono(
    e: Expr,
    e1: spec_fn(Seq<char>) -> Option<TypeV>,
    e2: spec_fn(Seq<char>) -> Option<TypeV>,
    spaces: Seq<(Seq<char>, Seq<char>)>,
)
    requires
        env_le(e1, e2),
    ensures
        expr_cross(e, e1, spaces) ==> expr_cross(e, e2, spaces),
    decreases e, 1int,
{
    lemma_cross_space_mono(e, e1, e2, spaces);
    match e {
        Expr::Field { recv, .. } => lemma_expr_cross_mono(*recv, e1, e2, spaces),
        Expr::Str(segs, _) => lemma_segs_cross_mono(segs@, e1, e2, spaces),
        Expr::Unary { rhs, .. } => lemma_expr_cross_mono(*rhs, e1, e2, spaces),
        Expr::Binary { lhs, rhs, .. } => {
            lemma_expr_cross_mono(*lhs, e1, e2, spaces);
            lemma_expr_cross_mono(*rhs, e1, e2, spaces);
        },
        Expr::Call { args, .. } => lemma_exprs_cross_mono(args@, e1, e2, spaces),
        Expr::Method { recv, args, .. } => {
            lemma_expr_cross_mono(*recv, e1, e2, spaces);
            lemma_exprs_cross_mono(args@, e1, e2, spaces);
        },
        Expr::Variant { fields, .. } => lemma_fields_cross_mono(fields@, e1, e2, spaces),
        Expr::Record { fields, .. } => lemma_fields_cross_mono(fields@, e1, e2, spaces),
        Expr::List { items, .. } => lemma_exprs_cross_mono(items@, e1, e2, spaces),
        _ => {},
    }
}

proof fn lemma_exprs_cross_mono(
    es: Seq<Expr>,
    e1: spec_fn(Seq<char>) -> Option<TypeV>,
    e2: spec_fn(Seq<char>) -> Option<TypeV>,
    spaces: Seq<(Seq<char>, Seq<char>)>,
)
    requires
        env_le(e1, e2),
    ensures
        exprs_cross(es, e1, spaces) ==> exprs_cross(es, e2, spaces),
    decreases es, 2int,
{
    if es.len() > 0 {
        lemma_exprs_cross_mono(es.drop_last(), e1, e2, spaces);
        lemma_expr_cross_mono(es.last(), e1, e2, spaces);
    }
}

proof fn lemma_fields_cross_mono(
    fs: Seq<(String, Expr)>,
    e1: spec_fn(Seq<char>) -> Option<TypeV>,
    e2: spec_fn(Seq<char>) -> Option<TypeV>,
    spaces: Seq<(Seq<char>, Seq<char>)>,
)
    requires
        env_le(e1, e2),
    ensures
        fields_cross(fs, e1, spaces) ==> fields_cross(fs, e2, spaces),
    decreases fs, 2int,
{
    if fs.len() > 0 {
        lemma_fields_cross_mono(fs.drop_last(), e1, e2, spaces);
        lemma_expr_cross_mono(fs.last().1, e1, e2, spaces);
    }
}

proof fn lemma_segs_cross_mono(
    segs: Seq<StrSeg>,
    e1: spec_fn(Seq<char>) -> Option<TypeV>,
    e2: spec_fn(Seq<char>) -> Option<TypeV>,
    spaces: Seq<(Seq<char>, Seq<char>)>,
)
    requires
        env_le(e1, e2),
    ensures
        segs_cross(segs, e1, spaces) ==> segs_cross(segs, e2, spaces),
    decreases segs, 2int,
{
    if segs.len() > 0 {
        lemma_segs_cross_mono(segs.drop_last(), e1, e2, spaces);
        if let StrSeg::Interp(inner) = segs.last() {
            lemma_expr_cross_mono(*inner, e1, e2, spaces);
        }
    }
}

proof fn lemma_stmt_cross_mono(
    s: Stmt,
    e1: spec_fn(Seq<char>) -> Option<TypeV>,
    e2: spec_fn(Seq<char>) -> Option<TypeV>,
    spaces: Seq<(Seq<char>, Seq<char>)>,
)
    requires
        env_le(e1, e2),
    ensures
        stmt_cross(s, e1, spaces) ==> stmt_cross(s, e2, spaces),
{
    match s {
        Stmt::Let { value, .. } => lemma_expr_cross_mono(value, e1, e2, spaces),
        Stmt::Var { value, .. } => lemma_expr_cross_mono(value, e1, e2, spaces),
        Stmt::Assign { value, .. } => lemma_expr_cross_mono(value, e1, e2, spaces),
        Stmt::Speak { value, .. } => lemma_expr_cross_mono(value, e1, e2, spaces),
        Stmt::While { cond, .. } => lemma_expr_cross_mono(cond, e1, e2, spaces),
        Stmt::If { cond, .. } => lemma_expr_cross_mono(cond, e1, e2, spaces),
        Stmt::Return { value, .. } => {
            if let Some(v) = value {
                lemma_expr_cross_mono(v, e1, e2, spaces);
            }
        },
        Stmt::Divine(d) => {
            lemma_exprs_cross_mono(d.inputs@, e1, e2, spaces);
            if let Some(f) = d.fallback {
                lemma_expr_cross_mono(f, e1, e2, spaces);
            }
        },
        Stmt::Enact { subject, .. } => lemma_expr_cross_mono(subject, e1, e2, spaces),
        Stmt::Expr(e) => lemma_expr_cross_mono(e, e1, e2, spaces),
        _ => {},
    }
}

/// The oracle that an unannotated `let`/`var` of `o.embed(..)` embeds with.
pub open spec fn embed_recv(s: Stmt) -> Option<Seq<char>> {
    match s {
        Stmt::Let { ty, value, .. } => if ty is None { embed_of(value) } else { None },
        Stmt::Var { ty, value, .. } => if ty is None { embed_of(value) } else { None },
        _ => None,
    }
}

pub open spec fn embed_of(e: Expr) -> Option<Seq<char>> {
    match e {
        Expr::Method { recv, method, .. } => if method@ == "embed"@ {
            match *recv {
                Expr::Ident(o, _) => Some(o@),
                _ => None,
            }
        } else {
            None
        },
        _ => None,
    }
}

/// The shape of `n` at position `i` of a block where the block itself shows
/// it: the latest statement before `i` that binds `n` is a summon (an
/// oracle), or an unannotated `let`/`var` of `o.embed(..)` where `o` is an
/// oracle of the block there (an embedding in `o`'s space).
pub open spec fn block_shape(ss: Seq<Stmt>, i: int, n: Seq<char>, spaces: Seq<(Seq<char>, Seq<char>)>) -> Option<TypeV>
    decreases i,
{
    if i <= 0 {
        None
    } else if binds_name(ss[i - 1], n) {
        match ss[i - 1] {
            Stmt::Summon { .. } => Some(TypeV::Oracle),
            _ => match embed_recv(ss[i - 1]) {
                Some(o) => if block_shape(ss, i - 1, o, spaces) == Some(TypeV::Oracle) {
                    Some(TypeV::Embedding(oracle_space(spaces, o)))
                } else {
                    None
                },
                None => None,
            },
        }
    } else {
        block_shape(ss, i - 1, n, spaces)
    }
}

pub open spec fn block_env(ss: Seq<Stmt>, i: int, spaces: Seq<(Seq<char>, Seq<char>)>) -> spec_fn(Seq<char>) -> Option<TypeV> {
    |n: Seq<char>| block_shape(ss, i, n, spaces)
}

/// A block, or a block nested in it (a loop's, a branch's or a region's
/// body), compares embeddings of two spaces that the block shows apart.
pub open spec fn cross_bad(ss: Seq<Stmt>, spaces: Seq<(Seq<char>, Seq<char>)>) -> bool
    decreases ss, 3int,
{
    (exists|j: int| 0 <= j < ss.len() && #[trigger] stmt_cross(ss[j], block_env(ss, j, spaces), spaces))
        || cross_nested(ss, spaces)
}

pub open spec fn cross_nested(ss: Seq<Stmt>, spaces: Seq<(Seq<char>, Seq<char>)>) -> bool
    decreases ss, 2int,
{
    ss.len() > 0 && (cross_nested(ss.drop_last(), spaces) || stmt_cross_nested(ss.last(), spaces))
}

pub open spec fn stmt_cross_nested(s: Stmt, spaces: Seq<(Seq<char>, Seq<char>)>) -> bool
    decreases s, 1int,
{
    match s {
        Stmt::While { body, .. } => cross_bad(body@, spaces),
        Stmt::If { then_branch, else_branch, .. } => cross_bad(then_branch@, spaces) || match else_branch {
            Some(eb) => cross_bad(eb@, spaces),
            None => false,
        },
        Stmt::Within { body, .. } => cross_bad(body@, spaces),
        Stmt::Grant { body, .. } => cross_bad(body@, spaces),
        _ => false,
    }
}

/// The top-level counterpart of `block_shape`, over a program's items.
pub open spec fn top_shape(items: Seq<Item>, i: int, n: Seq<char>, spaces: Seq<(Seq<char>, Seq<char>)>) -> Option<TypeV>
    decreases i,
{
    if i <= 0 {
        None
    } else if item_binds(items[i - 1], n) {
        match items[i - 1] {
            Item::Stmt(Stmt::Summon { .. }) => Some(TypeV::Oracle),
            Item::Stmt(st) => match embed_recv(st) {
                Some(o) => if top_shape(items, i - 1, o, spaces) == Some(TypeV::Oracle) {
                    Some(TypeV::Embedding(oracle_space(spaces, o)))
                } else {
                    None
                },
                None => None,
            },
            _ => None,
        }
    } else {
        top_shape(items, i - 1, n, spaces)
    }
}

pub open spec fn top_env(items: Seq<Item>, i: int, spaces: Seq<(Seq<char>, Seq<char>)>) -> spec_fn(Seq<char>) -> Option<TypeV> {
    |n: Seq<char>| top_shape(items, i, n, spaces)
}

pub open spec fn top_cross(items: Seq<Item>, j: int, spaces: Seq<(Seq<char>, Seq<char>)>) -> bool {
    match items[j] {
        Item::Stmt(st) => stmt_cross(st, top_env(items, j, spaces), spaces),
        _ => false,
    }
}

pub open spec fn item_cross_nested(it: Item, spaces: Seq<(Seq<char>, Seq<char>)>) -> bool {
    match it {
        Item::Stmt(st) => stmt_cross_nested(st, spaces),
        Item::Define(f) => cross_bad(f.body@, spaces),
        Item::Familiar(fam) => cross_bad(fam.body@, spaces),
        Item::Type(_) => false,
    }
}

/// Embeddings of different spaces are never compared: no `similarity(a, b)`
/// and no `nearest(q, cands, k)` stands (at the top level, or in a block of
/// a loop, branch, region, definition or familiar) where `a` and `b`, or `q`
/// and the candidates, are `o.embed(..)` values, or names bound to them in
/// the same block, of oracles summoned from different models.
pub open spec fn embeddings_same_space(p: Program) -> bool {
    let spaces = summons_items(p.items@);
    &&& forall|j: int| 0 <= j < p.items.len() ==> !#[trigger] top_cross(p.items@, j, spaces)
    &&& forall|i: int| 0 <= i < p.items.len() ==> !item_cross_nested(#[trigger] p.items@[i], spaces)
}

// ------------------------------------------------------------ capabilities

pub open spec fn cap_error_msg(fam: Option<Seq<char>>, op: Seq<char>, cap: Seq<char>) -> Seq<char> {
    match fam {
        Some(f) => "permit violation: familiar `"@ + f + "` performs `"@ + op + "`, which requires `"@
            + cap + "` — not in its `permits`"@,
        None => "`"@ + op + "` requires capability `"@ + cap
            + "`, which is not granted in this context"@,
    }
}

/// Phrases a missing-capability error, naming the enclosing familiar (a
/// permit violation) when there is one.
pub fn cap_error(fam: &Option<String>, op: &str, cap: &Capability) -> (r: String)
    ensures
        r@ == cap_error_msg(opt_view(*fam), op@, cap.spec_display()),
{
    let shown = cap.display();
    match fam {
        Some(f) => {
            let mut m = owned("permit violation: familiar `");
            push_str(&mut m, f.as_str());
            push_str(&mut m, "` performs `");
            push_str(&mut m, op);
            push_str(&mut m, "`, which requires `");
            push_str(&mut m, shown.as_str());
            push_str(&mut m, "` — not in its `permits`");
            m
        },
        None => {
            let mut m = owned("`");
            push_str(&mut m, op);
            push_str(&mut m, "` requires capability `");
            push_str(&mut m, shown.as_str());
            push_str(&mut m, "`, which is not granted in this context");
            m
        },
    }
}

/// Is a capability with this identity in `caps`?
pub open spec fn granted(caps: Seq<Capability>, cap: Capability) -> bool {
    exists|i: int| 0 <= i < caps.len() && (#[trigger] caps[i]).spec_same(&cap)
}

pub fn cap_granted(caps: &Vec<Capability>, cap: &Capability) -> (r: bool)
    ensures
        r == granted(caps@, *cap),
{
    let n = caps.len();
    let mut i: usize = 0;
    while i < n
        invariant
            n == caps.len(),
            i <= n,
            forall|k: int| 0 <= k < i ==> !caps@[k].spec_same(cap),
        decreases n - i,
    {
        if caps[i].same(cap) {
            return true;
        }
        i = i + 1;
    }
    false
}

/// Is `scope(<scope>)` among the granted capabilities?
pub open spec fn scope_granted(caps: Seq<Capability>, scope: Seq<char>) -> bool {
    exists|i: int|
        0 <= i < caps.len() && (#[trigger] caps[i]).kind@ == "scope"@ && opt_view(caps[i].param)
            == Some(scope)
}

pub open spec fn memory_scope_msg(mem: Seq<char>, scope: Seq<char>) -> Seq<char> {
    "out-of-scope access to memory `"@ + mem + "`: `scope("@ + scope + ")` not granted (enter `within "@
        + scope + "`)"@
}

pub open spec fn missing_scope_msg(mem: Seq<char>) -> Seq<char> {
    "memory `"@ + mem + "` must declare a `scope`"@
}

/// A memory declaration without a `scope` is rejected.
pub fn memory_scope_error(m: &MemoryDecl) -> (r: Option<Diagnostic>)
    ensures
        r is Some <==> m.scope is None,
        r is Some ==> r->0.stage == Stage::Type && r->0.message@ == missing_scope_msg(m.name@),
{
    if m.scope.is_none() {
        let mut msg = owned("memory `");
        push_str(&mut msg, m.name.as_str());
        push_str(&mut msg, "` must declare a `scope`");
        Some(Diagnostic::type_error(msg, m.span))
    } else {
        None
    }
}

// ------------------------------------------------------------ familiars

pub open spec fn unbounded_loop_msg(fam: Seq<char>) -> Seq<char> {
    "familiar `"@ + fam
        + "` may not contain an unbounded loop (it is single-pass in v0.1; no declared finite stopping condition)"@
}

/// The positions of the `while` loops a familiar body contains, looking into
/// branches, regions and `enact` arms.
pub open spec fn loop_spans(ss: Seq<Stmt>) -> Seq<Span>
    decreases ss, 2int,
{
    if ss.len() == 0 {
        Seq::empty()
    } else {
        loop_spans(ss.drop_last()) + stmt_loop_spans(ss.last())
    }
}

pub open spec fn stmt_loop_spans(s: Stmt) -> Seq<Span>
    decreases s, 1int,
{
    match s {
        Stmt::While { span, .. } => seq![span],
        Stmt::If { then_branch, else_branch, .. } => loop_spans(then_branch@) + match else_branch {
            Some(eb) => loop_spans(eb@),
            None => Seq::empty(),
        },
        Stmt::Within { body, .. } => loop_spans(body@),
        Stmt::Grant { body, .. } => loop_spans(body@),
        Stmt::Enact { arms, .. } => arms_loop_spans(arms@),
        _ => Seq::empty(),
    }
}

pub open spec fn arms_loop_spans(arms: Seq<EnactArm>) -> Seq<Span>
    decreases arms, 2int,
{
    if arms.len() == 0 {
        Seq::empty()
    } else {
        arms_loop_spans(arms.drop_last()) + loop_spans(arms.last().body@)
    }
}

/// How many memories are declared without a `scope` in `ss`, looking into
/// loops, branches and regions (`enact` arms are checked only when the
/// subject's type is known, so they are not counted).
pub open spec fn unscoped_memories(ss: Seq<Stmt>) -> nat
    decreases ss, 2int,
{
    if ss.len() == 0 {
        0
    } else {
        unscoped_memories(ss.drop_last()) + stmt_unscoped(ss.last())
    }
}

pub open spec fn stmt_unscoped(s: Stmt) -> nat
    decreases s, 1int,
{
    match s {
        Stmt::MemoryDecl(m) => if m.scope is None { 1 } else { 0 },
        Stmt::While { body, .. } => unscoped_memories(body@),
        Stmt::If { then_branch, else_branch, .. } => unscoped_memories(then_branch@) + match else_branch {
            Some(eb) => unscoped_memories(eb@),
            None => 0,
        },
        Stmt::Within { body, .. } => unscoped_memories(body@),
        Stmt::Grant { body, .. } => unscoped_memories(body@),
        _ => 0,
    }
}

/// A capability's identity: its kind and its parameter.
pub open spec fn cap_id(c: Capability) -> (Seq<char>, Option<Seq<char>>) {
    (c.kind@, opt_view(c.param))
}

pub open spec fn cap_ids(cs: Seq<Capability>) -> Seq<(Seq<char>, Option<Seq<char>>)> {
    cs.map_values(|c: Capability| cap_id(c))
}

/// The capability `invoke <oracle>`.
pub open spec fn invoke_id(oracle: Seq<char>) -> (Seq<char>, Option<Seq<char>>) {
    ("invoke"@, Some(oracle))
}

proof fn lemma_granted_ids(caps: Seq<Capability>, c: Capability)
    ensures
        granted(caps, c) <==> cap_ids(caps).contains(cap_id(c)),
{
    if granted(caps, c) {
        let i = choose|i: int| 0 <= i < caps.len() && (#[trigger] caps[i]).spec_same(&c);
        assert(cap_ids(caps)[i] == cap_id(c));
    }
    if cap_ids(caps).contains(cap_id(c)) {
        let i = choose|i: int| 0 <= i < cap_ids(caps).len() && cap_ids(caps)[i] == cap_id(c);
        assert(caps[i].spec_same(&c));
    }
}

proof fn lemma_scope_granted_ids(caps: Seq<Capability>, scope: Seq<char>)
    ensures
        scope_granted(caps, scope) <==> cap_ids(caps).contains(("scope"@, Some(scope))),
{
    if scope_granted(caps, scope) {
        let i = choose|i: int|
            0 <= i < caps.len() && (#[trigger] caps[i]).kind@ == "scope"@ && opt_view(caps[i].param) == Some(scope);
        assert(cap_ids(caps)[i] == ("scope"@, Some(scope)));
    }
    if cap_ids(caps).contains(("scope"@, Some(scope))) {
        let i = choose|i: int| 0 <= i < cap_ids(caps).len() && cap_ids(caps)[i] == ("scope"@, Some(scope));
        assert(caps[i].kind@ == "scope"@ && opt_view(caps[i].param) == Some(scope));
    }
}

/// How many `divine` sites in `ss` use an oracle without `invoke <oracle>`
/// among the capabilities `ids` and those the enclosing regions grant
/// (looking into loops, branches and regions, not `enact` arms).
pub open spec fn unpermitted_divines(ss: Seq<Stmt>, ids: Seq<(Seq<char>, Option<Seq<char>>)>) -> nat
    decreases ss, 2int,
{
    if ss.len() == 0 {
        0
    } else {
        unpermitted_divines(ss.drop_last(), ids) + stmt_unpermitted(ss.last(), ids)
    }
}

pub open spec fn stmt_unpermitted(s: Stmt, ids: Seq<(Seq<char>, Option<Seq<char>>)>) -> nat
    decreases s, 1int,
{
    match s {
        Stmt::Divine(d) => if ids.contains(invoke_id(d.oracle@)) { 0 } else { 1 },
        Stmt::While { body, .. } => unpermitted_divines(body@, ids),
        Stmt::If { then_branch, else_branch, .. } => unpermitted_divines(then_branch@, ids) + match else_branch {
            Some(eb) => unpermitted_divines(eb@, ids),
            None => 0,
        },
        Stmt::Within { scope, body, .. } => unpermitted_divines(body@, ids.push(("scope"@, Some(scope@)))),
        Stmt::Grant { caps, body, .. } => unpermitted_divines(body@, ids + cap_ids(caps@)),
        _ => 0,
    }
}

/// The divine sites of a familiar that its permits do not cover.
pub open spec fn item_unpermitted(it: Item) -> nat {
    match it {
        Item::Familiar(fam) => unpermitted_divines(fam.body@, cap_ids(fam.permits@)),
        _ => 0,
    }
}

pub open spec fn permit_errors(items: Seq<Item>) -> nat
    decreases items.len(),
{
    if items.len() == 0 {
        0
    } else {
        permit_errors(items.drop_last()) + item_unpermitted(items.last())
    }
}

/// Every oracle a familiar consults is among its permits (`invoke <oracle>`),
/// or granted by a region around the `divine`.
pub open spec fn familiars_invoke_permitted(p: Program) -> bool {
    forall|i: int| 0 <= i < p.items.len() ==> item_unpermitted(#[trigger] p.items@[i]) == 0
}

proof fn lemma_no_permit_errors(items: Seq<Item>)
    requires
        permit_errors(items) == 0,
    ensures
        forall|i: int| 0 <= i < items.len() ==> item_unpermitted(#[trigger] items[i]) == 0,
    decreases items.len(),
{
    if items.len() > 0 {
        lemma_no_permit_errors(items.drop_last());
        assert forall|i: int| 0 <= i < items.len() implies item_unpermitted(#[trigger] items[i]) == 0 by {
            if i < items.len() - 1 {
                assert(items[i] == items.drop_last()[i]);
            }
        }
    }
}

// ------------------------------------------------------------ bindings

/// The latest binding of `name` in one scope.
pub open spec fn binding_in(scope: Seq<(String, Type)>, name: Seq<char>) -> Option<Type>
    decreases scope.len(),
{
    if scope.len() == 0 {
        None
    } else if scope.last().0@ == name {
        Some(scope.last().1)
    } else {
        binding_in(scope.drop_last(), name)
    }
}

/// The type of the nearest binding of `name`, innermost scope first.
pub open spec fn scope_lookup(scopes: Seq<Vec<(String, Type)>>, name: Seq<char>) -> Option<Type>
    decreases scopes.len(),
{
    if scopes.len() == 0 {
        None
    } else {
        match binding_in(scopes.last()@, name) {
            Some(t) => Some(t),
            None => scope_lookup(scopes.drop_last(), name),
        }
    }
}

/// The name at the root of a path `x.f.g`, if the expression is one.
pub open spec fn path_root(e: Expr) -> Option<Seq<char>>
    decreases e,
{
    match e {
        Expr::Ident(x, _) => Some(x@),
        Expr::Field { recv, .. } => path_root(*recv),
        _ => None,
    }
}

/// The shape of a path whose root has the shape `root`.
pub open spec fn path_shape(e: Expr, root: TypeV) -> TypeV
    decreases e,
{
    match e {
        Expr::Field { recv, field, .. } => crate::types::field_shape(path_shape(*recv, root), field@),
        _ => root,
    }
}

/// The shape of the nearest binding of `n` (unknown when `n` is unbound).
pub open spec fn bound_shape(scopes: Seq<Vec<(String, Type)>>, n: Seq<char>) -> TypeV {
    match scope_lookup(scopes, n) {
        Some(t) => type_v(t),
        None => TypeV::Unknown,
    }
}

/// The name a statement binds in the scope it stands in.
pub open spec fn binds_name(s: Stmt, n: Seq<char>) -> bool {
    match s {
        Stmt::Let { name, .. } => name@ == n,
        Stmt::Var { name, .. } => name@ == n,
        Stmt::Summon { name, .. } => name@ == n,
        Stmt::Divine(d) => d.name@ == n,
        _ => false,
    }
}

/// A binding of an inferred (undischarged) value.
pub open spec fn is_inferred(t: Option<Type>) -> bool {
    t matches Some(x) && x is Inferred
}

proof fn lemma_define_lookup(
    old_sc: Seq<Vec<(String, Type)>>,
    new_sc: Seq<Vec<(String, Type)>>,
    name: Seq<char>,
    ty: Type,
)
    requires
        old_sc.len() > 0,
        new_sc.len() == old_sc.len(),
        new_sc.drop_last() == old_sc.drop_last(),
        new_sc.last()@.drop_last() == old_sc.last()@,
        new_sc.last()@.len() == old_sc.last()@.len() + 1,
        new_sc.last()@.last().0@ == name,
        new_sc.last()@.last().1 == ty,
    ensures
        scope_lookup(new_sc, name) == Some(ty),
        forall|n: Seq<char>| n != name ==> #[trigger] scope_lookup(new_sc, n) == scope_lookup(old_sc, n),
{
    assert forall|n: Seq<char>| n != name implies #[trigger] scope_lookup(new_sc, n) == scope_lookup(old_sc, n) by {
        assert(binding_in(new_sc.last()@, n) == binding_in(old_sc.last()@, n));
    }
}

/// Does `e` read a field of the value named `n` (`n.f`), anywhere in it?
pub open spec fn reads_field(e: Expr, n: Seq<char>) -> bool
    decreases e, 1int,
{
    match e {
        Expr::Field { recv, .. } => (match *recv {
            Expr::Ident(x, _) => x@ == n,
            _ => false,
        }) || reads_field(*recv, n),
        Expr::Str(segs, _) => segs_read(segs@, n),
        Expr::Unary { rhs, .. } => reads_field(*rhs, n),
        Expr::Binary { lhs, rhs, .. } => reads_field(*lhs, n) || reads_field(*rhs, n),
        Expr::Call { args, .. } => exprs_read(args@, n),
        Expr::Method { recv, args, .. } => reads_field(*recv, n) || exprs_read(args@, n),
        Expr::Variant { fields, .. } => fields_read(fields@, n),
        Expr::Record { fields, .. } => fields_read(fields@, n),
        Expr::List { items, .. } => exprs_read(items@, n),
        _ => false,
    }
}

pub open spec fn exprs_read(es: Seq<Expr>, n: Seq<char>) -> bool
    decreases es, 2int,
{
    es.len() > 0 && (exprs_read(es.drop_last(), n) || reads_field(es.last(), n))
}

pub open spec fn fields_read(fs: Seq<(String, Expr)>, n: Seq<char>) -> bool
    decreases fs, 2int,
{
    fs.len() > 0 && (fields_read(fs.drop_last(), n) || reads_field(fs.last().1, n))
}

pub open spec fn segs_read(segs: Seq<StrSeg>, n: Seq<char>) -> bool
    decreases segs, 2int,
{
    segs.len() > 0 && (segs_read(segs.drop_last(), n) || match segs.last() {
        StrSeg::Interp(inner) => reads_field(*inner, n),
        StrSeg::Lit(_) => false,
    })
}

/// Does a statement use the value named `n` authoritatively where the
/// checker infers it: a field read in one of its expressions, or `enact n`?
pub open spec fn stmt_reads(s: Stmt, n: Seq<char>) -> bool {
    match s {
        Stmt::Let { ty, value, .. } => ty is None && reads_field(value, n),
        Stmt::Var { ty, value, .. } => ty is None && reads_field(value, n),
        Stmt::Assign { value, .. } => reads_field(value, n),
        Stmt::Speak { value, .. } => reads_field(value, n),
        Stmt::While { cond, .. } => reads_field(cond, n),
        Stmt::If { cond, .. } => reads_field(cond, n),
        Stmt::Return { value, .. } => match value {
            Some(v) => reads_field(v, n),
            None => false,
        },
        Stmt::Divine(d) => exprs_read(d.inputs@, n) || match d.fallback {
            Some(f) => reads_field(f, n),
            None => false,
        },
        Stmt::Enact { subject, .. } => reads_field(subject, n) || match subject {
            Expr::Ident(x, _) => x@ == n,
            _ => false,
        },
        Stmt::Expr(e) => reads_field(e, n),
        _ => false,
    }
}

/// A `divine` of `n` without a discharge clause (`with confidence`).
pub open spec fn undischarged(s: Stmt, n: Seq<char>) -> bool {
    match s {
        Stmt::Divine(d) => d.name@ == n && d.threshold is None,
        _ => false,
    }
}

/// At position `i` of a block, `n` names an undischarged inference: a
/// `divine` of `n` without a discharge clause stands before `i`, and no
/// statement since binds `n` again.
pub open spec fn live_inferred(ss: Seq<Stmt>, i: int, n: Seq<char>) -> bool {
    exists|k: int|
        0 <= k < i && #[trigger] undischarged(ss[k], n) && forall|m: int| k < m < i ==> !binds_name(#[trigger] ss[m], n)
}

/// The statement at `j` uses an undischarged inference authoritatively.
pub open spec fn undischarged_use(ss: Seq<Stmt>, j: int) -> bool {
    exists|n: Seq<char>| #[trigger] live_inferred(ss, j, n) && stmt_reads(ss[j], n)
}

/// A block, or a block nested in it (a loop's, a branch's or a region's
/// body), uses an undischarged inference authoritatively.
pub open spec fn block_bad(ss: Seq<Stmt>) -> bool
    decreases ss, 3int,
{
    (exists|j: int| 0 <= j < ss.len() && #[trigger] undischarged_use(ss, j)) || nested_bad(ss)
}

pub open spec fn nested_bad(ss: Seq<Stmt>) -> bool
    decreases ss, 2int,
{
    ss.len() > 0 && (nested_bad(ss.drop_last()) || stmt_nested_bad(ss.last()))
}

pub open spec fn stmt_nested_bad(s: Stmt) -> bool
    decreases s, 1int,
{
    match s {
        Stmt::While { body, .. } => block_bad(body@),
        Stmt::If { then_branch, else_branch, .. } => block_bad(then_branch@) || match else_branch {
            Some(eb) => block_bad(eb@),
            None => false,
        },
        Stmt::Within { body, .. } => block_bad(body@),
        Stmt::Grant { body, .. } => block_bad(body@),
        _ => false,
    }
}

proof fn lemma_live_step(ss: Seq<Stmt>, i: int, n: Seq<char>)
    requires
        0 <= i < ss.len(),
        live_inferred(ss, i + 1, n),
    ensures
        (live_inferred(ss, i, n) && !binds_name(ss[i], n)) || undischarged(ss[i], n),
{
    let k = choose|k: int|
        0 <= k < i + 1 && #[trigger] undischarged(ss[k], n) && forall|m: int| k < m < i + 1 ==> !binds_name(#[trigger] ss[m], n);
    if k < i {
        assert(!binds_name(ss[i], n));
        assert(live_inferred(ss, i, n));
    }
}

/// The top-level statements of a program share one scope; these helpers
/// read a top-level item as a statement of it.
pub open spec fn item_binds(it: Item, n: Seq<char>) -> bool {
    match it {
        Item::Stmt(s) => binds_name(s, n),
        _ => false,
    }
}

pub open spec fn item_undischarged(it: Item, n: Seq<char>) -> bool {
    match it {
        Item::Stmt(s) => undischarged(s, n),
        _ => false,
    }
}

pub open spec fn item_reads(it: Item, n: Seq<char>) -> bool {
    match it {
        Item::Stmt(s) => stmt_reads(s, n),
        _ => false,
    }
}

pub open spec fn top_live(items: Seq<Item>, i: int, n: Seq<char>) -> bool {
    exists|k: int|
        0 <= k < i && #[trigger] item_undischarged(items[k], n) && forall|m: int|
            k < m < i ==> !item_binds(#[trigger] items[m], n)
}

pub open spec fn top_use(items: Seq<Item>, j: int) -> bool {
    exists|n: Seq<char>| #[trigger] top_live(items, j, n) && item_reads(items[j], n)
}

pub open spec fn item_nested_bad(it: Item) -> bool {
    match it {
        Item::Stmt(s) => stmt_nested_bad(s),
        Item::Define(f) => block_bad(f.body@),
        Item::Familiar(fam) => block_bad(fam.body@),
        Item::Type(_) => false,
    }
}

/// An inferred value is never used authoritatively before it is
/// discharged: no field of it is read, and it is not `enact`ed, while a
/// `divine` without `with confidence` binds it (in the program's top-level
/// statements, or in any block of loops, branches, regions, definitions
/// and familiars).
pub open spec fn discharge_respected(p: Program) -> bool {
    &&& forall|j: int| 0 <= j < p.items.len() ==> !#[trigger] top_use(p.items@, j)
    &&& forall|i: int| 0 <= i < p.items.len() ==> !item_nested_bad(#[trigger] p.items@[i])
}

// ------------------------------------------------------------ enact coverage

/// `s` is a `divine` of `n` with a discharge clause.
pub open spec fn discharges(s: Stmt, n: Seq<char>) -> bool {
    match s {
        Stmt::Divine(d) => d.name@ == n && d.threshold is Some,
        _ => false,
    }
}

/// The shape a `divine` gives its name (unknown for any other statement).
pub open spec fn divine_shape(s: Stmt, tbl: Seq<(Seq<char>, TypeV)>) -> TypeV {
    match s {
        Stmt::Divine(d) => resolved_or_unknown(d.out_ty, tbl),
        _ => TypeV::Unknown,
    }
}

/// At position `i` of a block, the statement at `k` is a discharged
/// `divine` of `n`, and no statement since binds `n` again.
pub open spec fn discharged_at(ss: Seq<Stmt>, i: int, n: Seq<char>, k: int) -> bool {
    &&& 0 <= k < i
    &&& discharges(ss[k], n)
    &&& forall|m: int| k < m < i ==> !binds_name(#[trigger] ss[m], n)
}

/// The `enact` at `j` of a block dispatches on a path rooted at a
/// discharged `divine` of the same block, and the path's shape is a variant
/// set that the arms do not cover exactly.
pub open spec fn enact_unmatched(ss: Seq<Stmt>, j: int, tbl: Seq<(Seq<char>, TypeV)>) -> bool {
    match ss[j] {
        Stmt::Enact { subject, arms, .. } => match path_root(subject) {
            Some(x) => exists|k: int|
                #[trigger] discharged_at(ss, j, x, k) && uncovered(path_shape(subject, divine_shape(ss[k], tbl)), arms@),
            None => false,
        },
        _ => false,
    }
}

/// A block, or a block nested in it (a loop's, a branch's or a region's
/// body), holds an `enact` whose arms miss or invent a variant.
pub open spec fn enact_bad(ss: Seq<Stmt>, tbl: Seq<(Seq<char>, TypeV)>) -> bool
    decreases ss, 3int,
{
    (exists|j: int| 0 <= j < ss.len() && #[trigger] enact_unmatched(ss, j, tbl)) || enact_nested(ss, tbl)
}

pub open spec fn enact_nested(ss: Seq<Stmt>, tbl: Seq<(Seq<char>, TypeV)>) -> bool
    decreases ss, 2int,
{
    ss.len() > 0 && (enact_nested(ss.drop_last(), tbl) || stmt_enact_nested(ss.last(), tbl))
}

pub open spec fn stmt_enact_nested(s: Stmt, tbl: Seq<(Seq<char>, TypeV)>) -> bool
    decreases s, 1int,
{
    match s {
        Stmt::While { body, .. } => enact_bad(body@, tbl),
        Stmt::If { then_branch, else_branch, .. } => enact_bad(then_branch@, tbl) || match else_branch {
            Some(eb) => enact_bad(eb@, tbl),
            None => false,
        },
        Stmt::Within { body, .. } => enact_bad(body@, tbl),
        Stmt::Grant { body, .. } => enact_bad(body@, tbl),
        _ => false,
    }
}

pub open spec fn item_discharges(it: Item, n: Seq<char>) -> bool {
    match it {
        Item::Stmt(s) => discharges(s, n),
        _ => false,
    }
}

pub open spec fn item_divine_shape(it: Item, tbl: Seq<(Seq<char>, TypeV)>) -> TypeV {
    match it {
        Item::Stmt(s) => divine_shape(s, tbl),
        _ => TypeV::Unknown,
    }
}

pub open spec fn top_discharged_at(items: Seq<Item>, i: int, n: Seq<char>, k: int) -> bool {
    &&& 0 <= k < i
    &&& item_discharges(items[k], n)
    &&& forall|m: int| k < m < i ==> !item_binds(#[trigger] items[m], n)
}

pub open spec fn top_enact_unmatched(items: Seq<Item>, j: int, tbl: Seq<(Seq<char>, TypeV)>) -> bool {
    match items[j] {
        Item::Stmt(Stmt::Enact { subject, arms, .. }) => match path_root(subject) {
            Some(x) => exists|k: int|
                #[trigger] top_discharged_at(items, j, x, k) && uncovered(
                    path_shape(subject, item_divine_shape(items[k], tbl)),
                    arms@,
                ),
            None => false,
        },
        _ => false,
    }
}

pub open spec fn item_enact_nested(it: Item, tbl: Seq<(Seq<char>, TypeV)>) -> bool {
    match it {
        Item::Stmt(s) => stmt_enact_nested(s, tbl),
        Item::Define(f) => enact_bad(f.body@, tbl),
        Item::Familiar(fam) => enact_bad(fam.body@, tbl),
        Item::Type(_) => false,
    }
}

/// Every `enact` is exhaustive over the variant set it dispatches on: where
/// its subject is a path from a discharged `divine` of the same block (the
/// program's top level, or a block of a loop, branch, region, definition or
/// familiar), its arms name exactly the variants of the path's declared
/// type, none missing and none unknown.
pub open spec fn enacts_covered(p: Program) -> bool {
    let tbl = type_table(p.items@);
    &&& forall|j: int| 0 <= j < p.items.len() ==> !#[trigger] top_enact_unmatched(p.items@, j, tbl)
    &&& forall|i: int| 0 <= i < p.items.len() ==> !item_enact_nested(#[trigger] p.items@[i], tbl)
}

proof fn lemma_top_live_step(items: Seq<Item>, i: int, n: Seq<char>)
    requires
        0 <= i < items.len(),
        top_live(items, i + 1, n),
    ensures
        (top_live(items, i, n) && !item_binds(items[i], n)) || item_undischarged(items[i], n),
{
    let k = choose|k: int|
        0 <= k < i + 1 && #[trigger] item_undischarged(items[k], n) && forall|m: int|
            k < m < i + 1 ==> !item_binds(#[trigger] items[m], n);
    if k < i {
        assert(!item_binds(items[i], n));
        assert(top_live(items, i, n));
    }
}

// ------------------------------------------------------------ capability rules

/// A capability's identity, as the rules compare it.
pub type CapId = (Seq<char>, Option<Seq<char>>);

pub open spec fn memory_views(ms: Seq<(String, String)>) -> Seq<(Seq<char>, Seq<char>)> {
    ms.map_values(|e: (String, String)| (e.0@, e.1@))
}

pub open spec fn fn_views(fs: Seq<(String, Vec<Capability>)>) -> Seq<(Seq<char>, Seq<CapId>)> {
    fs.map_values(|e: (String, Vec<Capability>)| (e.0@, cap_ids(e.1@)))
}

/// The scope most recently declared for memory `name`.
pub open spec fn mem_lookup(mems: Seq<(Seq<char>, Seq<char>)>, name: Seq<char>) -> Option<Seq<char>>
    decreases mems.len(),
{
    if mems.len() == 0 {
        None
    } else if mems.last().0 == name {
        Some(mems.last().1)
    } else {
        mem_lookup(mems.drop_last(), name)
    }
}

/// The capabilities the latest definition named `name` requires.
pub open spec fn fn_lookup(fns: Seq<(Seq<char>, Seq<CapId>)>, name: Seq<char>) -> Option<Seq<CapId>>
    decreases fns.len(),
{
    if fns.len() == 0 {
        None
    } else if fns.last().0 == name {
        Some(fns.last().1)
    } else {
        fn_lookup(fns.drop_last(), name)
    }
}

/// How many of the capabilities `req` are not among `ids`.
pub open spec fn missing_caps(req: Seq<CapId>, ids: Seq<CapId>) -> nat
    decreases req.len(),
{
    if req.len() == 0 {
        0
    } else {
        missing_caps(req.drop_last(), ids) + if ids.contains(req.last()) { 0nat } else { 1nat }
    }
}

/// The built-in operations (they require no capability).
pub open spec fn is_builtin(name: Seq<char>) -> bool {
    name == "similarity"@ || name == "nearest"@ || name == "advance"@ || name == "audit_log"@ || name
        == "listen"@
}

/// The errors a call of `callee` reports: one per capability the callee
/// requires that is not granted.
pub open spec fn call_errors(callee: Seq<char>, fns: Seq<(Seq<char>, Seq<CapId>)>, ids: Seq<CapId>) -> nat {
    if is_builtin(callee) {
        0
    } else {
        match fn_lookup(fns, callee) {
            Some(req) => missing_caps(req, ids),
            None => 0,
        }
    }
}

/// The error an access `recv.method(..)` reports: one when `recv` names a
/// governed memory whose scope is not granted (`embed` aside).
pub open spec fn access_errors(recv: Expr, method: Seq<char>, mems: Seq<(Seq<char>, Seq<char>)>, ids: Seq<CapId>) -> nat {
    match recv {
        Expr::Ident(name, _) => if method == "embed"@ {
            0
        } else {
            match mem_lookup(mems, name@) {
                Some(scope) => if ids.contains(("scope"@, Some(scope))) { 0 } else { 1 },
                None => 0,
            }
        },
        _ => 0,
    }
}

/// The capability errors of an expression: calls whose required
/// capabilities are not granted, and accesses to memories outside their
/// scope, anywhere in the expression.
pub open spec fn expr_cap_errors(
    e: Expr,
    mems: Seq<(Seq<char>, Seq<char>)>,
    fns: Seq<(Seq<char>, Seq<CapId>)>,
    ids: Seq<CapId>,
) -> nat
    decreases e, 1int,
{
    match e {
        Expr::Str(segs, _) => segs_cap_errors(segs@, mems, fns, ids),
        Expr::Unary { rhs, .. } => expr_cap_errors(*rhs, mems, fns, ids),
        Expr::Binary { lhs, rhs, .. } => expr_cap_errors(*lhs, mems, fns, ids) + expr_cap_errors(*rhs, mems, fns, ids),
        Expr::Call { callee, args, .. } => exprs_cap_errors(args@, mems, fns, ids) + call_errors(callee@, fns, ids),
        Expr::Method { recv, method, args, .. } => expr_cap_errors(*recv, mems, fns, ids) + exprs_cap_errors(
            args@,
            mems,
            fns,
            ids,
        ) + access_errors(*recv, method@, mems, ids),
        Expr::Field { recv, .. } => expr_cap_errors(*recv, mems, fns, ids),
        Expr::Variant { fields, .. } => fields_cap_errors(fields@, mems, fns, ids),
        Expr::Record { fields, .. } => fields_cap_errors(fields@, mems, fns, ids),
        Expr::List { items, .. } => exprs_cap_errors(items@, mems, fns, ids),
        _ => 0,
    }
}

pub open spec fn exprs_cap_errors(
    es: Seq<Expr>,
    mems: Seq<(Seq<char>, Seq<char>)>,
    fns: Seq<(Seq<char>, Seq<CapId>)>,
    ids: Seq<CapId>,
) -> nat
    decreases es, 2int,
{
    if es.len() == 0 {
        0
    } else {
        exprs_cap_errors(es.drop_last(), mems, fns, ids) + expr_cap_errors(es.last(), mems, fns, ids)
    }
}

pub open spec fn fields_cap_errors(
    fs: Seq<(String, Expr)>,
    mems: Seq<(Seq<char>, Seq<char>)>,
    fns: Seq<(Seq<char>, Seq<CapId>)>,
    ids: Seq<CapId>,
) -> nat
    decreases fs, 2int,
{
    if fs.len() == 0 {
        0
    } else {
        fields_cap_errors(fs.drop_last(), mems, fns, ids) + expr_cap_errors(fs.last().1, mems, fns, ids)
    }
}

pub open spec fn segs_cap_errors(
    segs: Seq<StrSeg>,
    mems: Seq<(Seq<char>, Seq<char>)>,
    fns: Seq<(Seq<char>, Seq<CapId>)>,
    ids: Seq<CapId>,
) -> nat
    decreases segs, 2int,
{
    if segs.len() == 0 {
        0
    } else {
        segs_cap_errors(segs.drop_last(), mems, fns, ids) + match segs.last() {
            StrSeg::Interp(inner) => expr_cap_errors(*inner, mems, fns, ids),
            StrSeg::Lit(_) => 0,
        }
    }
}

/// The capability errors of a block whose every expression is inferred
/// (an annotated `let`/`var` is checked against its type instead, and
/// `enact` arms only when the subject's type is known; neither is counted),
/// under the capabilities `ids` and those regions grant.
pub open spec fn block_cap_errors(
    ss: Seq<Stmt>,
    mems: Seq<(Seq<char>, Seq<char>)>,
    fns: Seq<(Seq<char>, Seq<CapId>)>,
    ids: Seq<CapId>,
) -> nat
    decreases ss, 2int,
{
    if ss.len() == 0 {
        0
    } else {
        block_cap_errors(ss.drop_last(), mems, fns, ids) + stmt_cap_errors(ss.last(), mems, fns, ids)
    }
}

pub open spec fn stmt_cap_errors(
    s: Stmt,
    mems: Seq<(Seq<char>, Seq<char>)>,
    fns: Seq<(Seq<char>, Seq<CapId>)>,
    ids: Seq<CapId>,
) -> nat
    decreases s, 1int,
{
    match s {
        Stmt::Let { ty, value, .. } => if ty is None { expr_cap_errors(value, mems, fns, ids) } else { 0 },
        Stmt::Var { ty, value, .. } => if ty is None { expr_cap_errors(value, mems, fns, ids) } else { 0 },
        Stmt::Assign { value, .. } => expr_cap_errors(value, mems, fns, ids),
        Stmt::Speak { value, .. } => expr_cap_errors(value, mems, fns, ids),
        Stmt::While { cond, body, .. } => expr_cap_errors(cond, mems, fns, ids) + block_cap_errors(body@, mems, fns, ids),
        Stmt::If { cond, then_branch, else_branch, .. } => expr_cap_errors(cond, mems, fns, ids) + block_cap_errors(
            then_branch@,
            mems,
            fns,
            ids,
        ) + match else_branch {
            Some(eb) => block_cap_errors(eb@, mems, fns, ids),
            None => 0,
        },
        Stmt::Return { value, .. } => match value {
            Some(v) => expr_cap_errors(v, mems, fns, ids),
            None => 0,
        },
        Stmt::Divine(d) => exprs_cap_errors(d.inputs@, mems, fns, ids) + match d.fallback {
            Some(f) => expr_cap_errors(f, mems, fns, ids),
            None => 0,
        },
        Stmt::Enact { subject, .. } => expr_cap_errors(subject, mems, fns, ids),
        Stmt::Grant { caps, body, .. } => block_cap_errors(body@, mems, fns, ids + cap_ids(caps@)),
        Stmt::Within { scope, body, .. } => block_cap_errors(body@, mems, fns, ids.push(("scope"@, Some(scope@)))),
        Stmt::Expr(e) => expr_cap_errors(e, mems, fns, ids),
        _ => 0,
    }
}

/// The memories a statement declares with a scope, in order.
pub open spec fn mems_in(s: Stmt) -> Seq<(Seq<char>, Seq<char>)>
    decreases s, 1int,
{
    match s {
        Stmt::MemoryDecl(m) => match m.scope {
            Some(sc) => seq![(m.name@, sc@)],
            None => Seq::empty(),
        },
        Stmt::While { body, .. } => mems_of(body@),
        Stmt::Within { body, .. } => mems_of(body@),
        Stmt::Grant { body, .. } => mems_of(body@),
        Stmt::If { then_branch, else_branch, .. } => mems_of(then_branch@) + match else_branch {
            Some(eb) => mems_of(eb@),
            None => Seq::empty(),
        },
        Stmt::Enact { arms, .. } => mems_arms(arms@),
        _ => Seq::empty(),
    }
}

pub open spec fn mems_of(ss: Seq<Stmt>) -> Seq<(Seq<char>, Seq<char>)>
    decreases ss, 2int,
{
    if ss.len() == 0 {
        Seq::empty()
    } else {
        mems_of(ss.drop_last()) + mems_in(ss.last())
    }
}

pub open spec fn mems_arms(arms: Seq<EnactArm>) -> Seq<(Seq<char>, Seq<char>)>
    decreases arms, 2int,
{
    if arms.len() == 0 {
        Seq::empty()
    } else {
        mems_arms(arms.drop_last()) + mems_of(arms.last().body@)
    }
}

/// The scoped memories a program declares, in order.
pub open spec fn mems_items(items: Seq<Item>) -> Seq<(Seq<char>, Seq<char>)>
    decreases items.len(),
{
    if items.len() == 0 {
        Seq::empty()
    } else {
        mems_items(items.drop_last()) + match items.last() {
            Item::Stmt(s) => mems_in(s),
            Item::Define(f) => mems_of(f.body@),
            Item::Familiar(fam) => mems_of(fam.body@),
            Item::Type(_) => Seq::empty(),
        }
    }
}

/// The definitions of a program with the capabilities each requires.
pub open spec fn fns_items(items: Seq<Item>) -> Seq<(Seq<char>, Seq<CapId>)>
    decreases items.len(),
{
    if items.len() == 0 {
        Seq::empty()
    } else {
        fns_items(items.drop_last()) + match items.last() {
            Item::Define(f) => seq![(f.name@, cap_ids(f.requires@))],
            _ => Seq::empty(),
        }
    }
}

/// The capability errors of a top-level item: a definition's body is
/// checked under its `requires`, a familiar's under its `permits`, a
/// top-level statement under `ids`.
pub open spec fn item_cap_errors(
    it: Item,
    mems: Seq<(Seq<char>, Seq<char>)>,
    fns: Seq<(Seq<char>, Seq<CapId>)>,
    ids: Seq<CapId>,
) -> nat {
    match it {
        Item::Stmt(s) => stmt_cap_errors(s, mems, fns, ids),
        Item::Define(f) => block_cap_errors(f.body@, mems, fns, cap_ids(f.requires@)),
        Item::Familiar(fam) => block_cap_errors(fam.body@, mems, fns, cap_ids(fam.permits@)),
        Item::Type(_) => 0,
    }
}

pub open spec fn items_cap_errors(
    items: Seq<Item>,
    mems: Seq<(Seq<char>, Seq<char>)>,
    fns: Seq<(Seq<char>, Seq<CapId>)>,
    ids: Seq<CapId>,
) -> nat
    decreases items.len(),
{
    if items.len() == 0 {
        0
    } else {
        items_cap_errors(items.drop_last(), mems, fns, ids) + item_cap_errors(items.last(), mems, fns, ids)
    }
}

/// Every call the checker infers has the capabilities its callee requires,
/// and every such access to a governed memory happens within its scope.
pub open spec fn capabilities_respected(p: Program) -> bool {
    forall|i: int|
        0 <= i < p.items.len() ==> item_cap_errors(
            #[trigger] p.items@[i],
            mems_items(p.items@),
            fns_items(p.items@),
            Seq::empty(),
        ) == 0
}

proof fn lemma_no_cap_errors(
    items: Seq<Item>,
    mems: Seq<(Seq<char>, Seq<char>)>,
    fns: Seq<(Seq<char>, Seq<CapId>)>,
    ids: Seq<CapId>,
)
    requires
        items_cap_errors(items, mems, fns, ids) == 0,
    ensures
        forall|i: int| 0 <= i < items.len() ==> item_cap_errors(#[trigger] items[i], mems, fns, ids) == 0,
    decreases items.len(),
{
    if items.len() > 0 {
        lemma_no_cap_errors(items.drop_last(), mems, fns, ids);
        assert forall|i: int| 0 <= i < items.len() implies item_cap_errors(#[trigger] items[i], mems, fns, ids) == 0 by {
            if i < items.len() - 1 {
                assert(items[i] == items.drop_last()[i]);
            }
        }
    }
}

/// The unscoped memories of a top-level item.
pub open spec fn item_unscoped(it: Item) -> nat {
    match it {
        Item::Stmt(s) => stmt_unscoped(s),
        Item::Define(f) => unscoped_memories(f.body@),
        Item::Familiar(fam) => unscoped_memories(fam.body@),
        Item::Type(_) => 0,
    }
}

/// The unbounded loops of a top-level item (only a familiar may have none).
pub open spec fn item_loops(it: Item) -> nat {
    match it {
        Item::Familiar(fam) => loop_spans(fam.body@).len(),
        _ => 0,
    }
}

/// The errors the checker reports for a list of items whatever the types
/// of their expressions: unbounded loops in familiars and memories without
/// a scope.
pub open spec fn structural_errors(items: Seq<Item>) -> nat
    decreases items.len(),
{
    if items.len() == 0 {
        0
    } else {
        structural_errors(items.drop_last()) + item_loops(items.last()) + item_unscoped(items.last())
    }
}

/// Every familiar of the program is single-pass: its body holds no `while`.
pub open spec fn familiars_single_pass(p: Program) -> bool {
    forall|i: int| 0 <= i < p.items.len() ==> item_loops(#[trigger] p.items@[i]) == 0
}

/// Every memory the checker reaches declares a `scope`.
pub open spec fn memories_scoped(p: Program) -> bool {
    forall|i: int| 0 <= i < p.items.len() ==> item_unscoped(#[trigger] p.items@[i]) == 0
}

proof fn lemma_no_structural_errors(items: Seq<Item>)
    requires
        structural_errors(items) == 0,
    ensures
        forall|i: int| 0 <= i < items.len() ==> item_loops(#[trigger] items[i]) == 0,
        forall|i: int| 0 <= i < items.len() ==> item_unscoped(#[trigger] items[i]) == 0,
    decreases items.len(),
{
    if items.len() > 0 {
        lemma_no_structural_errors(items.drop_last());
        assert forall|i: int| 0 <= i < items.len() implies item_loops(#[trigger] items[i]) == 0 by {
            if i < items.len() - 1 {
                assert(items[i] == items.drop_last()[i]);
            }
        }
        assert forall|i: int| 0 <= i < items.len() implies item_unscoped(#[trigger] items[i]) == 0 by {
            if i < items.len() - 1 {
                assert(items[i] == items.drop_last()[i]);
            }
        }
    }
}

/// The diagnostics `ds` are exactly one unbounded-loop error per span in
/// `spans`, in order.
pub open spec fn loop_errors(ds: Seq<Diagnostic>, spans: Seq<Span>, fam: Seq<char>) -> bool {
    &&& ds.len() == spans.len()
    &&& forall|k: int|
        0 <= k < ds.len() ==> (#[trigger] ds[k]).stage == Stage::Type && ds[k].message@
            == unbounded_loop_msg(fam) && ds[k].span == Some(spans[k])
}

/// Appends one unbounded-loop error for every loop in `stmts`.
pub fn unbounded_loops(stmts: &Vec<Stmt>, fam: &String, out: &mut Vec<Diagnostic>)
    ensures
        final(out)@.subrange(0, old(out)@.len() as int) == old(out)@,
        loop_errors(final(out)@.subrange(old(out)@.len() as int, final(out)@.len() as int), loop_spans(stmts@), fam@),
        final(out)@.len() >= old(out)@.len(),
    decreases stmts@, 2int,
{
    let n = stmts.len();
    let mut i: usize = 0;
    let ghost start = old(out)@.len() as int;
    while i < n
        invariant
            n == stmts.len(),
            i <= n,
            start == old(out)@.len(),
            out@.len() >= start,
            out@.subrange(0, start) == old(out)@,
            loop_errors(out@.subrange(start, out@.len() as int), loop_spans(stmts@.take(i as int)), fam@),
        decreases n - i,
    {
        let ghost before = out@;
        stmt_unbounded_loops(&stmts[i], fam, out);
        proof {
            assert(stmts@.take(i + 1).drop_last() =~= stmts@.take(i as int));
            assert(stmts@.take(i + 1).last() == stmts@[i as int]);
            let a = before.subrange(start, before.len() as int);
            let b = out@.subrange(before.len() as int, out@.len() as int);
            assert(out@.subrange(start, out@.len() as int) =~= a + b);
            assert(out@.subrange(0, start) =~= before.subrange(0, start));
            let sp = loop_spans(stmts@.take(i + 1));
            assert(sp =~= loop_spans(stmts@.take(i as int)) + stmt_loop_spans(stmts@[i as int]));
            assert forall|k: int| 0 <= k < (a + b).len() implies (#[trigger] (a + b)[k]).stage
                == Stage::Type && (a + b)[k].message@ == unbounded_loop_msg(fam@) && (a + b)[k].span
                == Some(sp[k]) by {
                if k < a.len() {
                    assert((a + b)[k] == a[k]);
                } else {
                    assert((a + b)[k] == b[k - a.len()]);
                }
            }
        }
        i = i + 1;
    }
    assert(stmts@.take(n as int) =~= stmts@);
}

fn stmt_unbounded_loops(s: &Stmt, fam: &String, out: &mut Vec<Diagnostic>)
    ensures
        final(out)@.subrange(0, old(out)@.len() as int) == old(out)@,
        loop_errors(final(out)@.subrange(old(out)@.len() as int, final(out)@.len() as int), stmt_loop_spans(*s), fam@),
        final(out)@.len() >= old(out)@.len(),
    decreases *s, 1int,
{
    let ghost o = old(out)@;
    match s {
        Stmt::While { span, .. } => {
            let mut m = owned("familiar `");
            push_str(&mut m, fam.as_str());
            push_str(&mut m, "` may not contain an unbounded loop (it is single-pass in v0.1; no declared finite stopping condition)");
            out.push(Diagnostic::type_error(m, *span));
            proof {
                let d = out@.subrange(o.len() as int, out@.len() as int);
                assert(d.len() == 1);
                assert(d[0] == out@[o.len() as int]);
                assert(out@.subrange(0, o.len() as int) =~= o);
            }
        },
        Stmt::If { then_branch, else_branch, .. } => {
            unbounded_loops(then_branch, fam, out);
            let ghost mid = out@;
            match else_branch {
                Some(eb) => {
                    unbounded_loops(eb, fam, out);
                    proof {
                        lemma_loop_errors_concat(o, mid, out@, loop_spans(then_branch@), loop_spans(eb@), fam@);
                    }
                },
                None => {
                    proof {
                        assert(loop_spans(then_branch@) + Seq::<Span>::empty() =~= loop_spans(then_branch@));
                    }
                },
            }
        },
        Stmt::Within { body, .. } => {
            unbounded_loops(body, fam, out);
        },
        Stmt::Grant { body, .. } => {
            unbounded_loops(body, fam, out);
        },
        Stmt::Enact { arms, .. } => {
            arms_unbounded_loops(arms, fam, out);
        },
        _ => {
            proof {
                assert(out@.subrange(0, o.len() as int) =~= o);
            }
        },
    }
}

proof fn lemma_loop_errors_concat(
    o: Seq<Diagnostic>,
    mid: Seq<Diagnostic>,
    fin: Seq<Diagnostic>,
    s1: Seq<Span>,
    s2: Seq<Span>,
    fam: Seq<char>,
)
    requires
        mid.subrange(0, o.len() as int) == o,
        mid.len() >= o.len(),
        loop_errors(mid.subrange(o.len() as int, mid.len() as int), s1, fam),
        fin.subrange(0, mid.len() as int) == mid,
        fin.len() >= mid.len(),
        loop_errors(fin.subrange(mid.len() as int, fin.len() as int), s2, fam),
    ensures
        fin.subrange(0, o.len() as int) == o,
        loop_errors(fin.subrange(o.len() as int, fin.len() as int), s1 + s2, fam),
{
    let a = mid.subrange(o.len() as int, mid.len() as int);
    let b = fin.subrange(mid.len() as int, fin.len() as int);
    assert(fin.subrange(o.len() as int, fin.len() as int) =~= a + b);
    assert(fin.subrange(0, o.len() as int) =~= mid.subrange(0, o.len() as int));
    assert forall|k: int| 0 <= k < (a + b).len() implies (#[trigger] (a + b)[k]).stage == Stage::Type
        && (a + b)[k].message@ == unbounded_loop_msg(fam) && (a + b)[k].span == Some((s1 + s2)[k]) by {
        if k < a.len() {
            assert((a + b)[k] == a[k]);
        } else {
            assert((a + b)[k] == b[k - a.len()]);
        }
    }
}

fn arms_unbounded_loops(arms: &Vec<EnactArm>, fam: &String, out: &mut Vec<Diagnostic>)
    ensures
        final(out)@.subrange(0, old(out)@.len() as int) == old(out)@,
        loop_errors(final(out)@.subrange(old(out)@.len() as int, final(out)@.len() as int), arms_loop_spans(arms@), fam@),
        final(out)@.len() >= old(out)@.len(),
    decreases arms@, 2int,
{
    let n = arms.len();
    let mut i: usize = 0;
    let ghost o = old(out)@;
    proof {
        assert(out@.subrange(0, o.len() as int) =~= o);
        assert(arms@.take(0) =~= Seq::<EnactArm>::empty());
    }
    while i < n
        invariant
            n == arms.len(),
            i <= n,
            o == old(out)@,
            out@.len() >= o.len(),
            out@.subrange(0, o.len() as int) == o,
            loop_errors(out@.subrange(o.len() as int, out@.len() as int), arms_loop_spans(arms@.take(i as int)), fam@),
        decreases n - i,
    {
        let ghost mid = out@;
        arm_unbounded_loops(&arms[i], fam, out);
        proof {
            assert(arms@.take(i + 1).drop_last() =~= arms@.take(i as int));
            assert(arms@.take(i + 1).last() == arms@[i as int]);
            lemma_loop_errors_concat(o, mid, out@, arms_loop_spans(arms@.take(i as int)), loop_spans(arms@[i as int].body@), fam@);
        }
        i = i + 1;
    }
    assert(arms@.take(n as int) =~= arms@);
}

fn arm_unbounded_loops(arm: &EnactArm, fam: &String, out: &mut Vec<Diagnostic>)
    ensures
        final(out)@.subrange(0, old(out)@.len() as int) == old(out)@,
        loop_errors(final(out)@.subrange(old(out)@.len() as int, final(out)@.len() as int), loop_spans(arm.body@), fam@),
        final(out)@.len() >= old(out)@.len(),
    decreases *arm, 0int,
{
    unbounded_loops(&arm.body, fam, out);
}

// ------------------------------------------------------------ type resolution

/// The built-in type names.
pub open spec fn builtin_type(n: Seq<char>) -> bool {
    n == "spark"@ || n == "glyph"@ || n == "bool"@ || n == "oracle"@
}

/// The names declared in a type table.
pub open spec fn table_names(table: Seq<(String, Type)>) -> Seq<Seq<char>> {
    table.map_values(|p: (String, Type)| p.0@)
}

/// Does a written type resolve against the declared names? Every name must be
/// built in or declared, and only `spark` may be refined with a range.
pub open spec fn resolvable(te: TypeExpr, names: Seq<Seq<char>>) -> bool
    decreases te, 1int,
{
    match te {
        TypeExpr::Named(n, _) => builtin_type(n@) || names.contains(n@),
        TypeExpr::Refined { base, .. } => base@ == "spark"@,
        TypeExpr::Record(fields, _) => fields_resolvable(fields@, names),
        TypeExpr::OneOf(variants, _) => variants_resolvable(variants@, names),
        TypeExpr::List { elem, .. } => resolvable(*elem, names),
    }
}

pub open spec fn fields_resolvable(fs: Seq<(String, TypeExpr)>, names: Seq<Seq<char>>) -> bool
    decreases fs, 0int,
{
    fs.len() == 0 || (fields_resolvable(fs.drop_last(), names) && resolvable(fs.last().1, names))
}

pub open spec fn variants_resolvable(vs: Seq<crate::ast::VariantDef>, names: Seq<Seq<char>>) -> bool
    decreases vs, 0int,
{
    vs.len() == 0 || (variants_resolvable(vs.drop_last(), names) && fields_resolvable(
        vs.last().fields@,
        names,
    ))
}

/// The shape of the most recent entry named `name` in a table of shapes.
pub open spec fn type_lookup(tbl: Seq<(Seq<char>, TypeV)>, name: Seq<char>) -> Option<TypeV>
    decreases tbl.len(),
{
    if tbl.len() == 0 {
        None
    } else if tbl.last().0 == name {
        Some(tbl.last().1)
    } else {
        type_lookup(tbl.drop_last(), name)
    }
}

/// The shape a written type resolves to against a table of declared
/// shapes, or `None` where it does not resolve.
pub open spec fn resolved(te: TypeExpr, tbl: Seq<(Seq<char>, TypeV)>) -> Option<TypeV>
    decreases te, 1int,
{
    match te {
        TypeExpr::Named(n, _) => if n@ == "spark"@ {
            Some(TypeV::Spark { lo: None, hi: None })
        } else if n@ == "glyph"@ {
            Some(TypeV::Glyph)
        } else if n@ == "bool"@ {
            Some(TypeV::Bool)
        } else if n@ == "oracle"@ {
            Some(TypeV::Oracle)
        } else {
            type_lookup(tbl, n@)
        },
        TypeExpr::Refined { base, lo, hi, .. } => if base@ == "spark"@ {
            Some(TypeV::Spark { lo: Some(lo), hi: Some(hi) })
        } else {
            None
        },
        TypeExpr::Record(fields, _) => match resolved_fields(fields@, tbl) {
            Some(fs) => Some(TypeV::Record(fs)),
            None => None,
        },
        TypeExpr::OneOf(variants, _) => match resolved_variants(variants@, tbl) {
            Some(vs) => Some(TypeV::Sum(vs)),
            None => None,
        },
        TypeExpr::List { elem, lo, hi, .. } => match resolved(*elem, tbl) {
            Some(e) => Some(TypeV::List { elem: Box::new(e), lo, hi }),
            None => None,
        },
    }
}

pub open spec fn resolved_fields(fs: Seq<(String, TypeExpr)>, tbl: Seq<(Seq<char>, TypeV)>) -> Option<Seq<(Seq<char>, TypeV)>>
    decreases fs, 0int,
{
    if fs.len() == 0 {
        Some(Seq::empty())
    } else {
        match resolved_fields(fs.drop_last(), tbl) {
            Some(pre) => match resolved(fs.last().1, tbl) {
                Some(t) => Some(pre.push((fs.last().0@, t))),
                None => None,
            },
            None => None,
        }
    }
}

pub open spec fn resolved_variants(vs: Seq<crate::ast::VariantDef>, tbl: Seq<(Seq<char>, TypeV)>) -> Option<Seq<(Seq<char>, Seq<(Seq<char>, TypeV)>)>>
    decreases vs, 0int,
{
    if vs.len() == 0 {
        Some(Seq::empty())
    } else {
        match resolved_variants(vs.drop_last(), tbl) {
            Some(pre) => match resolved_fields(vs.last().fields@, tbl) {
                Some(fs) => Some(pre.push((vs.last().name@, fs))),
                None => None,
            },
            None => None,
        }
    }
}

proof fn lemma_resolved_fields_prefix(fs: Seq<(String, TypeExpr)>, k: nat, tbl: Seq<(Seq<char>, TypeV)>)
    requires
        k <= fs.len(),
    ensures
        resolved_fields(fs.take(k as int), tbl) is None ==> resolved_fields(fs, tbl) is None,
    decreases fs.len() - k,
{
    if k < fs.len() {
        lemma_resolved_fields_prefix(fs, k + 1, tbl);
        assert(fs.take(k + 1int).drop_last() =~= fs.take(k as int));
    } else {
        assert(fs.take(k as int) =~= fs);
    }
}

proof fn lemma_resolved_variants_prefix(vs: Seq<crate::ast::VariantDef>, k: nat, tbl: Seq<(Seq<char>, TypeV)>)
    requires
        k <= vs.len(),
    ensures
        resolved_variants(vs.take(k as int), tbl) is None ==> resolved_variants(vs, tbl) is None,
    decreases vs.len() - k,
{
    if k < vs.len() {
        lemma_resolved_variants_prefix(vs, k + 1, tbl);
        assert(vs.take(k + 1int).drop_last() =~= vs.take(k as int));
    } else {
        assert(vs.take(k as int) =~= vs);
    }
}

/// The shape a written type is given where it is used: its resolution, or
/// unknown where it does not resolve (the failure is reported on its own).
pub open spec fn resolved_or_unknown(te: TypeExpr, tbl: Seq<(Seq<char>, TypeV)>) -> TypeV {
    match resolved(te, tbl) {
        Some(v) => v,
        None => TypeV::Unknown,
    }
}

/// A binding is present and has the shape `v`.
pub open spec fn has_shape(b: Option<Type>, v: TypeV) -> bool {
    match b {
        Some(t) => type_v(t) == v,
        None => false,
    }
}

/// The most recent declaration of `name` in the table.
fn table_get(table: &Vec<(String, Type)>, name: &String) -> (r: Option<Type>)
    ensures
        r is Some <==> table_names(table@).contains(name@),
        match type_lookup(fields_v(table@), name@) {
            Some(v) => r matches Some(t) && type_v(t) == v,
            None => r is None,
        },
{
    let n = table.len();
    let mut i: usize = n;
    assert(table@.take(n as int) =~= table@);
    while i > 0
        invariant
            i <= n,
            n == table.len(),
            forall|k: int| i <= k < n ==> table@[k].0@ != name@,
            type_lookup(fields_v(table@), name@) == type_lookup(fields_v(table@.take(i as int)), name@),
        decreases i,
    {
        i = i - 1;
        proof {
            let t1 = table@.take(i + 1);
            assert(t1.drop_last() =~= table@.take(i as int));
            assert(t1.last() == table@[i as int]);
            assert(fields_v(t1) == fields_v(t1.drop_last()).push((t1.last().0@, type_v(t1.last().1))));
            assert(fields_v(t1).drop_last() =~= fields_v(table@.take(i as int)));
        }
        if table[i].0 == *name {
            proof {
                assert(table_names(table@)[i as int] == name@);
            }
            return Some(clone_type(&table[i].1));
        }
    }
    proof {
        if table_names(table@).contains(name@) {
            let k = choose|k: int| 0 <= k < table_names(table@).len() && table_names(table@)[k] == name@;
            assert(table@[k].0@ == name@);
        }
        assert(fields_v(table@.take(0)) =~= Seq::empty());
    }
    None
}

/// Resolves a written type against the declared-type table.
pub fn resolve_type(te: &TypeExpr, table: &Vec<(String, Type)>) -> (r: Result<Type, Diagnostic>)
    ensures
        r is Ok <==> resolvable(*te, table_names(table@)),
        match resolved(*te, fields_v(table@)) {
            Some(v) => r matches Ok(t) && type_v(t) == v,
            None => r is Err,
        },
        r is Err ==> r->Err_0.stage == Stage::Type,
    decreases *te, 2int,
{
    match te {
        TypeExpr::Named(name, span) => {
            if str_eq(name.as_str(), "spark") {
                Ok(Type::spark())
            } else if str_eq(name.as_str(), "glyph") {
                Ok(Type::Glyph)
            } else if str_eq(name.as_str(), "bool") {
                Ok(Type::Bool)
            } else if str_eq(name.as_str(), "oracle") {
                Ok(Type::Oracle)
            } else {
                match table_get(table, name) {
                    Some(t) => Ok(t),
                    None => {
                        let mut m = owned("unknown type `");
                        push_str(&mut m, name.as_str());
                        push_str(&mut m, "`");
                        Err(Diagnostic::type_error(m, *span))
                    },
                }
            }
        },
        TypeExpr::Refined { base, lo, hi, span } => {
            if str_eq(base.as_str(), "spark") {
                Ok(Type::Spark { lo: Some(*lo), hi: Some(*hi) })
            } else {
                let mut m = owned("only `spark` can be refined with a range, not `");
                push_str(&mut m, base.as_str());
                push_str(&mut m, "`");
                Err(Diagnostic::type_error(m, *span))
            }
        },
        TypeExpr::Record(fields, _) => {
            let out = resolve_fields(fields, table)?;
            Ok(Type::Record(out))
        },
        TypeExpr::OneOf(variants, _) => {
            let out = resolve_variants(variants, table)?;
            Ok(Type::Sum(out))
        },
        TypeExpr::List { elem, lo, hi, .. } => {
            let e = resolve_type(elem, table)?;
            Ok(Type::List { elem: Box::new(e), lo: *lo, hi: *hi })
        },
    }
}

fn resolve_variants(variants: &Vec<crate::ast::VariantDef>, table: &Vec<(String, Type)>) -> (r: Result<Vec<Variant>, Diagnostic>)
    ensures
        r is Ok <==> variants_resolvable(variants@, table_names(table@)),
        match resolved_variants(variants@, fields_v(table@)) {
            Some(v) => r matches Ok(o) && variants_v(o@) == v,
            None => r is Err,
        },
        r is Err ==> r->Err_0.stage == Stage::Type,
    decreases variants@, 1int,
{
    let mut out: Vec<Variant> = Vec::new();
    let n = variants.len();
    let mut i: usize = 0;
    while i < n
        invariant
            n == variants.len(),
            i <= n,
            variants_resolvable(variants@.take(i as int), table_names(table@)),
            resolved_variants(variants@.take(i as int), fields_v(table@)) == Some(variants_v(out@)),
        decreases n - i,
    {
        proof {
            assert(variants@.take(i + 1).drop_last() =~= variants@.take(i as int));
        }
        let fields = match resolve_variant_fields(&variants[i], table) {
            Ok(f) => f,
            Err(d) => {
                proof {
                    lemma_variants_resolvable_prefix(variants@, (i + 1) as nat, table_names(table@));
                    lemma_resolved_variants_prefix(variants@, (i + 1) as nat, fields_v(table@));
                }
                return Err(d);
            },
        };
        let ghost pre = out@;
        out.push(Variant { name: variants[i].name.clone(), fields });
        proof {
            assert(out@.drop_last() =~= pre);
        }
        i = i + 1;
    }
    assert(variants@.take(n as int) =~= variants@);
    Ok(out)
}

fn resolve_variant_fields(v: &crate::ast::VariantDef, table: &Vec<(String, Type)>) -> (r: Result<Vec<(String, Type)>, Diagnostic>)
    ensures
        r is Ok <==> fields_resolvable(v.fields@, table_names(table@)),
        match resolved_fields(v.fields@, fields_v(table@)) {
            Some(fv) => r matches Ok(o) && fields_v(o@) == fv,
            None => r is Err,
        },
        r is Err ==> r->Err_0.stage == Stage::Type,
    decreases *v, 0int,
{
    resolve_fields(&v.fields, table)
}

fn resolve_fields(fields: &Vec<(String, TypeExpr)>, table: &Vec<(String, Type)>) -> (r: Result<Vec<(String, Type)>, Diagnostic>)
    ensures
        r is Ok <==> fields_resolvable(fields@, table_names(table@)),
        match resolved_fields(fields@, fields_v(table@)) {
            Some(fv) => r matches Ok(o) && fields_v(o@) == fv,
            None => r is Err,
        },
        r is Err ==> r->Err_0.stage == Stage::Type,
    decreases fields@, 1int,
{
    let mut out: Vec<(String, Type)> = Vec::new();
    let n = fields.len();
    let mut i: usize = 0;
    while i < n
        invariant
            n == fields.len(),
            i <= n,
            fields_resolvable(fields@.take(i as int), table_names(table@)),
            resolved_fields(fields@.take(i as int), fields_v(table@)) == Some(fields_v(out@)),
        decreases n - i,
    {
        proof {
            assert(fields@.take(i + 1).drop_last() =~= fields@.take(i as int));
        }
        let t = match resolve_type(&fields[i].1, table) {
            Ok(t) => t,
            Err(d) => {
                proof {
                    lemma_fields_resolvable_prefix(fields@, (i + 1) as nat, table_names(table@));
                    lemma_resolved_fields_prefix(fields@, (i + 1) as nat, fields_v(table@));
                }
                return Err(d);
            },
        };
        let ghost pre = out@;
        out.push((fields[i].0.clone(), t));
        proof {
            assert(out@.drop_last() =~= pre);
        }
        i = i + 1;
    }
    assert(fields@.take(n as int) =~= fields@);
    Ok(out)
}

proof fn lemma_fields_resolvable_prefix(fs: Seq<(String, TypeExpr)>, k: nat, names: Seq<Seq<char>>)
    requires
        k <= fs.len(),
    ensures
        fields_resolvable(fs, names) ==> fields_resolvable(fs.take(k as int), names),
    decreases fs.len() - k,
{
    if k < fs.len() {
        lemma_fields_resolvable_prefix(fs, k + 1, names);
        assert(fs.take(k + 1int).drop_last() =~= fs.take(k as int));
    } else {
        assert(fs.take(k as int) =~= fs);
    }
}

proof fn lemma_variants_resolvable_prefix(vs: Seq<crate::ast::VariantDef>, k: nat, names: Seq<Seq<char>>)
    requires
        k <= vs.len(),
    ensures
        variants_resolvable(vs, names) ==> variants_resolvable(vs.take(k as int), names),
    decreases vs.len() - k,
{
    if k < vs.len() {
        lemma_variants_resolvable_prefix(vs, k + 1, names);
        assert(vs.take(k + 1int).drop_last() =~= vs.take(k as int));
    } else {
        assert(vs.take(k as int) =~= vs);
    }
}

// ------------------------------------------------------------ the checker

/// The checker's state while it walks a program.
pub struct Checker {
    types: Vec<(String, Type)>,
    scopes: Vec<Vec<(String, Type)>>,
    /// Capabilities each function declares it requires of its callers.
    fn_requires: Vec<(String, Vec<Capability>)>,
    /// Capabilities granted in the context being checked.
    active_caps: Vec<Capability>,
    /// Oracle name and model id, so `oracle.embed(...)` resolves its space.
    oracles: Vec<(String, String)>,
    /// Memory name and scope, so reads and writes require `scope(<scope>)`.
    memories: Vec<(String, String)>,
    /// The familiar being checked, if any.
    current_familiar: Option<String>,
    diags: Vec<Diagnostic>,
}

impl Checker {
    pub closed spec fn inv(&self) -> bool {
        self.scopes.len() >= 1 && all_type_errors(self.diags@)
    }

    /// `self` is `prev` after checking a statement or expression: the same
    /// scopes, capabilities, familiar and tables, and more diagnostics.
    pub closed spec fn frame(&self, prev: Checker) -> bool {
        &&& self.inv()
        &&& self.scopes.len() == prev.scopes.len()
        &&& self.active_caps@ == prev.active_caps@
        &&& self.current_familiar == prev.current_familiar
        &&& self.types@ == prev.types@
        &&& self.fn_requires@ == prev.fn_requires@
        &&& self.oracles@ == prev.oracles@
        &&& self.memories@ == prev.memories@
        &&& extends(prev.diags@, self.diags@)
    }

    /// The oracles known to the checker, with the model each was summoned from.
    pub closed spec fn oracles_view(&self) -> Seq<(Seq<char>, Seq<char>)> {
        memory_views(self.oracles@)
    }

    /// The declared types the checker resolves against, by name and shape.
    pub closed spec fn types_view(&self) -> Seq<(Seq<char>, TypeV)> {
        fields_v(self.types@)
    }

    pub closed spec fn caps(&self) -> Seq<Capability> {
        self.active_caps@
    }

    pub closed spec fn diagnostics(&self) -> Seq<Diagnostic> {
        self.diags@
    }

    /// The governed memories known to the checker, with their scopes.
    pub closed spec fn mems_view(&self) -> Seq<(Seq<char>, Seq<char>)> {
        memory_views(self.memories@)
    }

    /// The definitions known to the checker, with what each requires.
    pub closed spec fn fns_view(&self) -> Seq<(Seq<char>, Seq<CapId>)> {
        fn_views(self.fn_requires@)
    }

    /// The capabilities granted where the checker stands.
    pub closed spec fn ids_view(&self) -> Seq<CapId> {
        cap_ids(self.active_caps@)
    }

    pub fn new() -> (c: Checker)
        ensures
            c.inv(),
            c.diagnostics().len() == 0,
            c.mems_view() == Seq::<(Seq<char>, Seq<char>)>::empty(),
            c.fns_view() == Seq::<(Seq<char>, Seq<CapId>)>::empty(),
            c.ids_view() == Seq::<CapId>::empty(),
            c.types_view() == Seq::<(Seq<char>, TypeV)>::empty(),
            c.oracles_view() == Seq::<(Seq<char>, Seq<char>)>::empty(),
    {
        let mut scopes: Vec<Vec<(String, Type)>> = Vec::new();
        scopes.push(Vec::new());
        Checker {
            types: Vec::new(),
            scopes,
            fn_requires: Vec::new(),
            active_caps: Vec::new(),
            oracles: Vec::new(),
            memories: Vec::new(),
            current_familiar: None,
            diags: Vec::new(),
        }
    }

    fn report(&mut self, d: Diagnostic)
        requires
            old(self).inv(),
            d.stage == Stage::Type,
        ensures
            final(self).frame(*old(self)),
            final(self).scopes@ == old(self).scopes@,
            final(self).diags@ == old(self).diags@.push(d),
    {
        self.diags.push(d);
        assert(self.diags@.subrange(0, old(self).diags@.len() as int) =~= old(self).diags@);
    }

    fn report_all(&mut self, ds: Vec<Diagnostic>)
        requires
            old(self).inv(),
            all_type_errors(ds@),
        ensures
            final(self).frame(*old(self)),
            final(self).scopes@ == old(self).scopes@,
            final(self).diags@ == old(self).diags@ + ds@,
    {
        let mut ds = ds;
        self.diags.append(&mut ds);
        assert(self.diags@.subrange(0, old(self).diags@.len() as int) =~= old(self).diags@);
    }

    fn push_scope(&mut self)
        requires
            old(self).inv(),
        ensures
            final(self).inv(),
            final(self).scopes.len() == old(self).scopes.len() + 1,
            final(self).active_caps@ == old(self).active_caps@,
            final(self).current_familiar == old(self).current_familiar,
            final(self).types@ == old(self).types@,
            final(self).fn_requires@ == old(self).fn_requires@,
            final(self).oracles@ == old(self).oracles@,
            final(self).memories@ == old(self).memories@,
            final(self).diags@ == old(self).diags@,
            final(self).scopes@.drop_last() == old(self).scopes@,
            final(self).scopes@.last()@.len() == 0,
    {
        self.scopes.push(Vec::new());
        assert(self.scopes@.drop_last() =~= old(self).scopes@);
    }

    fn pop_scope(&mut self)
        requires
            old(self).inv(),
            old(self).scopes.len() >= 2,
        ensures
            final(self).inv(),
            final(self).scopes.len() == old(self).scopes.len() - 1,
            final(self).active_caps@ == old(self).active_caps@,
            final(self).current_familiar == old(self).current_familiar,
            final(self).types@ == old(self).types@,
            final(self).fn_requires@ == old(self).fn_requires@,
            final(self).oracles@ == old(self).oracles@,
            final(self).memories@ == old(self).memories@,
            final(self).diags@ == old(self).diags@,
            final(self).scopes@ == old(self).scopes@.drop_last(),
    {
        self.scopes.pop();
    }

    /// Binds `name` in the innermost scope.
    fn define(&mut self, name: &String, ty: Type)
        requires
            old(self).inv(),
        ensures
            final(self).frame(*old(self)),
            final(self).diags@ == old(self).diags@,
            final(self).scopes@.drop_last() == old(self).scopes@.drop_last(),
            final(self).scopes@.last()@.drop_last() == old(self).scopes@.last()@,
            final(self).scopes@.last()@.len() == old(self).scopes@.last()@.len() + 1,
            final(self).scopes@.last()@.last().0@ == name@,
            final(self).scopes@.last()@.last().1 == ty,
    {
        let ghost ty0 = ty;
        let mut top = self.scopes.pop().unwrap();
        top.push((name.clone(), ty));
        self.scopes.push(top);
        assert(self.diags@.subrange(0, old(self).diags@.len() as int) =~= old(self).diags@);
        assert(self.scopes@.drop_last() =~= old(self).scopes@.drop_last());
        assert(self.scopes@.last()@.drop_last() =~= old(self).scopes@.last()@);
    }

    /// The type of the nearest binding of `name`.
    fn lookup(&self, name: &String) -> (r: Option<Type>)
        ensures
            r is Some <==> scope_lookup(self.scopes@, name@) is Some,
            r matches Some(t) ==> (t is Inferred <==> scope_lookup(self.scopes@, name@)->0 is Inferred),
            r matches Some(t) ==> type_v(t) == type_v(scope_lookup(self.scopes@, name@)->0),
    {
        let n = self.scopes.len();
        let mut i: usize = n;
        assert(self.scopes@.take(n as int) =~= self.scopes@);
        while i > 0
            invariant
                i <= n,
                n == self.scopes.len(),
                scope_lookup(self.scopes@, name@) == scope_lookup(self.scopes@.take(i as int), name@),
            decreases i,
        {
            i = i - 1;
            let scope = &self.scopes[i];
            proof {
                let t = self.scopes@.take(i + 1);
                assert(t.last() == self.scopes@[i as int]);
                assert(t.drop_last() =~= self.scopes@.take(i as int));
            }
            let m = scope.len();
            let mut j: usize = m;
            assert(scope@.take(m as int) =~= scope@);
            while j > 0
                invariant
                    j <= m,
                    m == scope.len(),
                    *scope == self.scopes@[i as int],
                    binding_in(scope@, name@) == binding_in(scope@.take(j as int), name@),
                    scope_lookup(self.scopes@, name@) == match binding_in(scope@, name@) {
                        Some(t) => Some(t),
                        None => scope_lookup(self.scopes@.take(i as int), name@),
                    },
                decreases j,
            {
                j = j - 1;
                proof {
                    let t = scope@.take(j + 1);
                    assert(t.last() == scope@[j as int]);
                    assert(t.drop_last() =~= scope@.take(j as int));
                }
                if scope[j].0 == *name {
                    return Some(clone_type(&scope[j].1));
                }
            }
            assert(scope@.take(0) =~= Seq::<(String, Type)>::empty());
        }
        assert(self.scopes@.take(0) =~= Seq::<Vec<(String, Type)>>::empty());
        None
    }

    /// Checks a whole program.
    pub fn run(&mut self, prog: &Program)
        requires
            old(self).inv(),
        ensures
            old(self).types_view().len() == 0 && !refinements_respected(*prog)
                ==> final(self).diagnostics().len() > old(self).diagnostics().len(),
            final(self).inv(),
            extends(old(self).diagnostics(), final(self).diagnostics()),
            quiet_program(*prog) ==> final(self).diagnostics() == old(self).diagnostics(),
            final(self).diagnostics().len() >= old(self).diagnostics().len() + structural_errors(prog.items@),
            final(self).diagnostics().len() >= old(self).diagnostics().len() + permit_errors(prog.items@),
            final(self).diagnostics().len() >= old(self).diagnostics().len() + items_cap_errors(
                prog.items@,
                old(self).mems_view() + mems_items(prog.items@),
                old(self).fns_view() + fns_items(prog.items@),
                old(self).ids_view(),
            ),
            (exists|j: int| 0 <= j < prog.items.len() && #[trigger] top_use(prog.items@, j))
                ==> final(self).diagnostics().len() > old(self).diagnostics().len(),
            (exists|j: int| 0 <= j < prog.items.len() && #[trigger] item_nested_bad(prog.items@[j]))
                ==> final(self).diagnostics().len() > old(self).diagnostics().len(),
            old(self).types_view().len() == 0 && !enacts_covered(*prog)
                ==> final(self).diagnostics().len() > old(self).diagnostics().len(),
            old(self).oracles_view().len() == 0 && !embeddings_same_space(*prog)
                ==> final(self).diagnostics().len() > old(self).diagnostics().len(),
    {
        // Declared types, in source order.
        let n = prog.items.len();
        let mut i: usize = 0;
        proof {
            crate::types::lemma_fields_v_len(old(self).types@);
            assert(prog.items@.take(0) =~= Seq::<Item>::empty());
            if old(self).types@.len() == 0 {
                assert(fields_v(self.types@) =~= type_table(prog.items@.take(0)));
            }
        }
        while i < n
            invariant
                n == prog.items.len(),
                i <= n,
                self.inv(),
                extends(old(self).diags@, self.diags@),
                self.memories@ == old(self).memories@,
                self.fn_requires@ == old(self).fn_requires@,
                self.active_caps@ == old(self).active_caps@,
                quiet_program(*prog) ==> self.diags@ == old(self).diags@,
                old(self).types@.len() == 0 ==> fields_v(self.types@) == type_table(prog.items@.take(i as int)),
                self.oracles@ == old(self).oracles@,
            decreases n - i,
        {
            proof {
                assert(prog.items@.take(i + 1).drop_last() =~= prog.items@.take(i as int));
                assert(prog.items@.take(i + 1).last() == prog.items@[i as int]);
            }
            if let Item::Type(td) = &prog.items[i] {
                match resolve_type(&td.ty, &self.types) {
                    Ok(t) => {
                        let ghost prev = self.types@;
                        self.types.push((td.name.clone(), t));
                        assert(self.types@.drop_last() =~= prev);
                    },
                    Err(d) => {
                        let ghost before = self.diags@;
                        self.report(d);
                        proof {
                            lemma_extends_trans(old(self).diags@, before, self.diags@);
                        }
                    },
                }
            }
            i = i + 1;
        }
        let ghost tt = self.types@;
        proof {
            assert(prog.items@.take(n as int) =~= prog.items@);
        }
        // Every function's required capabilities, so calls check order-free.
        let mut i: usize = 0;
        assert(prog.items@.take(0) =~= Seq::<Item>::empty());
        assert(self.fns_view() =~= old(self).fns_view() + fns_items(prog.items@.take(0)));
        while i < n
            invariant
                n == prog.items.len(),
                i <= n,
                self.inv(),
                extends(old(self).diags@, self.diags@),
                self.memories@ == old(self).memories@,
                quiet_program(*prog) ==> self.diags@ == old(self).diags@,
                self.fns_view() == old(self).fns_view() + fns_items(prog.items@.take(i as int)),
                self.active_caps@ == old(self).active_caps@,
                self.types@ == tt,
                self.oracles@ == old(self).oracles@,
            decreases n - i,
        {
            let ghost prev = self.fn_requires@;
            if let Item::Define(f) = &prog.items[i] {
                let caps = clone_caps(&f.requires);
                self.fn_requires.push((f.name.clone(), caps));
                assert(fn_views(self.fn_requires@) =~= fn_views(prev).push((f.name@, cap_ids(f.requires@))));
            } else {
                assert(fn_views(self.fn_requires@) =~= fn_views(prev));
            }
            proof {
                let t = prog.items@.take(i + 1);
                assert(t.drop_last() =~= prog.items@.take(i as int));
                assert(t.last() == prog.items@[i as int]);
                assert(self.fns_view() =~= old(self).fns_view() + fns_items(t));
            }
            i = i + 1;
        }
        assert(prog.items@.take(n as int) =~= prog.items@);
        // Oracle models and memory scopes, wherever they are declared.
        let mut i: usize = 0;
        assert(self.mems_view() =~= old(self).mems_view() + mems_items(prog.items@.take(0)));
        assert(self.oracles_view() =~= old(self).oracles_view() + summons_items(prog.items@.take(0)));
        while i < n
            invariant
                n == prog.items.len(),
                i <= n,
                self.inv(),
                extends(old(self).diags@, self.diags@),
                quiet_program(*prog) ==> self.diags@ == old(self).diags@,
                self.mems_view() == old(self).mems_view() + mems_items(prog.items@.take(i as int)),
                self.fns_view() == old(self).fns_view() + fns_items(prog.items@),
                self.active_caps@ == old(self).active_caps@,
                self.types@ == tt,
                self.oracles_view() == old(self).oracles_view() + summons_items(prog.items@.take(i as int)),
            decreases n - i,
        {
            match &prog.items[i] {
                Item::Stmt(s) => self.collect_stmt(s),
                Item::Define(f) => self.collect_resources(&f.body),
                Item::Familiar(fam) => self.collect_resources(&fam.body),
                Item::Type(_) => {},
            }
            proof {
                let t = prog.items@.take(i + 1);
                assert(t.drop_last() =~= prog.items@.take(i as int));
                assert(t.last() == prog.items@[i as int]);
                assert(self.mems_view() =~= old(self).mems_view() + mems_items(t));
                assert(self.oracles_view() =~= old(self).oracles_view() + summons_items(t));
            }
            i = i + 1;
        }
        let ghost ov = self.oracles_view();
        proof {
            if old(self).oracles_view().len() == 0 {
                assert(ov =~= summons_items(prog.items@));
            }
        }
        let ghost mems = self.mems_view();
        let ghost fns = self.fns_view();
        let ghost ids = self.ids_view();
        assert(mems == old(self).mems_view() + mems_items(prog.items@));
        assert(ids == old(self).ids_view());
        // Functions, familiars and top-level statements.
        let ghost start = self.diags@.len();
        let mut i: usize = 0;
        while i < n
            invariant
                n == prog.items.len(),
                self.inv(),
                extends(old(self).diags@, self.diags@),
                i <= n,
                start >= old(self).diags@.len(),
                quiet_program(*prog) ==> self.diags@ == old(self).diags@,
                self.diags@.len() >= start + structural_errors(prog.items@.take(i as int)),
                self.diags@.len() >= start + permit_errors(prog.items@.take(i as int)),
                self.mems_view() == mems,
                self.fns_view() == fns,
                self.ids_view() == ids,
                self.diags@.len() >= start + items_cap_errors(prog.items@.take(i as int), mems, fns, ids),
                forall|x: Seq<char>| #[trigger] top_live(prog.items@, i as int, x) ==> is_inferred(scope_lookup(self.scopes@, x)),
                (exists|j: int| 0 <= j < i && #[trigger] top_use(prog.items@, j)) ==> self.diags@.len() > old(self).diags@.len(),
                (exists|j: int| 0 <= j < i && #[trigger] item_nested_bad(prog.items@[j])) ==> self.diags@.len() > old(self).diags@.len(),
                (exists|j: int| 0 <= j < i && #[trigger] item_bounds_bad(prog.items@[j], fields_v(tt))) ==> self.diags@.len() > old(self).diags@.len(),
                self.types@ == tt,
                forall|x: Seq<char>, k: int| #[trigger] top_discharged_at(prog.items@, i as int, x, k)
                    ==> has_shape(scope_lookup(self.scopes@, x), item_divine_shape(prog.items@[k], fields_v(tt))),
                (exists|j: int| 0 <= j < i && #[trigger] top_enact_unmatched(prog.items@, j, fields_v(tt)))
                    ==> self.diags@.len() > old(self).diags@.len(),
                (exists|j: int| 0 <= j < i && #[trigger] item_enact_nested(prog.items@[j], fields_v(tt)))
                    ==> self.diags@.len() > old(self).diags@.len(),
                self.oracles_view() == ov,
                forall|x: Seq<char>| #[trigger] top_shape(prog.items@, i as int, x, ov) is Some
                    ==> has_shape(scope_lookup(self.scopes@, x), top_shape(prog.items@, i as int, x, ov)->0),
                (exists|j: int| 0 <= j < i && #[trigger] top_cross(prog.items@, j, ov))
                    ==> self.diags@.len() > old(self).diags@.len(),
                (exists|j: int| 0 <= j < i && #[trigger] item_cross_nested(prog.items@[j], ov))
                    ==> self.diags@.len() > old(self).diags@.len(),
            decreases n - i,
        {
            let ghost before = self.diags@;
            let ghost sc = self.scopes@;
            match &prog.items[i] {
                Item::Define(f) => self.check_fn(f),
                Item::Familiar(fam) => self.check_familiar(fam),
                Item::Stmt(s) => self.check_stmt(s),
                Item::Type(_) => {},
            }
            proof {
                lemma_extends_trans(old(self).diags@, before, self.diags@);
                assert(prog.items@.take(i + 1).drop_last() =~= prog.items@.take(i as int));
                assert(prog.items@.take(i + 1).last() == prog.items@[i as int]);
                let items = prog.items@;
                assert forall|x: Seq<char>| #[trigger] top_live(items, i + 1, x) implies is_inferred(
                    scope_lookup(self.scopes@, x),
                ) by {
                    lemma_top_live_step(items, i as int, x);
                    if !item_undischarged(items[i as int], x) {
                        assert(scope_lookup(self.scopes@, x) == scope_lookup(sc, x));
                    }
                }
                if exists|j: int| 0 <= j < i + 1 && #[trigger] top_use(items, j) {
                    let j = choose|j: int| 0 <= j < i + 1 && #[trigger] top_use(items, j);
                    if j == i {
                        let x = choose|x: Seq<char>| #[trigger] top_live(items, j, x) && item_reads(items[j], x);
                        assert(is_inferred(scope_lookup(sc, x)));
                    } else {
                        assert(0 <= j < i && top_use(items, j));
                    }
                }
                if exists|j: int| 0 <= j < i + 1 && #[trigger] item_nested_bad(items[j]) {
                    let j = choose|j: int| 0 <= j < i + 1 && #[trigger] item_nested_bad(items[j]);
                    if j < i {
                        assert(0 <= j < i && item_nested_bad(items[j]));
                    }
                }
                assert(env_le(top_env(items, i as int, ov), scope_env(sc))) by {
                    assert forall|x: Seq<char>| #[trigger] top_env(items, i as int, ov)(x) is Some
                        implies scope_env(sc)(x) == top_env(items, i as int, ov)(x) by {
                        assert(top_shape(items, i as int, x, ov) is Some);
                    }
                }
                assert forall|x: Seq<char>| #[trigger] top_shape(items, i + 1, x, ov) is Some
                    implies has_shape(scope_lookup(self.scopes@, x), top_shape(items, i + 1, x, ov)->0) by {
                    if item_binds(items[i as int], x) {
                        if let Item::Stmt(st) = items[i as int] {
                            if let Some(o) = embed_recv(st) {
                                if !(st is Summon) {
                                    assert(top_shape(items, i as int, o, ov) is Some);
                                    assert(scope_env(sc)(o) == Some(TypeV::Oracle));
                                }
                            }
                        }
                    } else {
                        assert(top_shape(items, i as int, x, ov) is Some);
                        assert(scope_lookup(self.scopes@, x) == scope_lookup(sc, x));
                    }
                }
                if exists|j: int| 0 <= j < i + 1 && #[trigger] top_cross(items, j, ov) {
                    let j = choose|j: int| 0 <= j < i + 1 && #[trigger] top_cross(items, j, ov);
                    if j == i {
                        if let Item::Stmt(st) = items[j] {
                            lemma_stmt_cross_mono(st, top_env(items, j, ov), scope_env(sc), ov);
                        }
                    } else {
                        assert(0 <= j < i && top_cross(items, j, ov));
                    }
                }
                if exists|j: int| 0 <= j < i + 1 && #[trigger] item_cross_nested(items[j], ov) {
                    let j = choose|j: int| 0 <= j < i + 1 && #[trigger] item_cross_nested(items[j], ov);
                    if j < i {
                        assert(0 <= j < i && item_cross_nested(items[j], ov));
                    }
                }
                if exists|j: int| 0 <= j < i + 1 && #[trigger] item_bounds_bad(items[j], fields_v(tt)) {
                    let j = choose|j: int| 0 <= j < i + 1 && #[trigger] item_bounds_bad(items[j], fields_v(tt));
                    if j < i {
                        assert(0 <= j < i && item_bounds_bad(items[j], fields_v(tt)));
                    }
                }
                let tbl = fields_v(tt);
                assert forall|x: Seq<char>, k: int| #[trigger] top_discharged_at(items, i + 1, x, k)
                    implies has_shape(scope_lookup(self.scopes@, x), item_divine_shape(items[k], tbl)) by {
                    if k < i {
                        assert(top_discharged_at(items, i as int, x, k));
                        assert(!item_binds(items[i as int], x));
                        assert(scope_lookup(self.scopes@, x) == scope_lookup(sc, x));
                    }
                }
                if exists|j: int| 0 <= j < i + 1 && #[trigger] top_enact_unmatched(items, j, tbl) {
                    let j = choose|j: int| 0 <= j < i + 1 && #[trigger] top_enact_unmatched(items, j, tbl);
                    if j == i {
                        if let Item::Stmt(Stmt::Enact { subject, arms, .. }) = items[j] {
                            let x = path_root(subject)->0;
                            let k = choose|k: int| #[trigger] top_discharged_at(items, j, x, k)
                                && uncovered(path_shape(subject, item_divine_shape(items[k], tbl)), arms@);
                            assert(bound_shape(sc, x) == item_divine_shape(items[k], tbl));
                            assert(enact_refused(subject, arms@, sc));
                        }
                    } else {
                        assert(0 <= j < i && top_enact_unmatched(items, j, tbl));
                    }
                }
                if exists|j: int| 0 <= j < i + 1 && #[trigger] item_enact_nested(items[j], tbl) {
                    let j = choose|j: int| 0 <= j < i + 1 && #[trigger] item_enact_nested(items[j], tbl);
                    if j < i {
                        assert(0 <= j < i && item_enact_nested(items[j], tbl));
                    }
                }
            }
            i = i + 1;
        }
        assert(prog.items@.take(n as int) =~= prog.items@);
    }

    /// Records oracle models and memory scopes declared in `stmts`.
    fn collect_resources(&mut self, stmts: &Vec<Stmt>)
        requires
            old(self).inv(),
        ensures
            final(self).inv(),
            final(self).diags@ == old(self).diags@,
            final(self).mems_view() == old(self).mems_view() + mems_of(stmts@),
            final(self).oracles_view() == old(self).oracles_view() + summons_of(stmts@),
            final(self).fn_requires@ == old(self).fn_requires@,
            final(self).active_caps@ == old(self).active_caps@,
            final(self).types@ == old(self).types@,
        decreases stmts@, 1int,
    {
        let n = stmts.len();
        let mut i: usize = 0;
        assert(old(self).mems_view() + mems_of(stmts@.take(0)) =~= old(self).mems_view());
        assert(old(self).oracles_view() + summons_of(stmts@.take(0)) =~= old(self).oracles_view());
        while i < n
            invariant
                n == stmts.len(),
                i <= n,
                self.inv(),
                self.diags@ == old(self).diags@,
                self.mems_view() == old(self).mems_view() + mems_of(stmts@.take(i as int)),
                self.oracles_view() == old(self).oracles_view() + summons_of(stmts@.take(i as int)),
                self.fn_requires@ == old(self).fn_requires@,
                self.active_caps@ == old(self).active_caps@,
                self.types@ == old(self).types@,
            decreases n - i,
        {
            self.collect_stmt(&stmts[i]);
            proof {
                assert(stmts@.take(i + 1).drop_last() =~= stmts@.take(i as int));
                assert(stmts@.take(i + 1).last() == stmts@[i as int]);
                assert(self.mems_view() =~= old(self).mems_view() + mems_of(stmts@.take(i + 1)));
                assert(self.oracles_view() =~= old(self).oracles_view() + summons_of(stmts@.take(i + 1)));
            }
            i = i + 1;
        }
        assert(stmts@.take(n as int) =~= stmts@);
    }

    fn collect_stmt(&mut self, s: &Stmt)
        requires
            old(self).inv(),
        ensures
            final(self).inv(),
            final(self).diags@ == old(self).diags@,
            final(self).mems_view() == old(self).mems_view() + mems_in(*s),
            final(self).oracles_view() == old(self).oracles_view() + summons_in(*s),
            final(self).fn_requires@ == old(self).fn_requires@,
            final(self).active_caps@ == old(self).active_caps@,
            final(self).types@ == old(self).types@,
        decreases *s, 0int,
    {
        match s {
            Stmt::Summon { name, model, .. } => {
                self.oracles.push((name.clone(), model.clone()));
                assert(self.mems_view() =~= old(self).mems_view() + mems_in(*s));
                assert(self.oracles_view() =~= old(self).oracles_view() + summons_in(*s));
            },
            Stmt::MemoryDecl(m) => {
                if let Some(scope) = &m.scope {
                    self.memories.push((m.name.clone(), scope.clone()));
                }
                assert(self.mems_view() =~= old(self).mems_view() + mems_in(*s));
                assert(self.oracles_view() =~= old(self).oracles_view() + summons_in(*s));
            },
            Stmt::While { body, .. } => self.collect_resources(body),
            Stmt::Within { body, .. } => self.collect_resources(body),
            Stmt::Grant { body, .. } => self.collect_resources(body),
            Stmt::If { then_branch, else_branch, .. } => {
                self.collect_resources(then_branch);
                if let Some(eb) = else_branch {
                    self.collect_resources(eb);
                }
                assert(self.mems_view() =~= old(self).mems_view() + mems_in(*s));
                assert(self.oracles_view() =~= old(self).oracles_view() + summons_in(*s));
            },
            Stmt::Enact { arms, .. } => self.collect_arms(arms),
            _ => {
                assert(self.mems_view() =~= old(self).mems_view() + mems_in(*s));
                assert(self.oracles_view() =~= old(self).oracles_view() + summons_in(*s));
            },
        }
    }

    fn collect_arms(&mut self, arms: &Vec<EnactArm>)
        requires
            old(self).inv(),
        ensures
            final(self).inv(),
            final(self).diags@ == old(self).diags@,
            final(self).mems_view() == old(self).mems_view() + mems_arms(arms@),
            final(self).oracles_view() == old(self).oracles_view() + summons_arms(arms@),
            final(self).fn_requires@ == old(self).fn_requires@,
            final(self).active_caps@ == old(self).active_caps@,
            final(self).types@ == old(self).types@,
        decreases arms@, 1int,
    {
        let n = arms.len();
        let mut i: usize = 0;
        assert(old(self).mems_view() + mems_arms(arms@.take(0)) =~= old(self).mems_view());
        assert(old(self).oracles_view() + summons_arms(arms@.take(0)) =~= old(self).oracles_view());
        while i < n
            invariant
                n == arms.len(),
                i <= n,
                self.inv(),
                self.diags@ == old(self).diags@,
                self.mems_view() == old(self).mems_view() + mems_arms(arms@.take(i as int)),
                self.oracles_view() == old(self).oracles_view() + summons_arms(arms@.take(i as int)),
                self.fn_requires@ == old(self).fn_requires@,
                self.active_caps@ == old(self).active_caps@,
                self.types@ == old(self).types@,
            decreases n - i,
        {
            self.collect_arm(&arms[i]);
            proof {
                assert(arms@.take(i + 1).drop_last() =~= arms@.take(i as int));
                assert(arms@.take(i + 1).last() == arms@[i as int]);
                assert(self.mems_view() =~= old(self).mems_view() + mems_arms(arms@.take(i + 1)));
                assert(self.oracles_view() =~= old(self).oracles_view() + summons_arms(arms@.take(i + 1)));
            }
            i = i + 1;
        }
        assert(arms@.take(n as int) =~= arms@);
    }

    fn collect_arm(&mut self, arm: &EnactArm)
        requires
            old(self).inv(),
        ensures
            final(self).inv(),
            final(self).diags@ == old(self).diags@,
            final(self).mems_view() == old(self).mems_view() + mems_of(arm.body@),
            final(self).oracles_view() == old(self).oracles_view() + summons_of(arm.body@),
            final(self).fn_requires@ == old(self).fn_requires@,
            final(self).active_caps@ == old(self).active_caps@,
            final(self).types@ == old(self).types@,
        decreases *arm, 0int,
    {
        self.collect_resources(&arm.body);
    }

    /// A function body is checked as if its declared capabilities were
    /// granted: its `requires` clause is the obligation it puts on callers.
    fn check_fn(&mut self, f: &DefineDecl)
        requires
            old(self).inv(),
        ensures
            bounds_bad(f.body@, fields_v(old(self).types@)) ==> final(self).diags@.len() > old(self).diags@.len(),
            final(self).frame(*old(self)),
            final(self).scopes@ == old(self).scopes@,
            final(self).diags@.len() >= old(self).diags@.len() + unscoped_memories(f.body@),
            final(self).diags@.len() >= old(self).diags@.len() + block_cap_errors(
                f.body@,
                old(self).mems_view(),
                old(self).fns_view(),
                cap_ids(f.requires@),
            ),
            block_bad(f.body@) ==> final(self).diags@.len() > old(self).diags@.len(),
            cross_bad(f.body@, old(self).oracles_view()) ==> final(self).diags@.len() > old(self).diags@.len(),
            enact_bad(f.body@, fields_v(old(self).types@)) ==> final(self).diags@.len() > old(self).diags@.len(),
    {
        self.push_scope();
        let n = f.params.len();
        let mut i: usize = 0;
        while i < n
            invariant
                n == f.params.len(),
                self.inv(),
                self.scopes.len() == old(self).scopes.len() + 1,
                self.scopes@.drop_last() == old(self).scopes@,
                self.active_caps@ == old(self).active_caps@,
                self.current_familiar == old(self).current_familiar,
                self.types@ == old(self).types@,
                self.fn_requires@ == old(self).fn_requires@,
                self.oracles@ == old(self).oracles@,
                self.memories@ == old(self).memories@,
                extends(old(self).diags@, self.diags@),
            decreases n - i,
        {
            let t = match &f.params[i].ty {
                Some(te) => match resolve_type(te, &self.types) {
                    Ok(t) => t,
                    Err(_) => Type::Unknown,
                },
                None => Type::Unknown,
            };
            let ghost before = self.diags@;
            self.define(&f.params[i].name, t);
            i = i + 1;
        }
        let mut caps = clone_caps(&f.requires);
        std::mem::swap(&mut self.active_caps, &mut caps);
        let ghost before = self.diags@;
        assert(self.ids_view() == cap_ids(f.requires@));
        self.check_block(&f.body);
        proof {
            lemma_extends_trans(old(self).diags@, before, self.diags@);
        }
        std::mem::swap(&mut self.active_caps, &mut caps);
        self.pop_scope();
    }

    /// A familiar's permits ARE its grants: the body is checked with exactly
    /// these capabilities and no others, and may contain no unbounded loop.
    fn check_familiar(&mut self, fam: &FamiliarDecl)
        requires
            old(self).inv(),
        ensures
            bounds_bad(fam.body@, fields_v(old(self).types@)) ==> final(self).diags@.len() > old(self).diags@.len(),
            final(self).frame(*old(self)),
            final(self).scopes@ == old(self).scopes@,
            final(self).diags@.len() >= old(self).diags@.len() + loop_spans(fam.body@).len()
                + unscoped_memories(fam.body@),
            final(self).diags@.len() >= old(self).diags@.len()
                + unpermitted_divines(fam.body@, cap_ids(fam.permits@)),
            final(self).diags@.len() >= old(self).diags@.len() + block_cap_errors(
                fam.body@,
                old(self).mems_view(),
                old(self).fns_view(),
                cap_ids(fam.permits@),
            ),
            block_bad(fam.body@) ==> final(self).diags@.len() > old(self).diags@.len(),
            cross_bad(fam.body@, old(self).oracles_view()) ==> final(self).diags@.len() > old(self).diags@.len(),
            enact_bad(fam.body@, fields_v(old(self).types@)) ==> final(self).diags@.len() > old(self).diags@.len(),
    {
        let mut caps = clone_caps(&fam.permits);
        std::mem::swap(&mut self.active_caps, &mut caps);
        let mut name = Some(fam.name.clone());
        std::mem::swap(&mut self.current_familiar, &mut name);
        let ghost fam_caps = self.active_caps@;
        self.push_scope();
        let n = fam.params.len();
        let mut i: usize = 0;
        while i < n
            invariant
                n == fam.params.len(),
                self.inv(),
                self.active_caps@ == fam_caps,
                cap_ids(fam_caps) == cap_ids(fam.permits@),
                self.current_familiar is Some,
                self.scopes.len() == old(self).scopes.len() + 1,
                self.scopes@.drop_last() == old(self).scopes@,
                self.types@ == old(self).types@,
                self.fn_requires@ == old(self).fn_requires@,
                self.oracles@ == old(self).oracles@,
                self.memories@ == old(self).memories@,
                extends(old(self).diags@, self.diags@),
            decreases n - i,
        {
            let t = match &fam.params[i].ty {
                Some(te) => match resolve_type(te, &self.types) {
                    Ok(t) => t,
                    Err(_) => Type::Unknown,
                },
                None => Type::Unknown,
            };
            self.define(&fam.params[i].name, t);
            i = i + 1;
        }
        let ghost before = self.diags@;
        unbounded_loops(&fam.body, &fam.name, &mut self.diags);
        proof {
            let added = self.diags@.subrange(before.len() as int, self.diags@.len() as int);
            assert forall|k: int| 0 <= k < self.diags@.len() implies (#[trigger] self.diags@[k]).stage
                == Stage::Type by {
                if k >= before.len() {
                    assert(self.diags@[k] == added[k - before.len()]);
                } else {
                    assert(self.diags@[k] == self.diags@.subrange(0, before.len() as int)[k]);
                }
            }
            assert(extends(before, self.diags@));
            lemma_extends_trans(old(self).diags@, before, self.diags@);
        }
        let ghost before2 = self.diags@;
        assert(self.ids_view() == cap_ids(fam.permits@));
        self.check_block(&fam.body);
        proof {
            lemma_extends_trans(old(self).diags@, before2, self.diags@);
        }
        self.pop_scope();
        std::mem::swap(&mut self.current_familiar, &mut name);
        std::mem::swap(&mut self.active_caps, &mut caps);
    }

    /// Checks that calling `callee` is permitted: every capability it
    /// requires must be granted in the active context.
    fn check_call_caps(&mut self, callee: &String, span: Span)
        requires
            old(self).inv(),
        ensures
            final(self).frame(*old(self)),
            final(self).scopes@ == old(self).scopes@,
            final(self).diags@.len() >= old(self).diags@.len() + match fn_lookup(
                fn_views(old(self).fn_requires@),
                callee@,
            ) {
                Some(req) => missing_caps(req, cap_ids(old(self).active_caps@)),
                None => 0,
            },
    {
        let ghost fv = fn_views(self.fn_requires@);
        let ghost ids = cap_ids(self.active_caps@);
        let n = self.fn_requires.len();
        let mut found: Option<usize> = None;
        let mut i: usize = n;
        assert(fv.take(n as int) =~= fv);
        while i > 0
            invariant_except_break
                found is None,
                fn_lookup(fv, callee@) == fn_lookup(fv.take(i as int), callee@),
            invariant
                i <= n,
                n == self.fn_requires.len(),
                fv == fn_views(self.fn_requires@),
            ensures
                found is Some ==> found->0 < n && fn_lookup(fv, callee@) == Some(fv[found->0 as int].1),
                found is None ==> fn_lookup(fv, callee@) == fn_lookup(fv.take(0), callee@),
            decreases i,
        {
            i = i - 1;
            proof {
                assert(fv.take(i + 1).last() == fv[i as int]);
                assert(fv.take(i + 1).drop_last() =~= fv.take(i as int));
            }
            if self.fn_requires[i].0 == *callee {
                proof {
                    assert(fv[i as int].0 == callee@);
                    assert(fn_lookup(fv.take(i + 1), callee@) == Some(fv[i as int].1));
                    assert(fn_lookup(fv, callee@) == Some(fv[i as int].1));
                }
                found = Some(i);
                break;
            }
        }
        let idx = match found {
            Some(idx) => idx,
            None => {
                assert(self.diags@.subrange(0, old(self).diags@.len() as int) =~= old(self).diags@);
                assert(fv.take(0) =~= Seq::<(Seq<char>, Seq<CapId>)>::empty());
                return;
            },
        };
        let ghost req = fv[idx as int].1;
        let m = self.fn_requires[idx].1.len();
        let mut k: usize = 0;
        assert(req.take(0) =~= Seq::<CapId>::empty());
        while k < m
            invariant
                idx < self.fn_requires.len(),
                m == self.fn_requires@[idx as int].1.len(),
                self.frame(*old(self)),
                self.scopes@ == old(self).scopes@,
                fv == fn_views(self.fn_requires@),
                ids == cap_ids(self.active_caps@),
                req == fv[idx as int].1,
                k <= m,
                self.diags@.len() >= old(self).diags@.len() + missing_caps(req.take(k as int), ids),
            decreases m - k,
        {
            proof {
                assert(req == cap_ids(self.fn_requires@[idx as int].1@));
                lemma_granted_ids(self.active_caps@, self.fn_requires@[idx as int].1@[k as int]);
                assert(req.take(k + 1).last() == req[k as int]);
                assert(req.take(k + 1).drop_last() =~= req.take(k as int));
            }
            if !cap_granted(&self.active_caps, &self.fn_requires[idx].1[k]) {
                let msg = cap_error(&self.current_familiar, callee.as_str(), &self.fn_requires[idx].1[k]);
                let ghost before = self.diags@;
                self.report(Diagnostic::type_error(msg, span));
                proof {
                    lemma_extends_trans(old(self).diags@, before, self.diags@);
                }
            }
            k = k + 1;
        }
        assert(req.take(m as int) =~= req);
    }

    fn check_block(&mut self, body: &Vec<Stmt>)
        requires
            old(self).inv(),
        ensures
            bounds_bad(body@, fields_v(old(self).types@)) ==> final(self).diags@.len() > old(self).diags@.len(),
            quiet_block(body@) ==> final(self).diags@ == old(self).diags@,
            final(self).frame(*old(self)),
            final(self).scopes@ == old(self).scopes@,
            final(self).diags@.len() >= old(self).diags@.len() + unscoped_memories(body@),
            old(self).current_familiar is Some ==> final(self).diags@.len() >= old(self).diags@.len()
                + unpermitted_divines(body@, cap_ids(old(self).active_caps@)),
            final(self).diags@.len() >= old(self).diags@.len() + block_cap_errors(body@, old(self).mems_view(), old(self).fns_view(), old(self).ids_view()),
            block_bad(body@) ==> final(self).diags@.len() > old(self).diags@.len(),
            enact_bad(body@, fields_v(old(self).types@)) ==> final(self).diags@.len() > old(self).diags@.len(),
            cross_bad(body@, old(self).oracles_view()) ==> final(self).diags@.len() > old(self).diags@.len(),
        decreases body@, 4int,
    {
        self.push_scope();
        let n = body.len();
        let mut i: usize = 0;
        while i < n
            invariant
                n == body.len(),
                self.inv(),
                self.scopes.len() == old(self).scopes.len() + 1,
                self.scopes@.drop_last() == old(self).scopes@,
                self.active_caps@ == old(self).active_caps@,
                self.current_familiar == old(self).current_familiar,
                self.types@ == old(self).types@,
                self.fn_requires@ == old(self).fn_requires@,
                self.oracles@ == old(self).oracles@,
                self.memories@ == old(self).memories@,
                extends(old(self).diags@, self.diags@),
                i <= n,
                bounds_bad(body@.take(i as int), fields_v(old(self).types@)) ==> self.diags@.len() > old(self).diags@.len(),
                quiet_block(body@.take(i as int)) && quiet_block(body@) ==> self.diags@ == old(self).diags@,
                self.diags@.len() >= old(self).diags@.len() + unscoped_memories(body@.take(i as int)),
                old(self).current_familiar is Some ==> self.diags@.len() >= old(self).diags@.len()
                    + unpermitted_divines(body@.take(i as int), cap_ids(old(self).active_caps@)),
                self.diags@.len() >= old(self).diags@.len() + block_cap_errors(body@.take(i as int), old(self).mems_view(), old(self).fns_view(), old(self).ids_view()),
                forall|x: Seq<char>| #[trigger] live_inferred(body@, i as int, x) ==> is_inferred(scope_lookup(self.scopes@, x)),
                (exists|j: int| 0 <= j < i && #[trigger] undischarged_use(body@, j)) ==> self.diags@.len() > old(self).diags@.len(),
                nested_bad(body@.take(i as int)) ==> self.diags@.len() > old(self).diags@.len(),
                forall|x: Seq<char>, k: int| #[trigger] discharged_at(body@, i as int, x, k)
                    ==> has_shape(scope_lookup(self.scopes@, x), divine_shape(body@[k], fields_v(old(self).types@))),
                (exists|j: int| 0 <= j < i && #[trigger] enact_unmatched(body@, j, fields_v(old(self).types@)))
                    ==> self.diags@.len() > old(self).diags@.len(),
                enact_nested(body@.take(i as int), fields_v(old(self).types@)) ==> self.diags@.len() > old(self).diags@.len(),
                self.oracles_view() == old(self).oracles_view(),
                forall|x: Seq<char>| #[trigger] block_shape(body@, i as int, x, old(self).oracles_view()) is Some
                    ==> has_shape(scope_lookup(self.scopes@, x), block_shape(body@, i as int, x, old(self).oracles_view())->0),
                (exists|j: int| 0 <= j < i && #[trigger] stmt_cross(body@[j], block_env(body@, j, old(self).oracles_view()), old(self).oracles_view()))
                    ==> self.diags@.len() > old(self).diags@.len(),
                cross_nested(body@.take(i as int), old(self).oracles_view()) ==> self.diags@.len() > old(self).diags@.len(),
            decreases n - i,
        {
            let ghost before = self.diags@;
            let ghost sc = self.scopes@;
            self.check_stmt(&body[i]);
            proof {
                let sp = old(self).oracles_view();
                assert(env_le(block_env(body@, i as int, sp), scope_env(sc))) by {
                    assert forall|x: Seq<char>| #[trigger] block_env(body@, i as int, sp)(x) is Some
                        implies scope_env(sc)(x) == block_env(body@, i as int, sp)(x) by {
                        assert(block_shape(body@, i as int, x, sp) is Some);
                    }
                }
                assert forall|x: Seq<char>| #[trigger] block_shape(body@, i + 1, x, sp) is Some
                    implies has_shape(scope_lookup(self.scopes@, x), block_shape(body@, i + 1, x, sp)->0) by {
                    if binds_name(body@[i as int], x) {
                        if let Some(o) = embed_recv(body@[i as int]) {
                            if !(body@[i as int] is Summon) {
                                assert(block_shape(body@, i as int, o, sp) is Some);
                                assert(scope_env(sc)(o) == Some(TypeV::Oracle));
                            }
                        }
                    } else {
                        assert(block_shape(body@, i as int, x, sp) is Some);
                    }
                }
                if exists|j: int| 0 <= j < i + 1 && #[trigger] stmt_cross(body@[j], block_env(body@, j, sp), sp) {
                    let j = choose|j: int| 0 <= j < i + 1 && #[trigger] stmt_cross(body@[j], block_env(body@, j, sp), sp);
                    if j == i {
                        lemma_stmt_cross_mono(body@[j], block_env(body@, j, sp), scope_env(sc), sp);
                    } else {
                        assert(0 <= j < i && stmt_cross(body@[j], block_env(body@, j, sp), sp));
                    }
                }
                let tbl = fields_v(old(self).types@);
                assert forall|x: Seq<char>, k: int| #[trigger] discharged_at(body@, i + 1, x, k)
                    implies has_shape(scope_lookup(self.scopes@, x), divine_shape(body@[k], tbl)) by {
                    if k < i {
                        assert(discharged_at(body@, i as int, x, k));
                        assert(!binds_name(body@[i as int], x));
                    }
                }
                if exists|j: int| 0 <= j < i + 1 && #[trigger] enact_unmatched(body@, j, tbl) {
                    let j = choose|j: int| 0 <= j < i + 1 && #[trigger] enact_unmatched(body@, j, tbl);
                    if j == i {
                        if let Stmt::Enact { subject, arms, .. } = body@[j] {
                            let x = path_root(subject)->0;
                            let k = choose|k: int| #[trigger] discharged_at(body@, j, x, k)
                                && uncovered(path_shape(subject, divine_shape(body@[k], tbl)), arms@);
                            assert(bound_shape(sc, x) == divine_shape(body@[k], tbl));
                            assert(enact_refused(subject, arms@, sc));
                        }
                    } else {
                        assert(0 <= j < i && enact_unmatched(body@, j, tbl));
                    }
                }
                assert(body@.take(i + 1).drop_last() =~= body@.take(i as int));
                lemma_extends_trans(old(self).diags@, before, self.diags@);
                assert(body@.take(i + 1).drop_last() =~= body@.take(i as int));
                assert(body@.take(i + 1).last() == body@[i as int]);
                assert forall|x: Seq<char>| #[trigger] live_inferred(body@, i + 1, x) implies is_inferred(
                    scope_lookup(self.scopes@, x),
                ) by {
                    lemma_live_step(body@, i as int, x);
                    if !undischarged(body@[i as int], x) {
                        assert(scope_lookup(self.scopes@, x) == scope_lookup(sc, x));
                    }
                }
                if exists|j: int| 0 <= j < i + 1 && #[trigger] undischarged_use(body@, j) {
                    let j = choose|j: int| 0 <= j < i + 1 && #[trigger] undischarged_use(body@, j);
                    if j == i {
                        let x = choose|x: Seq<char>| #[trigger] live_inferred(body@, j, x) && stmt_reads(body@[j], x);
                        assert(is_inferred(scope_lookup(sc, x)));
                        assert(stmt_reads(body@[i as int], x));
                    } else {
                        assert(0 <= j < i && undischarged_use(body@, j));
                    }
                }
            }
            i = i + 1;
        }
        assert(body@.take(n as int) =~= body@);
        self.pop_scope();
    }

    fn check_stmt(&mut self, s: &Stmt)
        requires
            old(self).inv(),
        ensures
            stmt_bounds_bad(*s, fields_v(old(self).types@)) ==> final(self).diags@.len() > old(self).diags@.len(),
            final(self).frame(*old(self)),
            final(self).scopes@.drop_last() == old(self).scopes@.drop_last(),
            quiet_stmt(*s) ==> final(self).diags@ == old(self).diags@,
            forall|n: Seq<char>| #[trigger] stmt_reads(*s, n) && is_inferred(scope_lookup(old(self).scopes@, n)) ==> final(self).diags@.len() > old(self).diags@.len(),
            stmt_nested_bad(*s) ==> final(self).diags@.len() > old(self).diags@.len(),
            forall|n: Seq<char>|
                !binds_name(*s, n) ==> #[trigger] scope_lookup(final(self).scopes@, n) == scope_lookup(old(self).scopes@, n),
            *s matches Stmt::Divine(d) ==> (d.threshold is None ==> is_inferred(
                scope_lookup(final(self).scopes@, d.name@),
            )),
            *s matches Stmt::Divine(d) ==> (d.threshold is Some ==> has_shape(
                scope_lookup(final(self).scopes@, d.name@),
                resolved_or_unknown(d.out_ty, fields_v(old(self).types@)),
            )),
            final(self).diags@.len() >= old(self).diags@.len() + stmt_unscoped(*s),
            old(self).current_familiar is Some ==> final(self).diags@.len() >= old(self).diags@.len()
                + stmt_unpermitted(*s, cap_ids(old(self).active_caps@)),
            final(self).diags@.len() >= old(self).diags@.len() + stmt_cap_errors(*s, old(self).mems_view(), old(self).fns_view(), old(self).ids_view()),
            (*s matches Stmt::Enact { subject, arms, .. } && enact_refused(subject, arms@, old(self).scopes@))
                ==> final(self).diags@.len() > old(self).diags@.len(),
            stmt_enact_nested(*s, fields_v(old(self).types@)) ==> final(self).diags@.len() > old(self).diags@.len(),
            stmt_cross_nested(*s, old(self).oracles_view()) ==> final(self).diags@.len() > old(self).diags@.len(),
            stmt_cross(*s, scope_env(old(self).scopes@), old(self).oracles_view()) ==> final(self).diags@.len() > old(self).diags@.len(),
            binding_shaped(*s, final(self).scopes@, scope_env(old(self).scopes@), old(self).oracles_view()),
        decreases *s, 5int,
    {
        proof {
            assert(self.diags@.subrange(0, self.diags@.len() as int) =~= self.diags@);
        }
        match s {
            Stmt::Let { name, ty, value, .. } => self.check_binding(name, ty, value),
            Stmt::Var { name, ty, value, .. } => self.check_binding(name, ty, value),
            Stmt::Assign { value, .. } => {
                self.infer(value);
            },
            Stmt::Speak { value, .. } => {
                self.infer(value);
            },
            Stmt::While { cond, body, .. } => {
                self.infer(cond);
                let ghost before = self.diags@;
                self.check_block(body);
                proof {
                    lemma_extends_trans(old(self).diags@, before, self.diags@);
                }
            },
            Stmt::If { cond, then_branch, else_branch, .. } => {
                self.infer(cond);
                let ghost b1 = self.diags@;
                self.check_block(then_branch);
                proof {
                    lemma_extends_trans(old(self).diags@, b1, self.diags@);
                }
                if let Some(eb) = else_branch {
                    let ghost b2 = self.diags@;
                    self.check_block(eb);
                    proof {
                        lemma_extends_trans(old(self).diags@, b2, self.diags@);
                    }
                }
            },
            Stmt::Summon { name, .. } => {
                let ghost sc0 = self.scopes@;
                self.define(name, Type::Oracle);
                proof {
                    lemma_define_lookup(sc0, self.scopes@, name@, Type::Oracle);
                }
            },
            Stmt::Return { value, .. } => {
                if let Some(v) = value {
                    self.infer(v);
                }
            },
            Stmt::Divine(d) => self.check_divine(d),
            Stmt::Enact { subject, arms, span } => self.check_enact(subject, arms, *span),
            Stmt::MemoryDecl(m) => {
                if let Some(d) = memory_scope_error(m) {
                    self.report(d);
                }
            },
            Stmt::Within { scope, body, .. } => {
                // `within <scope>` grants `scope(<scope>)` to its body only.
                self.active_caps.push(
                    Capability { kind: owned("scope"), param: Some(scope.clone()), span: Span::new(0, 0) },
                );
                assert(cap_ids(self.active_caps@) =~= cap_ids(old(self).active_caps@).push(("scope"@, Some(scope@))));
                let ghost before = self.diags@;
                let ghost caps = self.active_caps@;
                self.check_block(body);
                proof {
                    lemma_extends_trans(old(self).diags@, before, self.diags@);
                }
                self.active_caps.pop();
                assert(self.active_caps@ =~= old(self).active_caps@);
            },
            Stmt::Grant { caps, body, .. } => {
                // A grant region's capabilities hold in its body only.
                let k = caps.len();
                let mut i: usize = 0;
                while i < k
                    invariant
                        k == caps.len(),
                        i <= k,
                        self.active_caps@.len() == old(self).active_caps@.len() + i,
                        self.active_caps@.subrange(0, old(self).active_caps@.len() as int)
                            == old(self).active_caps@,
                        self.frame_except_caps(*old(self)),
                        self.scopes@ == old(self).scopes@,
                        self.diags@ == old(self).diags@,
                        forall|j: int| 0 <= j < i ==> cap_id(
                            #[trigger] self.active_caps@[old(self).active_caps@.len() + j],
                        ) == cap_id(caps@[j]),
                    decreases k - i,
                {
                    let c = clone_cap(&caps[i]);
                    let ghost prev = self.active_caps@;
                    self.active_caps.push(c);
                    assert(self.active_caps@.subrange(0, old(self).active_caps@.len() as int)
                        =~= old(self).active_caps@);
                    assert forall|j: int| 0 <= j < i + 1 implies cap_id(
                        #[trigger] self.active_caps@[old(self).active_caps@.len() + j],
                    ) == cap_id(caps@[j]) by {
                        if j < i {
                            assert(self.active_caps@[old(self).active_caps@.len() + j]
                                == prev[old(self).active_caps@.len() + j]);
                        }
                    }
                    i = i + 1;
                }
                assert forall|j: int| 0 <= j < old(self).active_caps@.len() implies
                    self.active_caps@[j] == old(self).active_caps@[j] by {
                    assert(self.active_caps@[j] == self.active_caps@.subrange(0, old(self).active_caps@.len() as int)[j]);
                }
                assert forall|j: int| 0 <= j < self.active_caps@.len() implies cap_ids(self.active_caps@)[j]
                    == (cap_ids(old(self).active_caps@) + cap_ids(caps@))[j] by {
                    let ol = old(self).active_caps@.len() as int;
                    if j >= ol {
                        let jj = j - ol;
                        assert(cap_id(self.active_caps@[ol + jj]) == cap_id(caps@[jj]));
                    }
                }
                assert(cap_ids(self.active_caps@) =~= cap_ids(old(self).active_caps@) + cap_ids(caps@));
                let ghost before = self.diags@;
                self.check_block(body);
                proof {
                    lemma_extends_trans(old(self).diags@, before, self.diags@);
                }
                let keep = self.active_caps.len() - k;
                self.active_caps.truncate(keep);
                assert(self.active_caps@ =~= old(self).active_caps@);
            },
            Stmt::Expr(e) => {
                self.infer(e);
            },
        }
    }

    pub closed spec fn frame_except_caps(&self, prev: Checker) -> bool {
        &&& self.inv()
        &&& self.scopes.len() == prev.scopes.len()
        &&& self.current_familiar == prev.current_familiar
        &&& self.types@ == prev.types@
        &&& self.fn_requires@ == prev.fn_requires@
        &&& self.oracles@ == prev.oracles@
        &&& self.memories@ == prev.memories@
        &&& extends(prev.diags@, self.diags@)
    }

    /// `let` / `var`: an annotated binding is checked against its type.
    fn check_binding(&mut self, name: &String, ty: &Option<TypeExpr>, value: &Expr)
        requires
            old(self).inv(),
        ensures
            binding_refused(*ty, *value, fields_v(old(self).types@)) ==> final(self).diags@.len() > old(self).diags@.len(),
            final(self).frame(*old(self)),
            final(self).scopes@.drop_last() == old(self).scopes@.drop_last(),
            ty is None && quiet_expr(*value) ==> final(self).diags@ == old(self).diags@,
            ty is None ==> forall|n: Seq<char>| #[trigger] reads_field(*value, n) && is_inferred(scope_lookup(old(self).scopes@, n)) ==> final(self).diags@.len() > old(self).diags@.len(),
            forall|n: Seq<char>|
                n != name@ ==> #[trigger] scope_lookup(final(self).scopes@, n) == scope_lookup(old(self).scopes@, n),
            ty is None ==> final(self).diags@.len() >= old(self).diags@.len() + expr_cap_errors(*value, old(self).mems_view(), old(self).fns_view(), old(self).ids_view()),
            ty is None ==> shape_bound(known_shape(*value, scope_env(old(self).scopes@), old(self).oracles_view()), scope_lookup(final(self).scopes@, name@)),
            (ty is None && expr_cross(*value, scope_env(old(self).scopes@), old(self).oracles_view())) ==> final(self).diags@.len() > old(self).diags@.len(),
    {
        let ghost before = self.diags@;
        let bound = match ty {
            Some(te) => match resolve_type(te, &self.types) {
                Ok(t) => {
                    self.check_against(value, &t);
                    t
                },
                Err(d) => {
                    self.report(d);
                    Type::Unknown
                },
            },
            None => self.infer(value),
        };
        let ghost mid = self.diags@;
        let ghost sc0 = self.scopes@;
        let ghost bt = bound;
        self.define(name, bound);
        proof {
            lemma_define_lookup(sc0, self.scopes@, name@, bt);
        }
        proof {
            lemma_extends_trans(old(self).diags@, mid, self.diags@);
        }
    }

    fn check_divine(&mut self, d: &DivineStmt)
        requires
            old(self).inv(),
        ensures
            final(self).frame(*old(self)),
            final(self).scopes@.drop_last() == old(self).scopes@.drop_last(),
            forall|n: Seq<char>| #[trigger] stmt_reads(Stmt::Divine(*d), n) && is_inferred(scope_lookup(old(self).scopes@, n)) ==> final(self).diags@.len() > old(self).diags@.len(),
            forall|n: Seq<char>|
                n != d.name@ ==> #[trigger] scope_lookup(final(self).scopes@, n) == scope_lookup(old(self).scopes@, n),
            d.threshold is None ==> is_inferred(scope_lookup(final(self).scopes@, d.name@)),
            (exprs_cross(d.inputs@, scope_env(old(self).scopes@), old(self).oracles_view()) || (d.fallback matches Some(f) && expr_cross(f, scope_env(old(self).scopes@), old(self).oracles_view()))) ==> final(self).diags@.len() > old(self).diags@.len(),
            d.threshold is Some ==> has_shape(
                scope_lookup(final(self).scopes@, d.name@),
                resolved_or_unknown(d.out_ty, fields_v(old(self).types@)),
            ),
            old(self).current_familiar is Some && !cap_ids(old(self).active_caps@).contains(invoke_id(d.oracle@))
                ==> final(self).diags@.len() >= old(self).diags@.len() + 1,
            final(self).diags@.len() >= old(self).diags@.len() + exprs_cap_errors(d.inputs@, old(self).mems_view(), old(self).fns_view(), old(self).ids_view()) + match d.fallback {
                Some(f) => expr_cap_errors(f, old(self).mems_view(), old(self).fns_view(), old(self).ids_view()),
                None => 0,
            },
    {
        let out = match resolve_type(&d.out_ty, &self.types) {
            Ok(t) => t,
            Err(_) => Type::Unknown,
        };
        if !matches!(out, Type::Unknown) {
            if let Err(diag) = compile(&out, false, d.out_ty.span()) {
                self.report(diag);
            }
        }
        let ghost b1 = self.diags@;
        match self.lookup(&d.oracle) {
            Some(t) => {
                match t {
                    Type::Oracle => {},
                    Type::Unknown => {},
                    other => {
                        let mut m = owned("`");
                        push_str(&mut m, d.oracle.as_str());
                        push_str(&mut m, "` is a ");
                        let shown = other.display();
                        push_str(&mut m, shown.as_str());
                        push_str(&mut m, ", not an oracle");
                        self.report(Diagnostic::type_error(m, d.oracle_span));
                    },
                }
            },
            None => {
                let mut m = owned("unknown oracle `");
                push_str(&mut m, d.oracle.as_str());
                push_str(&mut m, "`");
                self.report(Diagnostic::type_error(m, d.oracle_span));
            },
        }
        proof {
            lemma_extends_trans(old(self).diags@, b1, self.diags@);
        }
        // Inside a familiar, invoking an oracle needs the `invoke <oracle>` permit.
        if self.current_familiar.is_some() {
            let cap = Capability { kind: owned("invoke"), param: Some(d.oracle.clone()), span: d.oracle_span };
            proof {
                lemma_granted_ids(self.active_caps@, cap);
                assert(cap_id(cap) == invoke_id(d.oracle@));
            }
            if !cap_granted(&self.active_caps, &cap) {
                let mut op = owned("divine using ");
                push_str(&mut op, d.oracle.as_str());
                let msg = cap_error(&self.current_familiar, op.as_str(), &cap);
                let ghost b2 = self.diags@;
                self.report(Diagnostic::type_error(msg, d.oracle_span));
                proof {
                    lemma_extends_trans(old(self).diags@, b2, self.diags@);
                }
            }
        }
        let ghost b3 = self.diags@;
        self.infer_all(&d.inputs);
        proof {
            lemma_extends_trans(old(self).diags@, b3, self.diags@);
        }
        // The fallback is what runs when discharge fails; it is not bound to
        // the result, so it is checked on its own.
        if let Some(fb) = &d.fallback {
            let ghost b4 = self.diags@;
            self.infer(fb);
            proof {
                lemma_extends_trans(old(self).diags@, b4, self.diags@);
            }
        }
        // Discharged: plain T. Not discharged: Inferred<T>.
        let bound = if d.threshold.is_some() {
            out
        } else {
            Type::Inferred(Box::new(out))
        };
        let ghost b5 = self.diags@;
        let ghost sc0 = self.scopes@;
        let ghost bt = bound;
        self.define(&d.name, bound);
        proof {
            lemma_extends_trans(old(self).diags@, b5, self.diags@);
            lemma_define_lookup(sc0, self.scopes@, d.name@, bt);
        }
    }

    fn check_enact(&mut self, subject: &Expr, arms: &Vec<EnactArm>, span: Span)
        requires
            old(self).inv(),
        ensures
            final(self).frame(*old(self)),
            final(self).scopes@ == old(self).scopes@,
            forall|n: Seq<char>| #[trigger] stmt_reads(Stmt::Enact { subject: *subject, arms: *arms, span }, n) && is_inferred(scope_lookup(old(self).scopes@, n)) ==> final(self).diags@.len() > old(self).diags@.len(),
            final(self).diags@.len() >= old(self).diags@.len() + expr_cap_errors(*subject, old(self).mems_view(), old(self).fns_view(), old(self).ids_view()),
            enact_refused(*subject, arms@, old(self).scopes@) ==> final(self).diags@.len() > old(self).diags@.len(),
            expr_cross(*subject, scope_env(old(self).scopes@), old(self).oracles_view()) ==> final(self).diags@.len() > old(self).diags@.len(),
        decreases arms@, 4int,
    {
        let st = self.infer(subject);
        let ghost b1 = self.diags@;
        let variants = match st {
            Type::Inferred(_) => {
                self.report(Diagnostic::type_error(
                    owned("this value is inferred and must be discharged (with confidence >= …) before `enact`"),
                    subject.span(),
                ));
                proof {
                    lemma_extends_trans(old(self).diags@, b1, self.diags@);
                }
                return;
            },
            Type::Sum(v) => v,
            Type::Unknown => {
                return;
            },
            other => {
                let mut m = owned("`enact` requires a variant (one_of) value, found ");
                let shown = other.display();
                push_str(&mut m, shown.as_str());
                self.report(Diagnostic::type_error(m, subject.span()));
                proof {
                    lemma_extends_trans(old(self).diags@, b1, self.diags@);
                }
                return;
            },
        };
        let cov = enact_coverage(&variants, arms, span);
        let ghost b2 = self.diags@;
        proof {
            if enact_refused(*subject, arms@, old(self).scopes@) {
                assert(type_v(st) == TypeV::Sum(variants_v(variants@)));
                lemma_uncovered_reported(variants@, arms@);
                assert(messages(cov@).len() == cov@.len());
            }
        }
        self.report_all(cov);
        proof {
            lemma_extends_trans(old(self).diags@, b1, self.diags@);
        }
        let n = arms.len();
        let mut i: usize = 0;
        while i < n
            invariant
                n == arms.len(),
                self.frame(*old(self)),
                self.scopes@ == old(self).scopes@,
                self.diags@.len() >= old(self).diags@.len() + expr_cap_errors(
                    *subject,
                    old(self).mems_view(),
                    old(self).fns_view(),
                    old(self).ids_view(),
                ),
                forall|n: Seq<char>|
                    #[trigger] stmt_reads(Stmt::Enact { subject: *subject, arms: *arms, span }, n)
                        && is_inferred(scope_lookup(old(self).scopes@, n)) ==> self.diags@.len() > old(self).diags@.len(),
                enact_refused(*subject, arms@, old(self).scopes@) ==> self.diags@.len() > old(self).diags@.len(),
                expr_cross(*subject, scope_env(old(self).scopes@), old(self).oracles_view()) ==> self.diags@.len() > old(self).diags@.len(),
            decreases n - i,
        {
            let ghost before = self.diags@;
            self.check_arm(&arms[i], &variants);
            proof {
                lemma_extends_trans(old(self).diags@, before, self.diags@);
            }
            i = i + 1;
        }
    }

    /// An arm's body, with its bindings typed by the variant's fields.
    fn check_arm(&mut self, arm: &EnactArm, variants: &Vec<Variant>)
        requires
            old(self).inv(),
        ensures
            final(self).frame(*old(self)),
            final(self).scopes@ == old(self).scopes@,
            final(self).diags@.len() >= old(self).diags@.len() + unscoped_memories(arm.body@),
            old(self).current_familiar is Some ==> final(self).diags@.len() >= old(self).diags@.len()
                + unpermitted_divines(arm.body@, cap_ids(old(self).active_caps@)),
            final(self).diags@.len() >= old(self).diags@.len() + block_cap_errors(arm.body@, old(self).mems_view(), old(self).fns_view(), old(self).ids_view()),
            nested_bad(arm.body@) ==> final(self).diags@.len() > old(self).diags@.len(),
            enact_nested(arm.body@, fields_v(old(self).types@)) ==> final(self).diags@.len() > old(self).diags@.len(),
            cross_nested(arm.body@, old(self).oracles_view()) ==> final(self).diags@.len() > old(self).diags@.len(),
        decreases *arm, 3int,
    {
        self.push_scope();
        let nv = variants.len();
        let mut vi: usize = 0;
        let mut found: Option<usize> = None;
        while vi < nv
            invariant
                nv == variants.len(),
                found is Some ==> found->0 < nv,
            decreases nv - vi,
        {
            if variants[vi].name == arm.variant {
                found = Some(vi);
                break;
            }
            vi = vi + 1;
        }
        if let Some(v) = found {
            let nb = arm.bindings.len();
            let mut b: usize = 0;
            while b < nb
                invariant
                    nb == arm.bindings.len(),
                    v < variants.len(),
                    self.inv(),
                    self.scopes.len() == old(self).scopes.len() + 1,
                    self.scopes@.drop_last() == old(self).scopes@,
                    self.active_caps@ == old(self).active_caps@,
                    self.current_familiar == old(self).current_familiar,
                    self.types@ == old(self).types@,
                    self.fn_requires@ == old(self).fn_requires@,
                    self.oracles@ == old(self).oracles@,
                    self.memories@ == old(self).memories@,
                    self.diags@ == old(self).diags@,
                decreases nb - b,
            {
                let t = if b < variants[v].fields.len() {
                    clone_type(&variants[v].fields[b].1)
                } else {
                    Type::Unknown
                };
                self.define(&arm.bindings[b], t);
                b = b + 1;
            }
        }
        let n = arm.body.len();
        let mut i: usize = 0;
        while i < n
            invariant
                n == arm.body.len(),
                self.inv(),
                self.scopes.len() == old(self).scopes.len() + 1,
                self.scopes@.drop_last() == old(self).scopes@,
                self.active_caps@ == old(self).active_caps@,
                self.current_familiar == old(self).current_familiar,
                self.types@ == old(self).types@,
                self.fn_requires@ == old(self).fn_requires@,
                self.oracles@ == old(self).oracles@,
                self.memories@ == old(self).memories@,
                extends(old(self).diags@, self.diags@),
                i <= n,
                self.diags@.len() >= old(self).diags@.len() + unscoped_memories(arm.body@.take(i as int)),
                old(self).current_familiar is Some ==> self.diags@.len() >= old(self).diags@.len()
                    + unpermitted_divines(arm.body@.take(i as int), cap_ids(old(self).active_caps@)),
                self.diags@.len() >= old(self).diags@.len() + block_cap_errors(arm.body@.take(i as int), old(self).mems_view(), old(self).fns_view(), old(self).ids_view()),
                nested_bad(arm.body@.take(i as int)) ==> self.diags@.len() > old(self).diags@.len(),
                enact_nested(arm.body@.take(i as int), fields_v(old(self).types@)) ==> self.diags@.len() > old(self).diags@.len(),
                cross_nested(arm.body@.take(i as int), old(self).oracles_view()) ==> self.diags@.len() > old(self).diags@.len(),
                self.oracles_view() == old(self).oracles_view(),
            decreases n - i,
        {
            let ghost before = self.diags@;
            self.check_arm_stmt(&arm.body, i);
            proof {
                lemma_extends_trans(old(self).diags@, before, self.diags@);
                assert(arm.body@.take(i + 1).drop_last() =~= arm.body@.take(i as int));
                assert(arm.body@.take(i + 1).last() == arm.body@[i as int]);
            }
            i = i + 1;
        }
        assert(arm.body@.take(n as int) =~= arm.body@);
        self.pop_scope();
    }

    fn check_arm_stmt(&mut self, body: &Vec<Stmt>, i: usize)
        requires
            old(self).inv(),
            i < body.len(),
        ensures
            final(self).frame(*old(self)),
            final(self).scopes@.drop_last() == old(self).scopes@.drop_last(),
            final(self).diags@.len() >= old(self).diags@.len() + stmt_unscoped(body@[i as int]),
            old(self).current_familiar is Some ==> final(self).diags@.len() >= old(self).diags@.len()
                + stmt_unpermitted(body@[i as int], cap_ids(old(self).active_caps@)),
            final(self).diags@.len() >= old(self).diags@.len() + stmt_cap_errors(body@[i as int], old(self).mems_view(), old(self).fns_view(), old(self).ids_view()),
            stmt_nested_bad(body@[i as int]) ==> final(self).diags@.len() > old(self).diags@.len(),
            stmt_enact_nested(body@[i as int], fields_v(old(self).types@)) ==> final(self).diags@.len() > old(self).diags@.len(),
            stmt_cross_nested(body@[i as int], old(self).oracles_view()) ==> final(self).diags@.len() > old(self).diags@.len(),
            forall|n: Seq<char>|
                !binds_name(body@[i as int], n) ==> #[trigger] scope_lookup(final(self).scopes@, n) == scope_lookup(old(self).scopes@, n),
        decreases body@, 2int,
    {
        self.check_stmt(&body[i]);
    }

    fn infer_all(&mut self, es: &Vec<Expr>)
        requires
            old(self).inv(),
        ensures
            final(self).frame(*old(self)),
            final(self).scopes@ == old(self).scopes@,
            exprs_cross(es@, scope_env(old(self).scopes@), old(self).oracles_view()) ==> final(self).diags@.len() > old(self).diags@.len(),
            forall|n: Seq<char>| #[trigger] exprs_read(es@, n) && is_inferred(scope_lookup(old(self).scopes@, n)) ==> final(self).diags@.len() > old(self).diags@.len(),
            final(self).diags@.len() >= old(self).diags@.len() + exprs_cap_errors(es@, old(self).mems_view(), old(self).fns_view(), old(self).ids_view()),
    {
        let n = es.len();
        let mut i: usize = 0;
        while i < n
            invariant
                n == es.len(),
                self.frame(*old(self)),
                self.scopes@ == old(self).scopes@,
                i <= n,
                self.diags@.len() >= old(self).diags@.len() + exprs_cap_errors(es@.take(i as int), old(self).mems_view(), old(self).fns_view(), old(self).ids_view()),
                forall|n: Seq<char>| #[trigger] exprs_read(es@.take(i as int), n) && is_inferred(scope_lookup(old(self).scopes@, n)) ==> self.diags@.len() > old(self).diags@.len(),
                exprs_cross(es@.take(i as int), scope_env(old(self).scopes@), old(self).oracles_view()) ==> self.diags@.len() > old(self).diags@.len(),
            decreases n - i,
        {
            let ghost before = self.diags@;
            self.infer(&es[i]);
            proof {
                lemma_extends_trans(old(self).diags@, before, self.diags@);
                assert(es@.take(i + 1).drop_last() =~= es@.take(i as int));
                assert(es@.take(i + 1).last() == es@[i as int]);
                if exprs_cross(es@.take(i + 1), scope_env(old(self).scopes@), old(self).oracles_view()) && !exprs_cross(es@.take(i as int), scope_env(old(self).scopes@), old(self).oracles_view()) {
                    assert(expr_cross(es@[i as int], scope_env(old(self).scopes@), old(self).oracles_view()));
                }
                assert forall|n: Seq<char>| #[trigger] exprs_read(es@.take(i + 1), n) && is_inferred(scope_lookup(old(self).scopes@, n))
                    implies self.diags@.len() > old(self).diags@.len() by {
                    if !exprs_read(es@.take(i as int), n) {
                        assert(reads_field(es@[i as int], n));
                    }
                }
            }
            i = i + 1;
        }
        assert(es@.take(n as int) =~= es@);
    }

    fn infer(&mut self, e: &Expr) -> (t: Type)
        requires
            old(self).inv(),
        ensures
            final(self).frame(*old(self)),
            final(self).scopes@ == old(self).scopes@,
            quiet_expr(*e) ==> final(self).diags@ == old(self).diags@,
            forall|n: Seq<char>| #[trigger] reads_field(*e, n) && is_inferred(scope_lookup(old(self).scopes@, n)) ==> final(self).diags@.len() > old(self).diags@.len(),
            *e matches Expr::Ident(x, _) ==> (t is Inferred <==> is_inferred(scope_lookup(old(self).scopes@, x@))),
            path_root(*e) matches Some(x) ==> type_v(t) == path_shape(*e, bound_shape(old(self).scopes@, x)),
            shape_is(known_shape(*e, scope_env(old(self).scopes@), old(self).oracles_view()), t),
            expr_cross(*e, scope_env(old(self).scopes@), old(self).oracles_view()) ==> final(self).diags@.len() > old(self).diags@.len(),
            final(self).diags@.len() >= old(self).diags@.len() + expr_cap_errors(*e, old(self).mems_view(), old(self).fns_view(), old(self).ids_view()),
    {
        self.infer_expr(e)
    }
}

fn clone_cap(c: &Capability) -> (r: Capability)
    ensures
        cap_id(r) == cap_id(*c),
{
    let param = match &c.param {
        Some(p) => Some(p.clone()),
        None => None,
    };
    Capability { kind: c.kind.clone(), param, span: c.span }
}

fn clone_caps(cs: &Vec<Capability>) -> (r: Vec<Capability>)
    ensures
        cap_ids(r@) == cap_ids(cs@),
{
    let mut out: Vec<Capability> = Vec::new();
    let n = cs.len();
    let mut i: usize = 0;
    while i < n
        invariant
            n == cs.len(),
            i <= n,
            out@.len() == i,
            forall|j: int| 0 <= j < i ==> cap_id(#[trigger] out@[j]) == cap_id(cs@[j]),
        decreases n - i,
    {
        out.push(clone_cap(&cs[i]));
        i = i + 1;
    }
    assert(cap_ids(out@) =~= cap_ids(cs@));
    out
}

// ------------------------------------------------------------ expressions

pub open spec fn refinement_msg(value: Seq<char>, bound: Seq<char>) -> Seq<char> {
    "value "@ + value + " is outside the refinement bound "@ + bound
}

/// Is the number `n` within the (optional) bounds `lo..hi`?
pub open spec fn within_bounds(n: Num, lo: Option<Num>, hi: Option<Num>) -> bool {
    (match lo {
        Some(l) => l.spec_le(n),
        None => true,
    }) && (match hi {
        Some(h) => n.spec_le(h),
        None => true,
    })
}

/// A literal lies within a refinement exactly when the one-point range of
/// the literal fits it as a type; on whole numbers, exactly when
/// `lo <= n <= hi`.
pub proof fn lemma_within_bounds_is_fitting(n: Num, lo: Option<Num>, hi: Option<Num>)
    ensures
        within_bounds(n, lo, hi) <==> crate::types::assignable(
            Type::Spark { lo: Some(n), hi: Some(n) },
            Type::Spark { lo, hi },
        ),
        lo matches Some(l) ==> (n.spec_scale() == 0 && l.spec_scale() == 0 ==> (within_bounds(n, lo, None)
            <==> l.spec_mantissa() <= n.spec_mantissa())),
        hi matches Some(h) ==> (n.spec_scale() == 0 && h.spec_scale() == 0 ==> (within_bounds(n, None, hi)
            <==> n.spec_mantissa() <= h.spec_mantissa())),
{
    if let Some(l) = lo {
        if n.spec_scale() == 0 && l.spec_scale() == 0 {
            l.lemma_le_whole(n);
        }
    }
    if let Some(h) = hi {
        if n.spec_scale() == 0 && h.spec_scale() == 0 {
            n.lemma_le_whole(h);
        }
    }
}

/// Checking `e` against the expected type `t` must report an error: a
/// numeric literal outside a refinement (or not assignable), a boolean or
/// glyph literal not assignable to `t`, a record literal with an unknown or
/// missing field or a field value refused against its declared type, a list
/// literal with an item refused against the element type, or a variant
/// literal naming no variant of `t` or with a payload refused by position.
pub open spec fn against_rejects(e: Expr, t: Type) -> bool
    decreases e, 1int,
{
    match e {
        Expr::Number(n, _) => match t {
            Type::Spark { lo, hi } => !within_bounds(n, lo, hi),
            _ => !crate::types::assignable(Type::Spark { lo: Some(n), hi: Some(n) }, t),
        },
        Expr::Bool(_, _) => !crate::types::assignable(Type::Bool, t),
        Expr::Str(_, _) => !crate::types::assignable(Type::Glyph, t),
        Expr::Record { fields, .. } => match t {
            Type::Record(efs) => record_rejects(fields@, efs@),
            _ => false,
        },
        Expr::List { items, .. } => match t {
            Type::List { elem, .. } => items_reject(items@, *elem),
            _ => false,
        },
        Expr::Variant { name, fields, .. } => match t {
            Type::Sum(vs) => !has_variant(vs@, name@) || exists|k: int|
                0 <= k < vs@.len() && (#[trigger] vs@[k]).name@ == name@ && (forall|m: int|
                    0 <= m < k ==> vs@[m].name@ != name@) && positional_reject(fields@, vs@[k].fields@),
            _ => false,
        },
        _ => false,
    }
}

/// Some item is refused against the element type.
pub open spec fn items_reject(es: Seq<Expr>, t: Type) -> bool
    decreases es, 0int,
{
    es.len() > 0 && (items_reject(es.drop_last(), t) || against_rejects(es.last(), t))
}

/// Some payload is refused against the field type at its position.
pub open spec fn positional_reject(fs: Seq<(String, Expr)>, tys: Seq<(String, Type)>) -> bool
    decreases fs, 0int,
{
    fs.len() > 0 && (positional_reject(fs.drop_last(), tys) || (fs.len() - 1 < tys.len() && against_rejects(
        fs.last().1,
        tys[fs.len() - 1].1,
    )))
}

/// A record literal's fields are refused against the declared fields.
pub open spec fn record_rejects(fs: Seq<(String, Expr)>, efs: Seq<(String, Type)>) -> bool
    decreases fs, 1int,
{
    fields_refused(fs, efs) || exists|j: int|
        0 <= j < efs.len() && !(exists|i: int| 0 <= i < fs.len() && (#[trigger] fs[i]).0@ == (#[trigger] efs[j]).0@)
}

/// Some field is unknown, or its value is refused against the first declared
/// field of its name.
pub open spec fn fields_refused(fs: Seq<(String, Expr)>, efs: Seq<(String, Type)>) -> bool
    decreases fs, 0int,
{
    fs.len() > 0 && (fields_refused(fs.drop_last(), efs) || {
        let k = crate::types::first_field(efs, fs.last().0@);
        k < 0 || against_rejects(fs.last().1, efs[k].1)
    })
}

proof fn lemma_positional_prefix(fs: Seq<(String, Expr)>, tys: Seq<(String, Type)>, k: nat)
    requires
        k <= fs.len(),
        k == fs.len() || k >= tys.len(),
    ensures
        positional_reject(fs, tys) ==> positional_reject(fs.take(k as int), tys),
    decreases fs.len() - k,
{
    if k < fs.len() {
        lemma_positional_prefix(fs, tys, k + 1);
        assert(fs.take(k + 1int).drop_last() =~= fs.take(k as int));
    } else {
        assert(fs.take(k as int) =~= fs);
    }
}

/// The error for a numeric literal against a refined `spark`: only when the
/// literal lies outside the bounds.
pub fn refinement_error(n: &Num, lo: &Option<Num>, hi: &Option<Num>, expected: &Type, span: Span) -> (r: Option<Diagnostic>)
    ensures
        r is Some <==> !within_bounds(*n, *lo, *hi),
        r is Some ==> r->0.stage == Stage::Type && r->0.message@ == refinement_msg(
            n.spec_text(),
            crate::types::type_text(*expected),
        ),
{
    let lo_ok = match lo {
        Some(l) => l.le(n),
        None => true,
    };
    let hi_ok = match hi {
        Some(h) => n.le(h),
        None => true,
    };
    if lo_ok && hi_ok {
        None
    } else {
        let mut m = owned("value ");
        let shown = n.text();
        push_str(&mut m, shown.as_str());
        push_str(&mut m, " is outside the refinement bound ");
        let t = expected.display();
        push_str(&mut m, t.as_str());
        Some(Diagnostic::type_error(m, span))
    }
}

impl Checker {
    fn infer_expr(&mut self, e: &Expr) -> (t: Type)
        requires
            old(self).inv(),
        ensures
            final(self).frame(*old(self)),
            final(self).scopes@ == old(self).scopes@,
            quiet_expr(*e) ==> final(self).diags@ == old(self).diags@,
            forall|n: Seq<char>| #[trigger] reads_field(*e, n) && is_inferred(scope_lookup(old(self).scopes@, n)) ==> final(self).diags@.len() > old(self).diags@.len(),
            *e matches Expr::Ident(x, _) ==> (t is Inferred <==> is_inferred(scope_lookup(old(self).scopes@, x@))),
            path_root(*e) matches Some(x) ==> type_v(t) == path_shape(*e, bound_shape(old(self).scopes@, x)),
            *e matches Expr::Number(n, _) ==> t == (Type::Spark { lo: Some(n), hi: Some(n) }),
            *e is Bool ==> t == Type::Bool,
            *e is Str ==> t == Type::Glyph,
            shape_is(known_shape(*e, scope_env(old(self).scopes@), old(self).oracles_view()), t),
            expr_cross(*e, scope_env(old(self).scopes@), old(self).oracles_view()) ==> final(self).diags@.len() > old(self).diags@.len(),
            final(self).diags@.len() >= old(self).diags@.len() + expr_cap_errors(*e, old(self).mems_view(), old(self).fns_view(), old(self).ids_view()),
        decreases *e, 3int,
    {
        proof {
            assert(self.diags@.subrange(0, self.diags@.len() as int) =~= self.diags@);
        }
        match e {
            Expr::Number(n, _) => Type::Spark { lo: Some(*n), hi: Some(*n) },
            Expr::Bool(_, _) => Type::Bool,
            Expr::Str(segs, _) => {
                self.infer_segs(segs);
                proof {
                    assert forall|n: Seq<char>| #[trigger] reads_field(*e, n) && is_inferred(scope_lookup(old(self).scopes@, n))
                        implies self.diags@.len() > old(self).diags@.len() by {
                        assert(segs_read(segs@, n));
                    }
                }
                Type::Glyph
            },
            Expr::Ident(name, _) => match self.lookup(name) {
                Some(t) => t,
                None => Type::Unknown,
            },
            Expr::Unary { op, rhs, .. } => {
                self.infer_expr(rhs);
                proof {
                    assert forall|n: Seq<char>| #[trigger] reads_field(*e, n) && is_inferred(scope_lookup(old(self).scopes@, n))
                        implies self.diags@.len() > old(self).diags@.len() by {
                        assert(reads_field(**rhs, n));
                    }
                }
                match op {
                    UnOp::Neg => Type::spark(),
                    UnOp::Not => Type::Bool,
                }
            },
            Expr::Binary { op, lhs, rhs, .. } => {
                self.infer_expr(lhs);
                let ghost b = self.diags@;
                self.infer_expr(rhs);
                proof {
                    lemma_extends_trans(old(self).diags@, b, self.diags@);
                    assert forall|n: Seq<char>| #[trigger] reads_field(*e, n) && is_inferred(scope_lookup(old(self).scopes@, n))
                        implies self.diags@.len() > old(self).diags@.len() by {
                        if !reads_field(**lhs, n) {
                            assert(reads_field(**rhs, n));
                        }
                    }
                }
                match op {
                    BinOp::Add | BinOp::Sub | BinOp::Mul | BinOp::Div => Type::spark(),
                    _ => Type::Bool,
                }
            },
            Expr::Call { callee, args, span } => {
                let arg_types = self.infer_args(args);
                proof {
                    assert forall|n: Seq<char>| #[trigger] reads_field(*e, n) && is_inferred(scope_lookup(old(self).scopes@, n))
                        implies self.diags@.len() > old(self).diags@.len() by {
                        assert(exprs_read(args@, n));
                    }
                }
                let ghost b = self.diags@;
                let r = self.infer_builtin(callee, &arg_types, *span);
                proof {
                    lemma_extends_trans(old(self).diags@, b, self.diags@);
                }
                match r {
                    Some(t) => t,
                    None => {
                        let ghost b2 = self.diags@;
                        self.check_call_caps(callee, *span);
                        proof {
                            lemma_extends_trans(old(self).diags@, b2, self.diags@);
                        }
                        Type::Unknown
                    },
                }
            },
            Expr::Method { recv, method, args, span } => {
                let recv_ty = self.infer_expr(recv);
                let ghost b = self.diags@;
                self.infer_args(args);
                proof {
                    lemma_extends_trans(old(self).diags@, b, self.diags@);
                    assert forall|n: Seq<char>| #[trigger] reads_field(*e, n) && is_inferred(scope_lookup(old(self).scopes@, n))
                        implies self.diags@.len() > old(self).diags@.len() by {
                        if !reads_field(**recv, n) {
                            assert(exprs_read(args@, n));
                        }
                    }
                }
                // `oracle.embed(...)` is an embedding of the oracle's space.
                proof {
                    reveal_strlit("embed");
                    reveal_strlit("<oracle>");
                }
                if str_eq(method.as_str(), "embed") && matches!(recv_ty, Type::Oracle) {
                    let space = match &**recv {
                        Expr::Ident(name, _) => assoc_last(&self.oracles, name),
                        _ => None,
                    };
                    return match space {
                        Some(s) => Type::Embedding(s),
                        None => Type::Embedding(owned("<oracle>")),
                    };
                }
                // A governed-memory access needs the memory's scope capability.
                if let Expr::Ident(mem_name, _) = &**recv {
                    if let Some(scope) = assoc_last(&self.memories, mem_name) {
                        let ghost b2 = self.diags@;
                        let t = self.check_memory_access(mem_name, &scope, method, *span);
                        proof {
                            lemma_extends_trans(old(self).diags@, b2, self.diags@);
                        }
                        return t;
                    }
                }
                Type::Unknown
            },
            Expr::Field { recv, field, span } => {
                let rt = self.infer_expr(recv);
                let ghost mid = self.diags@;
                let ghost inferred_recv = rt is Inferred;
                let result = match rt {
                    Type::Inferred(_) => {
                        let ghost b = self.diags@;
                        self.report(Diagnostic::type_error(
                            owned("this value is inferred and must be discharged before its fields are read"),
                            *span,
                        ));
                        proof {
                            lemma_extends_trans(old(self).diags@, b, self.diags@);
                        }
                        Type::Unknown
                    },
                    Type::Record(fields) => {
                        proof {
                            crate::types::lemma_first_shape(fields@, field@);
                        }
                        match crate::types::find_field(&fields, field) {
                            Some(i) => clone_type(&fields[i].1),
                            None => Type::Unknown,
                        }
                    },
                    _ => Type::Unknown,
                };
                proof {
                    assert(type_v(result) == crate::types::field_shape(type_v(rt), field@));
                    assert(inferred_recv ==> self.diags@.len() > mid.len());
                    assert forall|n: Seq<char>| #[trigger] reads_field(*e, n) && is_inferred(scope_lookup(old(self).scopes@, n))
                        implies self.diags@.len() > old(self).diags@.len() by {
                        if !reads_field(**recv, n) {
                            assert(**recv matches Expr::Ident(x, _) && x@ == n);
                        }
                    }
                }
                result
            },
            Expr::Variant { fields, .. } => {
                self.infer_field_exprs(fields);
                proof {
                    assert forall|n: Seq<char>| #[trigger] reads_field(*e, n) && is_inferred(scope_lookup(old(self).scopes@, n))
                        implies self.diags@.len() > old(self).diags@.len() by {
                        assert(fields_read(fields@, n));
                    }
                }
                Type::Unknown
            },
            Expr::Record { fields, .. } => {
                let out = self.infer_field_exprs(fields);
                proof {
                    assert forall|n: Seq<char>| #[trigger] reads_field(*e, n) && is_inferred(scope_lookup(old(self).scopes@, n))
                        implies self.diags@.len() > old(self).diags@.len() by {
                        assert(fields_read(fields@, n));
                    }
                }
                Type::Record(out)
            },
            Expr::List { items, .. } => {
                let types = self.infer_args(items);
                proof {
                    assert forall|n: Seq<char>| #[trigger] reads_field(*e, n) && is_inferred(scope_lookup(old(self).scopes@, n))
                        implies self.diags@.len() > old(self).diags@.len() by {
                        assert(exprs_read(items@, n));
                    }
                }
                let mut elem = Type::Unknown;
                let n = types.len();
                let mut i: usize = 0;
                while i < n
                    invariant
                        n == types.len(),
                        i <= n,
                        i > 0 && !(types@[0] is Unknown) ==> type_v(elem) == type_v(types@[0]),
                        i == 0 ==> elem is Unknown,
                    decreases n - i,
                {
                    if matches!(elem, Type::Unknown) {
                        elem = clone_type(&types[i]);
                    }
                    i = i + 1;
                }
                proof {
                    if items@.len() > 0 {
                        assert(shape_is(known_shape(items@[0], scope_env(old(self).scopes@), old(self).oracles_view()), types@[0]));
                    }
                }
                Type::List { elem: Box::new(elem), lo: None, hi: None }
            },
        }
    }

    fn infer_args(&mut self, es: &Vec<Expr>) -> (r: Vec<Type>)
        requires
            old(self).inv(),
        ensures
            final(self).frame(*old(self)),
            final(self).scopes@ == old(self).scopes@,
            forall|n: Seq<char>| #[trigger] exprs_read(es@, n) && is_inferred(scope_lookup(old(self).scopes@, n)) ==> final(self).diags@.len() > old(self).diags@.len(),
            r@.len() == es@.len(),
            forall|i: int| 0 <= i < es@.len() ==> shape_is(known_shape(#[trigger] es@[i], scope_env(old(self).scopes@), old(self).oracles_view()), r@[i]),
            exprs_cross(es@, scope_env(old(self).scopes@), old(self).oracles_view()) ==> final(self).diags@.len() > old(self).diags@.len(),
            final(self).diags@.len() >= old(self).diags@.len() + exprs_cap_errors(es@, old(self).mems_view(), old(self).fns_view(), old(self).ids_view()),
        decreases es@, 2int,
    {
        let mut out: Vec<Type> = Vec::new();
        let n = es.len();
        let mut i: usize = 0;
        while i < n
            invariant
                n == es.len(),
                i <= n,
                out@.len() == i,
                self.frame(*old(self)),
                self.scopes@ == old(self).scopes@,
                self.diags@.len() >= old(self).diags@.len() + exprs_cap_errors(es@.take(i as int), old(self).mems_view(), old(self).fns_view(), old(self).ids_view()),
                forall|n: Seq<char>| #[trigger] exprs_read(es@.take(i as int), n) && is_inferred(scope_lookup(old(self).scopes@, n)) ==> self.diags@.len() > old(self).diags@.len(),
                exprs_cross(es@.take(i as int), scope_env(old(self).scopes@), old(self).oracles_view()) ==> self.diags@.len() > old(self).diags@.len(),
                forall|m: int| 0 <= m < i ==> shape_is(known_shape(#[trigger] es@[m], scope_env(old(self).scopes@), old(self).oracles_view()), out@[m]),
            decreases n - i,
        {
            let ghost before = self.diags@;
            let t = self.infer_expr(&es[i]);
            proof {
                lemma_extends_trans(old(self).diags@, before, self.diags@);
                assert(es@.take(i + 1).drop_last() =~= es@.take(i as int));
                assert(es@.take(i + 1).last() == es@[i as int]);
                if exprs_cross(es@.take(i + 1), scope_env(old(self).scopes@), old(self).oracles_view()) && !exprs_cross(es@.take(i as int), scope_env(old(self).scopes@), old(self).oracles_view()) {
                    assert(expr_cross(es@[i as int], scope_env(old(self).scopes@), old(self).oracles_view()));
                }
                assert forall|n: Seq<char>| #[trigger] exprs_read(es@.take(i + 1), n) && is_inferred(scope_lookup(old(self).scopes@, n))
                    implies self.diags@.len() > old(self).diags@.len() by {
                    if !exprs_read(es@.take(i as int), n) {
                        assert(reads_field(es@[i as int], n));
                    }
                }
            }
            let ghost pre = out@;
            out.push(t);
            proof {
                assert forall|m: int| 0 <= m < i + 1 implies shape_is(known_shape(#[trigger] es@[m], scope_env(old(self).scopes@), old(self).oracles_view()), out@[m]) by {
                    if m < i {
                        assert(out@[m] == pre[m]);
                    }
                }
            }
            i = i + 1;
        }
        assert(es@.take(n as int) =~= es@);
        out
    }

    fn infer_field_exprs(&mut self, fs: &Vec<(String, Expr)>) -> (r: Vec<(String, Type)>)
        requires
            old(self).inv(),
        ensures
            final(self).frame(*old(self)),
            final(self).scopes@ == old(self).scopes@,
            fields_cross(fs@, scope_env(old(self).scopes@), old(self).oracles_view()) ==> final(self).diags@.len() > old(self).diags@.len(),
            forall|n: Seq<char>| #[trigger] fields_read(fs@, n) && is_inferred(scope_lookup(old(self).scopes@, n)) ==> final(self).diags@.len() > old(self).diags@.len(),
            final(self).diags@.len() >= old(self).diags@.len() + fields_cap_errors(fs@, old(self).mems_view(), old(self).fns_view(), old(self).ids_view()),
        decreases fs@, 2int,
    {
        let mut out: Vec<(String, Type)> = Vec::new();
        let n = fs.len();
        let mut i: usize = 0;
        while i < n
            invariant
                n == fs.len(),
                self.frame(*old(self)),
                self.scopes@ == old(self).scopes@,
                i <= n,
                self.diags@.len() >= old(self).diags@.len() + fields_cap_errors(fs@.take(i as int), old(self).mems_view(), old(self).fns_view(), old(self).ids_view()),
                forall|n: Seq<char>| #[trigger] fields_read(fs@.take(i as int), n) && is_inferred(scope_lookup(old(self).scopes@, n)) ==> self.diags@.len() > old(self).diags@.len(),
                fields_cross(fs@.take(i as int), scope_env(old(self).scopes@), old(self).oracles_view()) ==> self.diags@.len() > old(self).diags@.len(),
            decreases n - i,
        {
            let ghost before = self.diags@;
            let t = self.infer_expr(&fs[i].1);
            proof {
                lemma_extends_trans(old(self).diags@, before, self.diags@);
                assert(fs@.take(i + 1).drop_last() =~= fs@.take(i as int));
                assert(fs@.take(i + 1).last() == fs@[i as int]);
                if fields_cross(fs@.take(i + 1), scope_env(old(self).scopes@), old(self).oracles_view()) && !fields_cross(fs@.take(i as int), scope_env(old(self).scopes@), old(self).oracles_view()) {
                    assert(expr_cross(fs@[i as int].1, scope_env(old(self).scopes@), old(self).oracles_view()));
                }
                assert forall|n: Seq<char>| #[trigger] fields_read(fs@.take(i + 1), n) && is_inferred(scope_lookup(old(self).scopes@, n))
                    implies self.diags@.len() > old(self).diags@.len() by {
                    if !fields_read(fs@.take(i as int), n) {
                        assert(reads_field(fs@[i as int].1, n));
                    }
                }
            }
            out.push((fs[i].0.clone(), t));
            i = i + 1;
        }
        assert(fs@.take(n as int) =~= fs@);
        out
    }

    fn infer_segs(&mut self, segs: &Vec<StrSeg>)
        requires
            old(self).inv(),
        ensures
            final(self).frame(*old(self)),
            final(self).scopes@ == old(self).scopes@,
            (forall|i: int| 0 <= i < segs@.len() ==> (#[trigger] segs@[i]) is Lit) ==> final(self).diags@ == old(self).diags@,
            segs_cross(segs@, scope_env(old(self).scopes@), old(self).oracles_view()) ==> final(self).diags@.len() > old(self).diags@.len(),
            forall|n: Seq<char>| #[trigger] segs_read(segs@, n) && is_inferred(scope_lookup(old(self).scopes@, n)) ==> final(self).diags@.len() > old(self).diags@.len(),
            final(self).diags@.len() >= old(self).diags@.len() + segs_cap_errors(segs@, old(self).mems_view(), old(self).fns_view(), old(self).ids_view()),
        decreases segs@, 2int,
    {
        let n = segs.len();
        let mut i: usize = 0;
        while i < n
            invariant
                n == segs.len(),
                self.frame(*old(self)),
                self.scopes@ == old(self).scopes@,
                (forall|k: int| 0 <= k < segs@.len() ==> (#[trigger] segs@[k]) is Lit) ==> self.diags@ == old(self).diags@,
                i <= n,
                self.diags@.len() >= old(self).diags@.len() + segs_cap_errors(segs@.take(i as int), old(self).mems_view(), old(self).fns_view(), old(self).ids_view()),
                forall|n: Seq<char>| #[trigger] segs_read(segs@.take(i as int), n) && is_inferred(scope_lookup(old(self).scopes@, n)) ==> self.diags@.len() > old(self).diags@.len(),
                segs_cross(segs@.take(i as int), scope_env(old(self).scopes@), old(self).oracles_view()) ==> self.diags@.len() > old(self).diags@.len(),
            decreases n - i,
        {
            let ghost before = self.diags@;
            self.infer_seg(&segs[i]);
            proof {
                lemma_extends_trans(old(self).diags@, before, self.diags@);
                assert(segs@.take(i + 1).drop_last() =~= segs@.take(i as int));
                assert(segs@.take(i + 1).last() == segs@[i as int]);
                if segs_cross(segs@.take(i + 1), scope_env(old(self).scopes@), old(self).oracles_view()) && !segs_cross(segs@.take(i as int), scope_env(old(self).scopes@), old(self).oracles_view()) {
                    assert(segs@[i as int] matches StrSeg::Interp(inner) && expr_cross(*inner, scope_env(old(self).scopes@), old(self).oracles_view()));
                }
                assert forall|n: Seq<char>| #[trigger] segs_read(segs@.take(i + 1), n) && is_inferred(scope_lookup(old(self).scopes@, n))
                    implies self.diags@.len() > old(self).diags@.len() by {
                    if !segs_read(segs@.take(i as int), n) {
                        assert(segs@[i as int] matches StrSeg::Interp(inner) && reads_field(*inner, n));
                    }
                }
            }
            i = i + 1;
        }
        assert(segs@.take(n as int) =~= segs@);
    }

    fn infer_seg(&mut self, seg: &StrSeg)
        requires
            old(self).inv(),
        ensures
            final(self).frame(*old(self)),
            final(self).scopes@ == old(self).scopes@,
            *seg is Lit ==> final(self).diags@ == old(self).diags@,
            (*seg matches StrSeg::Interp(inner) && expr_cross(*inner, scope_env(old(self).scopes@), old(self).oracles_view())) ==> final(self).diags@.len() > old(self).diags@.len(),
            *seg matches StrSeg::Interp(inner) ==> forall|n: Seq<char>|
                #[trigger] reads_field(*inner, n) && is_inferred(scope_lookup(old(self).scopes@, n))
                    ==> final(self).diags@.len() > old(self).diags@.len(),
            final(self).diags@.len() >= old(self).diags@.len() + match *seg {
                StrSeg::Interp(inner) => expr_cap_errors(*inner, old(self).mems_view(), old(self).fns_view(), old(self).ids_view()),
                StrSeg::Lit(_) => 0,
            },
        decreases *seg, 1int,
    {
        match seg {
            StrSeg::Lit(_) => {
                assert(self.diags@.subrange(0, self.diags@.len() as int) =~= self.diags@);
            },
            StrSeg::Interp(inner) => {
                self.infer_expr(inner);
            },
        }
    }

    /// Types the built-in operations; `None` for any other name. Comparing
    /// embeddings of different spaces is an error here.
    fn infer_builtin(&mut self, callee: &String, args: &Vec<Type>, span: Span) -> (r: Option<Type>)
        requires
            old(self).inv(),
        ensures
            final(self).frame(*old(self)),
            final(self).scopes@ == old(self).scopes@,
            r is None <==> !is_builtin(callee@),
            (callee@ == "similarity"@ && args@.len() == 2 && spaces_differ(
                embedding_of(Some(type_v(args@[0]))),
                embedding_of(Some(type_v(args@[1]))),
            )) ==> final(self).diags@.len() > old(self).diags@.len(),
            (callee@ == "nearest"@ && args@.len() == 3 && spaces_differ(
                embedding_of(Some(type_v(args@[0]))),
                list_embedding_of(Some(type_v(args@[1]))),
            )) ==> final(self).diags@.len() > old(self).diags@.len(),
    {
        proof {
            assert(self.diags@.subrange(0, self.diags@.len() as int) =~= self.diags@);
        }
        proof {
            reveal_strlit("nearest");
            reveal_strlit("similarity");
            assert("nearest"@ != "similarity"@) by {
                assert("nearest"@[0] != "similarity"@[0]);
            }
        }
        if str_eq(callee.as_str(), "similarity") {
            if args.len() == 2 {
                if let Some(d) = space_conflict(&args[0], &args[1], span) {
                    self.report(d);
                }
            }
            Some(Type::spark())
        } else if str_eq(callee.as_str(), "nearest") {
            if args.len() == 3 {
                let cand_elem = match &args[1] {
                    Type::List { elem, .. } => clone_type(elem),
                    _ => Type::Unknown,
                };
                proof {
                    if list_embedding_of(Some(type_v(args@[1]))) is Some {
                        assert(args@[1] is List);
                        assert(type_v(cand_elem) == type_v(*args@[1]->List_elem));
                        assert(cand_elem is Embedding);
                    }
                }
                if let Some(d) = space_conflict(&args[0], &cand_elem, span) {
                    self.report(d);
                }
                let space = match &args[0] {
                    Type::Embedding(s) => Some(s.clone()),
                    _ => match &cand_elem {
                        Type::Embedding(s) => Some(s.clone()),
                        _ => None,
                    },
                };
                let elem = match space {
                    Some(s) => Type::Embedding(s),
                    None => Type::Unknown,
                };
                return Some(Type::List { elem: Box::new(elem), lo: None, hi: None });
            }
            Some(Type::List { elem: Box::new(Type::Unknown), lo: None, hi: None })
        } else if str_eq(callee.as_str(), "advance") {
            Some(Type::Unit)
        } else if str_eq(callee.as_str(), "audit_log") {
            Some(Type::List { elem: Box::new(Type::Glyph), lo: None, hi: None })
        } else if str_eq(callee.as_str(), "listen") {
            if args.len() != 1 {
                self.report(Diagnostic::type_error(owned("`listen` takes one glyph prompt argument"), span));
            }
            Some(Type::Glyph)
        } else {
            None
        }
    }

    /// A governed-memory access requires the memory's scope capability; an
    /// access outside it is reported, naming the memory and the scope.
    fn check_memory_access(&mut self, mem: &String, scope: &String, method: &String, span: Span) -> (t: Type)
        requires
            old(self).inv(),
        ensures
            final(self).frame(*old(self)),
            final(self).scopes@ == old(self).scopes@,
            scope_granted(old(self).active_caps@, scope@) ==> final(self).diags@ == old(self).diags@,
            !scope_granted(old(self).active_caps@, scope@) ==> final(self).diags@.len() == old(self).diags@.len() + 1
                && final(self).diags@.last().message@ == memory_scope_msg(mem@, scope@),
            !cap_ids(old(self).active_caps@).contains(("scope"@, Some(scope@))) ==> final(self).diags@.len()
                == old(self).diags@.len() + 1,
    {
        proof {
            lemma_scope_granted_ids(self.active_caps@, scope@);
        }
        let cap = Capability { kind: owned("scope"), param: Some(scope.clone()), span };
        let ok = cap_granted(&self.active_caps, &cap);
        proof {
            if ok {
                let i = choose|i: int| 0 <= i < self.active_caps@.len() && (#[trigger] self.active_caps@[i]).spec_same(&cap);
                assert(self.active_caps@[i].kind@ == "scope"@);
            } else {
                assert forall|i: int| 0 <= i < self.active_caps@.len() implies !((#[trigger] self.active_caps@[i]).kind@ == "scope"@
                    && opt_view(self.active_caps@[i].param) == Some(scope@)) by {
                    assert(!self.active_caps@[i].spec_same(&cap));
                }
            }
            assert(self.diags@.subrange(0, self.diags@.len() as int) =~= self.diags@);
        }
        if !ok {
            let mut m = owned("out-of-scope access to memory `");
            push_str(&mut m, mem.as_str());
            push_str(&mut m, "`: `scope(");
            push_str(&mut m, scope.as_str());
            push_str(&mut m, ")` not granted (enter `within ");
            push_str(&mut m, scope.as_str());
            push_str(&mut m, "`)");
            self.report(Diagnostic::type_error(m, span));
        }
        if str_eq(method.as_str(), "recent") || str_eq(method.as_str(), "nearest") {
            Type::List { elem: Box::new(Type::Unknown), lo: None, hi: None }
        } else {
            Type::Unit
        }
    }

    /// Directed check of an expression against an expected type, with clear
    /// messages for refinements, variants, and the discharge rule.
    fn check_against(&mut self, e: &Expr, expected: &Type)
        requires
            old(self).inv(),
        ensures
            final(self).frame(*old(self)),
            final(self).scopes@ == old(self).scopes@,
            against_rejects(*e, *expected) ==> final(self).diags@.len() > old(self).diags@.len(),
        decreases *e, 3int,
    {
        proof {
            assert(self.diags@.subrange(0, self.diags@.len() as int) =~= self.diags@);
        }
        match (e, expected) {
            (Expr::Number(n, span), Type::Spark { lo, hi }) => {
                if let Some(d) = refinement_error(n, lo, hi, expected, *span) {
                    self.report(d);
                }
                return;
            },
            (Expr::Record { fields, span }, Type::Record(expected_fields)) => {
                self.check_record_literal(fields, expected_fields, expected, *span);
                return;
            },
            (Expr::List { items, span }, Type::List { elem, lo, hi }) => {
                if let (Some(l), Some(h)) = (lo, hi) {
                    let n = items.len();
                    let inside = if n as u64 <= crate::num::MAX_MANTISSA {
                        let len = Num::from_int(n as u64);
                        l.le(&len) && len.le(h)
                    } else {
                        false
                    };
                    if !inside {
                        let mut m = owned("list literal length ");
                        crate::text::push_u64(&mut m, n as u64);
                        push_str(&mut m, " is outside bounds ");
                        let shown = expected.display();
                        push_str(&mut m, shown.as_str());
                        self.report(Diagnostic::type_error(m, *span));
                    }
                }
                let ghost b = self.diags@;
                self.check_items(items, elem);
                proof {
                    lemma_extends_trans(old(self).diags@, b, self.diags@);
                }
                return;
            },
            (Expr::Variant { name, fields, span }, Type::Sum(variants)) => {
                match find_variant(variants, name) {
                    None => {
                        let mut m = owned("unknown variant `");
                        push_str(&mut m, name.as_str());
                        push_str(&mut m, "` for type ");
                        let shown = expected.display();
                        push_str(&mut m, shown.as_str());
                        self.report(Diagnostic::type_error(m, *span));
                    },
                    Some(vi) => {
                        self.check_variant_fields(fields, &variants[vi].fields);
                    },
                }
                return;
            },
            _ => {},
        }
        let actual = self.infer_expr(e);
        if !actual.assignable_to(expected) {
            let ghost b = self.diags@;
            if matches!(actual, Type::Inferred(_)) && !matches!(expected, Type::Inferred(_)) {
                let mut m = owned("inferred value must be discharged (with confidence >= …) before use as ");
                let shown = expected.display();
                push_str(&mut m, shown.as_str());
                self.report(Diagnostic::type_error(m, e.span()));
            } else {
                let mut m = owned("expected ");
                let shown = expected.display();
                push_str(&mut m, shown.as_str());
                push_str(&mut m, ", found ");
                let found = actual.display();
                push_str(&mut m, found.as_str());
                self.report(Diagnostic::type_error(m, e.span()));
            }
            proof {
                lemma_extends_trans(old(self).diags@, b, self.diags@);
            }
        }
    }

    fn check_items(&mut self, items: &Vec<Expr>, elem: &Type)
        requires
            old(self).inv(),
        ensures
            final(self).frame(*old(self)),
            final(self).scopes@ == old(self).scopes@,
            items_reject(items@, *elem) ==> final(self).diags@.len() > old(self).diags@.len(),
        decreases items@, 2int,
    {
        let n = items.len();
        let mut i: usize = 0;
        while i < n
            invariant
                n == items.len(),
                i <= n,
                self.frame(*old(self)),
                self.scopes@ == old(self).scopes@,
                items_reject(items@.take(i as int), *elem) ==> self.diags@.len() > old(self).diags@.len(),
            decreases n - i,
        {
            let ghost before = self.diags@;
            self.check_against(&items[i], elem);
            proof {
                lemma_extends_trans(old(self).diags@, before, self.diags@);
                assert(items@.take(i + 1).drop_last() =~= items@.take(i as int));
                assert(items@.take(i + 1).last() == items@[i as int]);
            }
            i = i + 1;
        }
        assert(items@.take(n as int) =~= items@);
    }

    /// Variant payload expressions against the declared field types, by position.
    fn check_variant_fields(&mut self, fields: &Vec<(String, Expr)>, tys: &Vec<(String, Type)>)
        requires
            old(self).inv(),
        ensures
            final(self).frame(*old(self)),
            final(self).scopes@ == old(self).scopes@,
            positional_reject(fields@, tys@) ==> final(self).diags@.len() > old(self).diags@.len(),
        decreases fields@, 2int,
    {
        let n = tys.len();
        let mut i: usize = 0;
        while i < n
            invariant
                n == tys.len(),
                i <= n,
                self.frame(*old(self)),
                self.scopes@ == old(self).scopes@,
                positional_reject(fields@.take(if i <= fields.len() { i as int } else { fields.len() as int }), tys@) ==> self.diags@.len() > old(self).diags@.len(),
            decreases n - i,
        {
            if i < fields.len() {
                let ghost before = self.diags@;
                self.check_against(&fields[i].1, &tys[i].1);
                proof {
                    lemma_extends_trans(old(self).diags@, before, self.diags@);
                    assert(fields@.take(i + 1).drop_last() =~= fields@.take(i as int));
                    assert(fields@.take(i + 1).last() == fields@[i as int]);
                }
            }
            i = i + 1;
        }
        proof {
            let k = if n <= fields.len() { n as int } else { fields.len() as int };
            lemma_positional_prefix(fields@, tys@, k as nat);
        }
    }

    fn check_record_literal(&mut self, fields: &Vec<(String, Expr)>, expected_fields: &Vec<(String, Type)>, expected: &Type, span: Span)
        requires
            old(self).inv(),
        ensures
            final(self).frame(*old(self)),
            final(self).scopes@ == old(self).scopes@,
            record_rejects(fields@, expected_fields@) ==> final(self).diags@.len() > old(self).diags@.len(),
        decreases fields@, 2int,
    {
        let n = fields.len();
        let mut i: usize = 0;
        while i < n
            invariant
                n == fields.len(),
                i <= n,
                self.frame(*old(self)),
                self.scopes@ == old(self).scopes@,
                fields_refused(fields@.take(i as int), expected_fields@) ==> self.diags@.len() > old(self).diags@.len(),
            decreases n - i,
        {
            let ghost before = self.diags@;
            proof {
                assert(fields@.take(i + 1).drop_last() =~= fields@.take(i as int));
                assert(fields@.take(i + 1).last() == fields@[i as int]);
                crate::types::lemma_first_field(expected_fields@, fields@[i as int].0@);
            }
            match crate::types::find_field(expected_fields, &fields[i].0) {
                Some(k) => {
                    self.check_against(&fields[i].1, &expected_fields[k].1);
                },
                None => {
                    let mut m = owned("unknown field `");
                    push_str(&mut m, fields[i].0.as_str());
                    push_str(&mut m, "` in record literal");
                    self.report(Diagnostic::type_error(m, fields[i].1.span()));
                },
            }
            proof {
                lemma_extends_trans(old(self).diags@, before, self.diags@);
            }
            i = i + 1;
        }
        assert(fields@.take(n as int) =~= fields@);
        let m = expected_fields.len();
        let mut j: usize = 0;
        while j < m
            invariant
                m == expected_fields.len(),
                j <= m,
                self.frame(*old(self)),
                self.scopes@ == old(self).scopes@,
                fields_refused(fields@, expected_fields@) ==> self.diags@.len() > old(self).diags@.len(),
                (exists|jj: int| 0 <= jj < j && !(exists|i: int| 0 <= i < fields@.len() && (#[trigger] fields@[i]).0@ == (#[trigger] expected_fields@[jj]).0@)) ==> self.diags@.len() > old(self).diags@.len(),
            decreases m - j,
        {
            if !has_named(fields, &expected_fields[j].0) {
                let mut msg = owned("missing field `");
                push_str(&mut msg, expected_fields[j].0.as_str());
                push_str(&mut msg, "` in record literal for type ");
                let shown = expected.display();
                push_str(&mut msg, shown.as_str());
                let ghost before = self.diags@;
                self.report(Diagnostic::type_error(msg, span));
                proof {
                    lemma_extends_trans(old(self).diags@, before, self.diags@);
                }
            }
            j = j + 1;
        }
    }
}

/// Does some `(name, _)` pair of `fs` have this name?
fn has_named(fs: &Vec<(String, Expr)>, name: &String) -> (r: bool)
    ensures
        r == exists|i: int| 0 <= i < fs@.len() && (#[trigger] fs@[i]).0@ == name@,
{
    let n = fs.len();
    let mut i: usize = 0;
    while i < n
        invariant
            n == fs.len(),
            i <= n,
            forall|k: int| 0 <= k < i ==> (#[trigger] fs@[k]).0@ != name@,
        decreases n - i,
    {
        if fs[i].0 == *name {
            return true;
        }
        i = i + 1;
    }
    false
}

/// The index of the variant named `name`.
fn find_variant(vs: &Vec<Variant>, name: &String) -> (r: Option<usize>)
    ensures
        r is Some ==> r->0 < vs.len() && vs@[r->0 as int].name@ == name@,
        r is Some ==> forall|k: int| 0 <= k < r->0 ==> vs@[k].name@ != name@,
        r is None ==> !has_variant(vs@, name@),
{
    let n = vs.len();
    let mut i: usize = 0;
    while i < n
        invariant
            n == vs.len(),
            i <= n,
            forall|k: int| 0 <= k < i ==> vs@[k].name@ != name@,
        decreases n - i,
    {
        if vs[i].name == *name {
            return Some(i);
        }
        i = i + 1;
    }
    None
}

/// The value most recently recorded for `key`.
fn assoc_last(pairs: &Vec<(String, String)>, key: &String) -> (r: Option<String>)
    ensures
        r is Some <==> exists|i: int| 0 <= i < pairs.len() && (#[trigger] pairs@[i]).0@ == key@,
        r matches Some(v) ==> mem_lookup(memory_views(pairs@), key@) == Some(v@),
        r is None ==> mem_lookup(memory_views(pairs@), key@) is None,
{
    let ghost vs = memory_views(pairs@);
    let n = pairs.len();
    let mut i: usize = n;
    assert(vs.take(n as int) =~= vs);
    while i > 0
        invariant
            i <= n,
            n == pairs.len(),
            vs == memory_views(pairs@),
            forall|k: int| i <= k < n ==> pairs@[k].0@ != key@,
            mem_lookup(vs, key@) == mem_lookup(vs.take(i as int), key@),
        decreases i,
    {
        i = i - 1;
        proof {
            assert(vs.take(i + 1).last() == vs[i as int]);
            assert(vs.take(i + 1).drop_last() =~= vs.take(i as int));
        }
        if pairs[i].0 == *key {
            return Some(pairs[i].1.clone());
        }
    }
    None
}

/// What the checker's acceptance of a program means: familiars are
/// single-pass and consult only the oracles they are permitted, memories
/// declare a scope and are accessed within it, calls have the capabilities
/// their callees require, inferred values are discharged before use, every
/// `enact` covers exactly its variants, embeddings are compared only within
/// one model's space, and annotations name known types with literals inside
/// their refinement bounds.
pub open spec fn program_accepted(p: Program) -> bool {
    &&& familiars_single_pass(p)
    &&& memories_scoped(p)
    &&& familiars_invoke_permitted(p)
    &&& capabilities_respected(p)
    &&& discharge_respected(p)
    &&& enacts_covered(p)
    &&& embeddings_same_space(p)
    &&& refinements_respected(p)
}

/// Type-checks a parsed program: `Ok` when no structural error was found,
/// otherwise every type error, in the order they were found.
pub fn check_program(prog: &Program) -> (r: Result<(), Vec<Diagnostic>>)
    ensures
        quiet_program(*prog) ==> r is Ok,
        r is Err ==> r->Err_0@.len() > 0 && all_type_errors(r->Err_0@),
        r is Ok ==> program_accepted(*prog),
{
    let mut checker = Checker::new();
    checker.run(prog);
    proof {
        assert(Seq::<(Seq<char>, Seq<char>)>::empty() + mems_items(prog.items@) =~= mems_items(prog.items@));
        assert(Seq::<(Seq<char>, Seq<CapId>)>::empty() + fns_items(prog.items@) =~= fns_items(prog.items@));
        if checker.diagnostics().len() == 0 {
            lemma_no_structural_errors(prog.items@);
            lemma_no_permit_errors(prog.items@);
            lemma_no_cap_errors(prog.items@, mems_items(prog.items@), fns_items(prog.items@), Seq::empty());
        }
    }
    checker.into_result()
}

impl Checker {
    fn into_result(self) -> (r: Result<(), Vec<Diagnostic>>)
        requires
            self.inv(),
        ensures
            r is Ok <==> self.diagnostics().len() == 0,
            r is Err ==> r->Err_0@ == self.diagnostics() && all_type_errors(r->Err_0@),
    {
        if self.diags.len() == 0 {
            Ok(())
        } else {
            Err(self.diags)
        }
    }
}

/// The declared-type table of a program (best effort: a declaration that
/// does not resolve is left out; the full checker reports it).
pub fn build_type_table(prog: &Program) -> (table: Vec<(String, Type)>)
    ensures
        table_names(table@) == resolved_names(prog.items@),
        fields_v(table@) == type_table(prog.items@),
{
    let mut table: Vec<(String, Type)> = Vec::new();
    let n = prog.items.len();
    let mut i: usize = 0;
    assert(table_names(table@) =~= resolved_names(prog.items@.take(0)));
    while i < n
        invariant
            n == prog.items.len(),
            i <= n,
            table_names(table@) == resolved_names(prog.items@.take(i as int)),
            fields_v(table@) == type_table(prog.items@.take(i as int)),
        decreases n - i,
    {
        proof {
            assert(prog.items@.take(i + 1).drop_last() =~= prog.items@.take(i as int));
            assert(prog.items@.take(i + 1).last() == prog.items@[i as int]);
        }
        if let Item::Type(td) = &prog.items[i] {
            if let Ok(t) = resolve_type(&td.ty, &table) {
                let ghost before = table@;
                table.push((td.name.clone(), t));
                assert(table_names(table@) =~= table_names(before).push(td.name@));
                assert(table@.drop_last() =~= before);
            }
        }
        i = i + 1;
    }
    assert(prog.items@.take(n as int) =~= prog.items@);
    table
}

/// The declared types of a program that resolve, by name and shape, in
/// order (a declaration may use the types resolved before it).
pub open spec fn type_table(items: Seq<Item>) -> Seq<(Seq<char>, TypeV)>
    decreases items.len(),
{
    if items.len() == 0 {
        Seq::empty()
    } else {
        let prev = type_table(items.drop_last());
        match items.last() {
            Item::Type(td) => match resolved(td.ty, prev) {
                Some(v) => prev.push((td.name@, v)),
                None => prev,
            },
            _ => prev,
        }
    }
}

/// The names of a program's type declarations that resolve, in order (a
/// declaration may use the names resolved before it).
pub open spec fn resolved_names(items: Seq<Item>) -> Seq<Seq<char>>
    decreases items.len(),
{
    if items.len() == 0 {
        Seq::empty()
    } else {
        let prev = resolved_names(items.drop_last());
        match items.last() {
            Item::Type(td) => if resolvable(td.ty, prev) {
                prev.push(td.name@)
            } else {
                prev
            },
            _ => prev,
        }
    }
}

} // verus!
