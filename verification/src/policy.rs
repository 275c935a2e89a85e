//! Load-time derivation of a program's inference needs: which oracle intents
//! its `divine` sites consult, and the policy in force there. Locality comes
//! from `permit(network)` and the downgrade from `permit(unsafe_inference)`,
//! granted around a site (`with grant`), by a definition's `requires` or by
//! a familiar's `permits`. The manifest resolver checks these needs before a
//! program starts.

use vstd::prelude::*;
use crate::ast::{Capability, EnactArm, Item, Program, Stmt};
use crate::engine::Policy;
use crate::error::{Diagnostic, Stage};
use crate::manifest::{is_frontier_kind, is_mock_kind, lookup_engine, lookup_need, resolution, BoundEngine, Manifest};
use crate::runtime::engines::{binds, need_policy, refusal};
use crate::span::Span;
use crate::text::{owned, str_eq, views};

verus! {

// ------------------------------------------------------------ summons

/// The `(name, model)` pairs a statement summons, in order.
pub open spec fn summons_in(s: Stmt) -> Seq<(Seq<char>, Seq<char>)>
    decreases s, 1int,
{
    match s {
        Stmt::Summon { name, model, .. } => seq![(name@, model@)],
        Stmt::While { body, .. } => summons_of(body@),
        Stmt::If { then_branch, else_branch, .. } => summons_of(then_branch@) + match else_branch {
            Some(eb) => summons_of(eb@),
            None => Seq::empty(),
        },
        Stmt::Enact { arms, .. } => summons_arms(arms@),
        Stmt::Grant { body, .. } => summons_of(body@),
        Stmt::Within { body, .. } => summons_of(body@),
        _ => Seq::empty(),
    }
}

pub open spec fn summons_of(ss: Seq<Stmt>) -> Seq<(Seq<char>, Seq<char>)>
    decreases ss, 0int,
{
    if ss.len() == 0 {
        Seq::empty()
    } else {
        summons_of(ss.drop_last()) + summons_in(ss.last())
    }
}

pub open spec fn summons_arms(arms: Seq<EnactArm>) -> Seq<(Seq<char>, Seq<char>)>
    decreases arms, 0int,
{
    if arms.len() == 0 {
        Seq::empty()
    } else {
        summons_arms(arms.drop_last()) + summons_of(arms.last().body@)
    }
}

/// The summons of a program: top-level statements and the bodies of
/// definitions and familiars, in order.
pub open spec fn summons_items(items: Seq<Item>) -> Seq<(Seq<char>, Seq<char>)>
    decreases items.len(),
{
    if items.len() == 0 {
        Seq::empty()
    } else {
        summons_items(items.drop_last()) + match items.last() {
            Item::Stmt(s) => summons_in(s),
            Item::Define(f) => summons_of(f.body@),
            Item::Familiar(f) => summons_of(f.body@),
            Item::Type(_) => Seq::empty(),
        }
    }
}

pub open spec fn oracle_views(o: Seq<(String, String)>) -> Seq<(Seq<char>, Seq<char>)> {
    o.map_values(|e: (String, String)| (e.0@, e.1@))
}

fn collect_stmt(s: &Stmt, out: &mut Vec<(String, String)>)
    ensures
        oracle_views(final(out)@) == oracle_views(old(out)@) + summons_in(*s),
    decreases s, 1int,
{
    match s {
        Stmt::Summon { name, model, .. } => {
            out.push((name.clone(), model.clone()));
            assert(oracle_views(out@) =~= oracle_views(old(out)@) + summons_in(*s));
        },
        Stmt::While { body, .. } | Stmt::Grant { body, .. } | Stmt::Within { body, .. } => {
            collect_block(body, out);
        },
        Stmt::If { then_branch, else_branch, .. } => {
            collect_block(then_branch, out);
            match else_branch {
                Some(eb) => {
                    collect_block(eb, out);
                },
                None => {},
            }
            assert(oracle_views(out@) =~= oracle_views(old(out)@) + summons_in(*s));
        },
        Stmt::Enact { arms, .. } => {
            collect_arms(arms, out);
        },
        _ => {
            assert(oracle_views(out@) =~= oracle_views(old(out)@) + summons_in(*s));
        },
    }
}

fn collect_arms(arms: &Vec<EnactArm>, out: &mut Vec<(String, String)>)
    ensures
        oracle_views(final(out)@) == oracle_views(old(out)@) + summons_arms(arms@),
    decreases arms@, 1int,
{
    let n = arms.len();
    let mut i: usize = 0;
    assert(arms@.take(0) =~= Seq::<EnactArm>::empty());
    assert(oracle_views(out@) =~= oracle_views(old(out)@) + summons_arms(arms@.take(0)));
    while i < n
        invariant
            n == arms@.len(),
            i <= n,
            oracle_views(out@) == oracle_views(old(out)@) + summons_arms(arms@.take(i as int)),
        decreases n - i,
    {
        proof {
            assert(decreases_to!(arms@ => arms@[i as int]));
            assert(decreases_to!(arms@[i as int] => arms@[i as int].body));
            assert(decreases_to!(arms@[i as int].body => arms@[i as int].body@));
        }
        collect_block(&arms[i].body, out);
        proof {
            let t = arms@.take(i + 1);
            assert(t.drop_last() =~= arms@.take(i as int));
            assert(t.last() == arms@[i as int]);
            assert(oracle_views(out@) =~= oracle_views(old(out)@) + summons_arms(t));
        }
        i = i + 1;
    }
    assert(arms@.take(n as int) =~= arms@);
}

fn collect_block(ss: &Vec<Stmt>, out: &mut Vec<(String, String)>)
    ensures
        oracle_views(final(out)@) == oracle_views(old(out)@) + summons_of(ss@),
    decreases ss@, 1int,
{
    let n = ss.len();
    let mut i: usize = 0;
    assert(ss@.take(0) =~= Seq::<Stmt>::empty());
    assert(oracle_views(out@) =~= oracle_views(old(out)@) + summons_of(ss@.take(0)));
    while i < n
        invariant
            n == ss@.len(),
            i <= n,
            oracle_views(out@) == oracle_views(old(out)@) + summons_of(ss@.take(i as int)),
        decreases n - i,
    {
        collect_stmt(&ss[i], out);
        proof {
            let t = ss@.take(i + 1);
            assert(t.drop_last() =~= ss@.take(i as int));
            assert(t.last() == ss@[i as int]);
            assert(oracle_views(out@) =~= oracle_views(old(out)@) + summons_of(t));
        }
        i = i + 1;
    }
    assert(ss@.take(n as int) =~= ss@);
}

/// Every summon of the program, in order (a later summon of a name wins).
pub fn summon_table(prog: &Program) -> (r: Vec<(String, String)>)
    ensures
        oracle_views(r@) == summons_items(prog.items@),
{
    let mut out: Vec<(String, String)> = Vec::new();
    let n = prog.items.len();
    let mut i: usize = 0;
    assert(prog.items@.take(0) =~= Seq::<Item>::empty());
    assert(oracle_views(out@) =~= summons_items(prog.items@.take(0)));
    while i < n
        invariant
            n == prog.items@.len(),
            i <= n,
            oracle_views(out@) == summons_items(prog.items@.take(i as int)),
        decreases n - i,
    {
        match &prog.items[i] {
            Item::Stmt(s) => collect_stmt(s, &mut out),
            Item::Define(f) => collect_block(&f.body, &mut out),
            Item::Familiar(f) => collect_block(&f.body, &mut out),
            Item::Type(_) => {},
        }
        proof {
            let t = prog.items@.take(i + 1);
            assert(t.drop_last() =~= prog.items@.take(i as int));
            assert(t.last() == prog.items@[i as int]);
            assert(oracle_views(out@) =~= summons_items(t));
        }
        i = i + 1;
    }
    assert(prog.items@.take(n as int) =~= prog.items@);
    out
}

/// The model of the latest summon of `name`; an unsummoned name stands for
/// itself.
pub open spec fn intent_of(summons: Seq<(Seq<char>, Seq<char>)>, name: Seq<char>) -> Seq<char>
    decreases summons.len(),
{
    if summons.len() == 0 {
        name
    } else if summons.last().0 == name {
        summons.last().1
    } else {
        intent_of(summons.drop_last(), name)
    }
}

fn lookup_intent(summons: &Vec<(String, String)>, name: &String) -> (r: String)
    ensures
        r@ == intent_of(oracle_views(summons@), name@),
{
    let mut k = summons.len();
    assert(oracle_views(summons@).take(k as int) =~= oracle_views(summons@));
    while k > 0
        invariant
            k <= summons@.len(),
            intent_of(oracle_views(summons@), name@) == intent_of(oracle_views(summons@).take(k as int), name@),
        decreases k,
    {
        let ghost t = oracle_views(summons@).take(k as int);
        assert(t.last() == oracle_views(summons@)[k - 1]);
        assert(t.drop_last() =~= oracle_views(summons@).take(k - 1));
        if str_eq(summons[k - 1].0.as_str(), name.as_str()) {
            return summons[k - 1].1.clone();
        }
        k = k - 1;
    }
    name.clone()
}

// ------------------------------------------------------------ divine sites

/// The names of a list of capabilities, as written (`permit(network)`).
pub open spec fn cap_names(caps: Seq<Capability>) -> Seq<Seq<char>> {
    caps.map_values(|c: Capability| c.spec_display())
}

/// A `divine` site as the walk sees it: the oracle it uses, whether
/// `permit(network)` and `permit(unsafe_inference)` are in force, and where
/// it stands.
pub open spec fn site(oracle: Seq<char>, active: Seq<Seq<char>>, span: Span) -> (Seq<char>, bool, bool, Span) {
    (oracle, active.contains("permit(network)"@), active.contains("permit(unsafe_inference)"@), span)
}

/// The `divine` sites of a block, in order, under the capability names
/// `active`.
pub open spec fn block_sites(ss: Seq<Stmt>, active: Seq<Seq<char>>) -> Seq<(Seq<char>, bool, bool, Span)>
    decreases ss, 2int,
{
    if ss.len() == 0 {
        Seq::empty()
    } else {
        block_sites(ss.drop_last(), active) + stmt_sites(ss.last(), active)
    }
}

pub open spec fn stmt_sites(s: Stmt, active: Seq<Seq<char>>) -> Seq<(Seq<char>, bool, bool, Span)>
    decreases s, 1int,
{
    match s {
        Stmt::Divine(d) => seq![site(d.oracle@, active, d.span)],
        Stmt::Grant { caps, body, .. } => block_sites(body@, active + cap_names(caps@)),
        Stmt::Within { body, .. } => block_sites(body@, active),
        Stmt::While { body, .. } => block_sites(body@, active),
        Stmt::If { then_branch, else_branch, .. } => block_sites(then_branch@, active) + match else_branch {
            Some(eb) => block_sites(eb@, active),
            None => Seq::empty(),
        },
        Stmt::Enact { arms, .. } => arms_sites(arms@, active),
        _ => Seq::empty(),
    }
}

pub open spec fn arms_sites(arms: Seq<EnactArm>, active: Seq<Seq<char>>) -> Seq<(Seq<char>, bool, bool, Span)>
    decreases arms, 2int,
{
    if arms.len() == 0 {
        Seq::empty()
    } else {
        arms_sites(arms.drop_last(), active) + block_sites(arms.last().body@, active)
    }
}

/// The sites of a program: a definition's body runs under its `requires`,
/// a familiar's under its `permits`, a top-level statement under nothing.
pub open spec fn program_sites(items: Seq<Item>) -> Seq<(Seq<char>, bool, bool, Span)>
    decreases items.len(),
{
    if items.len() == 0 {
        Seq::empty()
    } else {
        program_sites(items.drop_last()) + match items.last() {
            Item::Define(f) => block_sites(f.body@, cap_names(f.requires@)),
            Item::Familiar(fam) => block_sites(fam.body@, cap_names(fam.permits@)),
            Item::Stmt(s) => stmt_sites(s, Seq::empty()),
            Item::Type(_) => Seq::empty(),
        }
    }
}

// ------------------------------------------------------------ needs

/// One inference need: an intent, the policy its sites require (network if
/// any site grants it, likewise the downgrade) and the first site's span.
pub struct OracleNeed {
    pub intent: String,
    pub allow_network: bool,
    pub allow_downgrade: bool,
    pub span: Span,
}

pub open spec fn need_view(n: OracleNeed) -> (Seq<char>, bool, bool, Span) {
    (n.intent@, n.allow_network, n.allow_downgrade, n.span)
}

pub open spec fn needs_view(ns: Seq<OracleNeed>) -> Seq<(Seq<char>, bool, bool, Span)> {
    ns.map_values(|n: OracleNeed| need_view(n))
}

/// The position of the need for `intent`, if there is one.
pub open spec fn need_index(needs: Seq<(Seq<char>, bool, bool, Span)>, intent: Seq<char>) -> Option<int>
    decreases needs.len(),
{
    if needs.len() == 0 {
        None
    } else {
        match need_index(needs.drop_last(), intent) {
            Some(k) => Some(k),
            None => if needs.last().0 == intent {
                Some(needs.len() - 1)
            } else {
                None
            },
        }
    }
}

/// A site joins the need for its intent (the flags accumulate), or starts it.
pub open spec fn add_site(
    needs: Seq<(Seq<char>, bool, bool, Span)>,
    intent: Seq<char>,
    net: bool,
    down: bool,
    span: Span,
) -> Seq<(Seq<char>, bool, bool, Span)> {
    match need_index(needs, intent) {
        Some(k) => needs.update(k, (intent, needs[k].1 || net, needs[k].2 || down, needs[k].3)),
        None => needs.push((intent, net, down, span)),
    }
}

/// The needs after the sites `sites`, each site's oracle read through the
/// summons.
pub open spec fn add_sites(
    needs: Seq<(Seq<char>, bool, bool, Span)>,
    sites: Seq<(Seq<char>, bool, bool, Span)>,
    summons: Seq<(Seq<char>, Seq<char>)>,
) -> Seq<(Seq<char>, bool, bool, Span)>
    decreases sites.len(),
{
    if sites.len() == 0 {
        needs
    } else {
        let s = sites.last();
        add_site(add_sites(needs, sites.drop_last(), summons), intent_of(summons, s.0), s.1, s.2, s.3)
    }
}

/// The needs of a program, in the order their intents first appear.
pub open spec fn program_needs(p: Program) -> Seq<(Seq<char>, bool, bool, Span)> {
    add_sites(Seq::empty(), program_sites(p.items@), summons_items(p.items@))
}

proof fn lemma_add_sites_concat(
    n: Seq<(Seq<char>, bool, bool, Span)>,
    a: Seq<(Seq<char>, bool, bool, Span)>,
    b: Seq<(Seq<char>, bool, bool, Span)>,
    summons: Seq<(Seq<char>, Seq<char>)>,
)
    ensures
        add_sites(n, a + b, summons) == add_sites(add_sites(n, a, summons), b, summons),
    decreases b.len(),
{
    if b.len() == 0 {
        assert(a + b =~= a);
    } else {
        lemma_add_sites_concat(n, a, b.drop_last(), summons);
        assert((a + b).drop_last() =~= a + b.drop_last());
        assert((a + b).last() == b.last());
    }
}

proof fn lemma_need_index(needs: Seq<(Seq<char>, bool, bool, Span)>, intent: Seq<char>)
    ensures
        need_index(needs, intent) matches Some(k) ==> 0 <= k < needs.len() && needs[k].0 == intent
            && forall|j: int| 0 <= j < k ==> needs[j].0 != intent,
        need_index(needs, intent) is None ==> forall|j: int| 0 <= j < needs.len() ==> needs[j].0 != intent,
    decreases needs.len(),
{
    if needs.len() > 0 {
        lemma_need_index(needs.drop_last(), intent);
        assert forall|j: int| 0 <= j < needs.len() - 1 implies needs[j] == needs.drop_last()[j] by {}
    }
}

/// Folds one site into the needs.
fn add_need(out: &mut Vec<OracleNeed>, intent: String, net: bool, down: bool, span: Span)
    ensures
        needs_view(final(out)@) == add_site(needs_view(old(out)@), intent@, net, down, span),
{
    proof {
        lemma_need_index(needs_view(out@), intent@);
    }
    let n = out.len();
    let mut i: usize = 0;
    while i < n
        invariant
            n == out@.len(),
            i <= n,
            out@ == old(out)@,
            forall|j: int| 0 <= j < i ==> out@[j].intent@ != intent@,
        decreases n - i,
    {
        if str_eq(out[i].intent.as_str(), intent.as_str()) {
            proof {
                let nv = needs_view(out@);
                lemma_need_index(nv, intent@);
                assert(nv[i as int].0 == intent@);
                match need_index(nv, intent@) {
                    Some(k) => {
                        if k < i {
                            assert(nv[k].0 == out@[k].intent@);
                        }
                        assert(k == i);
                    },
                    None => {
                        assert(false);
                    },
                }
            }
            let old_net = out[i].allow_network;
            let old_down = out[i].allow_downgrade;
            let old_span = out[i].span;
            out.set(i, OracleNeed { intent, allow_network: old_net || net, allow_downgrade: old_down || down, span: old_span });
            assert(needs_view(out@) =~= add_site(needs_view(old(out)@), intent@, net, down, span));
            return;
        }
        i = i + 1;
    }
    proof {
        let nv = needs_view(out@);
        lemma_need_index(nv, intent@);
        if need_index(nv, intent@) is Some {
            let k = need_index(nv, intent@)->0;
            assert(nv[k].0 == out@[k].intent@);
        }
    }
    out.push(OracleNeed { intent, allow_network: net, allow_downgrade: down, span });
    assert(needs_view(out@) =~= add_site(needs_view(old(out)@), intent@, net, down, span));
}

fn contains_name(active: &Vec<String>, name: &str) -> (r: bool)
    ensures
        r == views(active@).contains(name@),
{
    let n = active.len();
    let mut i: usize = 0;
    while i < n
        invariant
            n == active@.len(),
            i <= n,
            forall|j: int| 0 <= j < i ==> active@[j]@ != name@,
        decreases n - i,
    {
        if str_eq(active[i].as_str(), name) {
            assert(views(active@)[i as int] == name@);
            return true;
        }
        i = i + 1;
    }
    proof {
        if views(active@).contains(name@) {
            let j = choose|j: int| 0 <= j < views(active@).len() && views(active@)[j] == name@;
            assert(active@[j]@ == name@);
        }
    }
    false
}

/// `active` extended by the names of `caps`.
fn with_caps(active: &Vec<String>, caps: &Vec<Capability>) -> (r: Vec<String>)
    ensures
        views(r@) == views(active@) + cap_names(caps@),
{
    let mut out: Vec<String> = Vec::new();
    let n = active.len();
    let mut i: usize = 0;
    while i < n
        invariant
            n == active@.len(),
            i <= n,
            views(out@) == views(active@).take(i as int),
        decreases n - i,
    {
        let ghost prev = out@;
        out.push(active[i].clone());
        proof {
            crate::text::lemma_views_push(prev, active@[i as int]);
            assert(views(active@).take(i + 1) =~= views(active@).take(i as int).push(active@[i as int]@));
        }
        i = i + 1;
    }
    let m = caps.len();
    let mut k: usize = 0;
    while k < m
        invariant
            m == caps@.len(),
            k <= m,
            views(out@) == views(active@) + cap_names(caps@).take(k as int),
        decreases m - k,
    {
        let ghost prev = out@;
        let name = caps[k].display();
        out.push(name);
        proof {
            crate::text::lemma_views_push(prev, name);
            assert(views(active@) + cap_names(caps@).take(k + 1) =~= (views(active@) + cap_names(caps@).take(
                k as int,
            )).push(caps@[k as int].spec_display()));
        }
        k = k + 1;
    }
    assert(cap_names(caps@).take(m as int) =~= cap_names(caps@));
    out
}

fn walk_stmt(s: &Stmt, active: &Vec<String>, summons: &Vec<(String, String)>, out: &mut Vec<OracleNeed>)
    ensures
        needs_view(final(out)@) == add_sites(needs_view(old(out)@), stmt_sites(*s, views(active@)), oracle_views(summons@)),
    decreases s, 1int,
{
    let ghost sm = oracle_views(summons@);
    let ghost act = views(active@);
    match s {
        Stmt::Divine(d) => {
            let intent = lookup_intent(summons, &d.oracle);
            let net = contains_name(active, "permit(network)");
            let down = contains_name(active, "permit(unsafe_inference)");
            let ghost n0 = needs_view(out@);
            add_need(out, intent, net, down, d.span);
            proof {
                let ss = stmt_sites(*s, act);
                assert(ss.len() == 1);
                assert(ss.last() == site(d.oracle@, act, d.span));
                assert(ss.drop_last() =~= Seq::<(Seq<char>, bool, bool, Span)>::empty());
                assert(add_sites(n0, ss.drop_last(), sm) == n0);
            }
        },
        Stmt::Grant { caps, body, .. } => {
            let next = with_caps(active, caps);
            walk_block(body, &next, summons, out);
        },
        Stmt::Within { body, .. } | Stmt::While { body, .. } => {
            walk_block(body, active, summons, out);
        },
        Stmt::If { then_branch, else_branch, .. } => {
            let ghost n0 = needs_view(out@);
            walk_block(then_branch, active, summons, out);
            match else_branch {
                Some(eb) => {
                    walk_block(eb, active, summons, out);
                    proof {
                        lemma_add_sites_concat(n0, block_sites(then_branch@, act), block_sites(eb@, act), sm);
                    }
                },
                None => {
                    assert(block_sites(then_branch@, act) + Seq::<(Seq<char>, bool, bool, Span)>::empty()
                        =~= block_sites(then_branch@, act));
                },
            }
        },
        Stmt::Enact { arms, .. } => {
            walk_arms(arms, active, summons, out);
        },
        _ => {},
    }
}

fn walk_arms(arms: &Vec<EnactArm>, active: &Vec<String>, summons: &Vec<(String, String)>, out: &mut Vec<OracleNeed>)
    ensures
        needs_view(final(out)@) == add_sites(needs_view(old(out)@), arms_sites(arms@, views(active@)), oracle_views(summons@)),
    decreases arms@, 1int,
{
    let ghost sm = oracle_views(summons@);
    let ghost act = views(active@);
    let ghost n0 = needs_view(out@);
    let n = arms.len();
    let mut i: usize = 0;
    assert(arms@.take(0) =~= Seq::<EnactArm>::empty());
    while i < n
        invariant
            n == arms@.len(),
            i <= n,
            sm == oracle_views(summons@),
            act == views(active@),
            n0 == needs_view(old(out)@),
            needs_view(out@) == add_sites(n0, arms_sites(arms@.take(i as int), act), sm),
        decreases n - i,
    {
        proof {
            assert(decreases_to!(arms@ => arms@[i as int]));
            assert(decreases_to!(arms@[i as int] => arms@[i as int].body));
            assert(decreases_to!(arms@[i as int].body => arms@[i as int].body@));
        }
        walk_block(&arms[i].body, active, summons, out);
        proof {
            let t = arms@.take(i + 1);
            assert(t.drop_last() =~= arms@.take(i as int));
            assert(t.last() == arms@[i as int]);
            lemma_add_sites_concat(n0, arms_sites(arms@.take(i as int), act), block_sites(arms@[i as int].body@, act), sm);
        }
        i = i + 1;
    }
    assert(arms@.take(n as int) =~= arms@);
}

fn walk_block(ss: &Vec<Stmt>, active: &Vec<String>, summons: &Vec<(String, String)>, out: &mut Vec<OracleNeed>)
    ensures
        needs_view(final(out)@) == add_sites(needs_view(old(out)@), block_sites(ss@, views(active@)), oracle_views(summons@)),
    decreases ss@, 1int,
{
    let ghost sm = oracle_views(summons@);
    let ghost act = views(active@);
    let ghost n0 = needs_view(out@);
    let n = ss.len();
    let mut i: usize = 0;
    assert(ss@.take(0) =~= Seq::<Stmt>::empty());
    while i < n
        invariant
            n == ss@.len(),
            i <= n,
            sm == oracle_views(summons@),
            act == views(active@),
            n0 == needs_view(old(out)@),
            needs_view(out@) == add_sites(n0, block_sites(ss@.take(i as int), act), sm),
        decreases n - i,
    {
        walk_stmt(&ss[i], active, summons, out);
        proof {
            let t = ss@.take(i + 1);
            assert(t.drop_last() =~= ss@.take(i as int));
            assert(t.last() == ss@[i as int]);
            lemma_add_sites_concat(n0, block_sites(ss@.take(i as int), act), stmt_sites(ss@[i as int], act), sm);
        }
        i = i + 1;
    }
    assert(ss@.take(n as int) =~= ss@);
}

/// The inference needs of a program: for each intent its `divine` sites
/// consult (an oracle variable read through its latest summon), in the
/// order the intents first appear, whether any of those sites grants
/// `permit(network)` or `permit(unsafe_inference)`, and the first site.
pub fn oracle_needs(prog: &Program) -> (r: Vec<OracleNeed>)
    ensures
        needs_view(r@) == program_needs(*prog),
{
    let summons = summon_table(prog);
    let ghost sm = summons_items(prog.items@);
    let mut out: Vec<OracleNeed> = Vec::new();
    let empty: Vec<String> = Vec::new();
    let n = prog.items.len();
    let mut i: usize = 0;
    assert(prog.items@.take(0) =~= Seq::<Item>::empty());
    assert(needs_view(out@) =~= Seq::<(Seq<char>, bool, bool, Span)>::empty());
    assert(views(empty@) =~= Seq::<Seq<char>>::empty());
    while i < n
        invariant
            n == prog.items@.len(),
            i <= n,
            oracle_views(summons@) == sm,
            views(empty@) == Seq::<Seq<char>>::empty(),
            needs_view(out@) == add_sites(Seq::empty(), program_sites(prog.items@.take(i as int)), sm),
        decreases n - i,
    {
        let ghost before = needs_view(out@);
        match &prog.items[i] {
            Item::Define(f) => {
                let active = with_caps(&empty, &f.requires);
                assert(views(active@) =~= cap_names(f.requires@));
                walk_block(&f.body, &active, &summons, &mut out);
            },
            Item::Familiar(fam) => {
                let active = with_caps(&empty, &fam.permits);
                assert(views(active@) =~= cap_names(fam.permits@));
                walk_block(&fam.body, &active, &summons, &mut out);
            },
            Item::Stmt(s) => walk_stmt(s, &empty, &summons, &mut out),
            Item::Type(_) => {},
        }
        proof {
            let t = prog.items@.take(i + 1);
            assert(t.drop_last() =~= prog.items@.take(i as int));
            assert(t.last() == prog.items@[i as int]);
            let added = match prog.items@[i as int] {
                Item::Define(f) => block_sites(f.body@, cap_names(f.requires@)),
                Item::Familiar(fam) => block_sites(fam.body@, cap_names(fam.permits@)),
                Item::Stmt(s) => stmt_sites(s, Seq::empty()),
                Item::Type(_) => Seq::empty(),
            };
            assert(program_sites(t) == program_sites(prog.items@.take(i as int)) + added);
            lemma_add_sites_concat(Seq::empty(), program_sites(prog.items@.take(i as int)), added, sm);
        }
        i = i + 1;
    }
    assert(prog.items@.take(n as int) =~= prog.items@);
    out
}

// ------------------------------------------------------------ resolution

/// The policy a need is resolved under.
pub open spec fn policy_of(n: OracleNeed) -> Policy {
    need_policy(n.allow_network, n.allow_downgrade)
}

/// Resolves every need of a program against a manifest, before it starts:
/// one engine per need, in order. The first need that cannot be satisfied
/// makes the program refuse to start, with the refusal at its first site.
pub fn resolve_engines(m: &Manifest, needs: &Vec<OracleNeed>, seed: u64) -> (r: Result<Vec<(String, BoundEngine)>, Diagnostic>)
    ensures
        r is Ok <==> forall|i: int| 0 <= i < needs@.len() ==> binds(*m, #[trigger] needs@[i].intent@, policy_of(needs@[i])),
        r matches Ok(engines) ==> engines@.len() == needs@.len() && forall|k: int|
            #![trigger engines@[k]]
            0 <= k < engines@.len() ==> engines@[k].0@ == needs@[k].intent@ && resolution(
                *m,
                needs@[k].intent@,
                policy_of(needs@[k]),
                Ok(engines@[k].1),
            ),
        r matches Err(d) ==> d.stage == Stage::Runtime && exists|j: int|
            #![trigger needs@[j]]
            0 <= j < needs@.len() && (forall|i: int|
                0 <= i < j ==> binds(*m, #[trigger] needs@[i].intent@, policy_of(needs@[i])))
                && !binds(*m, needs@[j].intent@, policy_of(needs@[j])) && d.span == Some(needs@[j].span)
                && refusal(*m, needs@[j].intent@, policy_of(needs@[j]), d.message@),
{
    let mut engines: Vec<(String, BoundEngine)> = Vec::new();
    let n = needs.len();
    let mut i: usize = 0;
    while i < n
        invariant
            n == needs@.len(),
            i <= n,
            engines@.len() == i,
            forall|k: int| 0 <= k < i ==> binds(*m, #[trigger] needs@[k].intent@, policy_of(needs@[k])),
            forall|k: int|
                #![trigger engines@[k]]
                0 <= k < i ==> engines@[k].0@ == needs@[k].intent@ && resolution(
                    *m,
                    needs@[k].intent@,
                    policy_of(needs@[k]),
                    Ok(engines@[k].1),
                ),
        decreases n - i,
    {
        let policy = Policy {
            allow_network: needs[i].allow_network,
            latency: None,
            min_tier: None,
            litmus_strict: true,
            allow_downgrade: needs[i].allow_downgrade,
        };
        assert(policy == policy_of(needs@[i as int]));
        let res = m.resolve(needs[i].intent.as_str(), &policy, seed);
        match res {
            Ok(engine) => {
                engines.push((needs[i].intent.clone(), engine));
            },
            Err(e) => {
                let msg = e.message();
                let d = Diagnostic::runtime(msg, needs[i].span);
                proof {
                    assert(resolution(*m, needs@[i as int].intent@, policy, Err(e)));
                    assert(refusal(*m, needs@[i as int].intent@, policy, d.message@));
                }
                return Err(d);
            },
        }
        i = i + 1;
    }
    Ok(engines)
}

/// A need bound to a network engine cannot be satisfied unless one of its
/// sites grants `permit(network)`: the program refuses to start rather than
/// reach the network silently.
pub proof fn lemma_network_needs_permit(m: Manifest, n: OracleNeed)
    requires
        lookup_need(m.needs@, n.intent@) matches Some(b) && lookup_engine(m.engines@, b.engine@) matches Some(e)
            && is_frontier_kind(e.kind@),
        !n.allow_network,
    ensures
        !binds(m, n.intent@, policy_of(n)),
{
    reveal_strlit("mock");
    reveal_strlit("");
    reveal_strlit("anthropic");
    reveal_strlit("openai");
    reveal_strlit("frontier");
    let b = lookup_need(m.needs@, n.intent@)->0;
    let e = lookup_engine(m.engines@, b.engine@)->0;
    assert("mock"@.len() == 4 && ""@.len() == 0);
    assert("anthropic"@.len() == 9 && "openai"@.len() == 6 && "frontier"@.len() == 8);
    assert(!is_mock_kind(e.kind@));
}

/// A network engine is not litmus-safe, so a need bound to one is refused
/// unless one of its sites states the downgrade (`permit(unsafe_inference)`).
pub proof fn lemma_strict_needs_refuse_network(m: Manifest, n: OracleNeed)
    requires
        lookup_need(m.needs@, n.intent@) matches Some(b) && lookup_engine(m.engines@, b.engine@) matches Some(e)
            && is_frontier_kind(e.kind@),
        !n.allow_downgrade,
    ensures
        !binds(m, n.intent@, policy_of(n)),
{
    reveal_strlit("mock");
    reveal_strlit("");
    reveal_strlit("anthropic");
    reveal_strlit("openai");
    reveal_strlit("frontier");
    let b = lookup_need(m.needs@, n.intent@)->0;
    let e = lookup_engine(m.engines@, b.engine@)->0;
    assert("mock"@.len() == 4 && ""@.len() == 0);
    assert("anthropic"@.len() == 9 && "openai"@.len() == 6 && "frontier"@.len() == 8);
    assert(!is_mock_kind(e.kind@));
}

} // verus!
