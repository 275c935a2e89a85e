//! A lexically scoped environment. `let` bindings are immutable; `var`
//! bindings may be reassigned. Inner scopes read and assign bindings of the
//! scopes around them; a definition lands in the innermost scope. The
//! environment holds values of any type `V`.

use vstd::prelude::*;
use crate::text::{owned, str_eq};

verus! {

pub enum DefineError {
    Duplicate,
}

pub enum AssignError {
    Undefined,
    Immutable,
}

/// One scope: `(name, value, mutable)` in order of definition.
pub struct Scope<V> {
    bindings: Vec<(String, V, bool)>,
}

pub struct Env<V> {
    scopes: Vec<Scope<V>>,
}

/// The first binding of `name` in a scope.
/// The binding found is a `let`.
pub open spec fn binds_let<V>(f: Option<(V, bool)>) -> bool {
    match f {
        Some((_, m)) => !m,
        None => false,
    }
}

/// The binding found is a `var`.
pub open spec fn binds_var<V>(f: Option<(V, bool)>) -> bool {
    match f {
        Some((_, m)) => m,
        None => false,
    }
}

pub open spec fn scope_find<V>(b: Seq<(Seq<char>, V, bool)>, name: Seq<char>) -> Option<(V, bool)>
    decreases b.len(),
{
    if b.len() == 0 {
        None
    } else if b[0].0 == name {
        Some((b[0].1, b[0].2))
    } else {
        scope_find(b.drop_first(), name)
    }
}

/// The index of the innermost scope binding `name`, or -1.
pub open spec fn home<V>(scopes: Seq<Seq<(Seq<char>, V, bool)>>, name: Seq<char>) -> int
    decreases scopes.len(),
{
    if scopes.len() == 0 {
        -1
    } else if scope_find(scopes.last(), name) is Some {
        scopes.len() - 1
    } else {
        home(scopes.drop_last(), name)
    }
}

/// The innermost binding of `name`: its value and whether it is mutable.
pub open spec fn env_find<V>(scopes: Seq<Seq<(Seq<char>, V, bool)>>, name: Seq<char>) -> Option<(V, bool)> {
    let h = home(scopes, name);
    if 0 <= h < scopes.len() {
        scope_find(scopes[h], name)
    } else {
        None
    }
}

spec fn scope_view<V>(s: Scope<V>) -> Seq<(Seq<char>, V, bool)> {
    s.bindings@.map_values(|b: (String, V, bool)| (b.0@, b.1, b.2))
}

proof fn lemma_home<V>(scopes: Seq<Seq<(Seq<char>, V, bool)>>, name: Seq<char>)
    ensures
        -1 <= home(scopes, name) < scopes.len(),
        home(scopes, name) >= 0 ==> scope_find(scopes[home(scopes, name)], name) is Some,
        forall|i: int| home(scopes, name) < i < scopes.len() ==> scope_find(#[trigger] scopes[i], name) is None,
    decreases scopes.len(),
{
    if scopes.len() > 0 && scope_find(scopes.last(), name) is None {
        lemma_home(scopes.drop_last(), name);
        assert forall|i: int| home(scopes, name) < i < scopes.len() implies scope_find(#[trigger] scopes[i], name) is None by {
            if i < scopes.len() - 1 {
                assert(scopes[i] == scopes.drop_last()[i]);
            }
        }
    }
}

proof fn lemma_scope_find_index<V>(b: Seq<(Seq<char>, V, bool)>, name: Seq<char>, k: int)
    requires
        0 <= k < b.len(),
        b[k].0 == name,
        forall|j: int| 0 <= j < k ==> b[j].0 != name,
    ensures
        scope_find(b, name) == Some((b[k].1, b[k].2)),
    decreases k,
{
    if k > 0 {
        lemma_scope_find_index(b.drop_first(), name, k - 1);
    }
}

proof fn lemma_scope_find_none<V>(b: Seq<(Seq<char>, V, bool)>, name: Seq<char>)
    requires
        forall|j: int| 0 <= j < b.len() ==> b[j].0 != name,
    ensures
        scope_find(b, name) is None,
    decreases b.len(),
{
    if b.len() > 0 {
        lemma_scope_find_none(b.drop_first(), name);
    }
}

proof fn lemma_scope_find_absent<V>(b: Seq<(Seq<char>, V, bool)>, name: Seq<char>)
    requires
        scope_find(b, name) is None,
    ensures
        forall|j: int| 0 <= j < b.len() ==> b[j].0 != name,
    decreases b.len(),
{
    if b.len() > 0 {
        lemma_scope_find_absent(b.drop_first(), name);
        assert forall|j: int| 1 <= j < b.len() implies b[j] == b.drop_first()[j - 1] by {}
    }
}

/// Within a scope the first binding of a name is the one found; a name with
/// no binding there is not found.
pub proof fn lemma_scope_find_first<V>(b: Seq<(Seq<char>, V, bool)>, name: Seq<char>)
    ensures
        scope_find(b, name) matches Some(p) ==> exists|k: int|
            0 <= k < b.len() && #[trigger] b[k] == (name, p.0, p.1) && forall|j: int| 0 <= j < k ==> b[j].0 != name,
        scope_find(b, name) is None ==> forall|j: int| 0 <= j < b.len() ==> (#[trigger] b[j]).0 != name,
    decreases b.len(),
{
    if b.len() > 0 {
        let rest = b.drop_first();
        lemma_scope_find_first(rest, name);
        if b[0].0 == name {
            assert(b[0] == (name, b[0].1, b[0].2));
        } else {
            if scope_find(b, name) is Some {
                let p = scope_find(b, name)->Some_0;
                let k = choose|k: int|
                    0 <= k < rest.len() && #[trigger] rest[k] == (name, p.0, p.1) && forall|j: int| 0 <= j < k ==> rest[j].0 != name;
                assert(b[k + 1] == rest[k]);
                assert forall|j: int| 0 <= j < k + 1 implies b[j].0 != name by {
                    if j > 0 {
                        assert(b[j] == rest[j - 1]);
                    }
                }
            } else {
                lemma_scope_find_absent(b, name);
            }
        }
    }
}

/// A name resolves to its binding in the innermost scope that binds it;
/// a name no scope binds does not resolve.
pub proof fn lemma_env_find_innermost<V>(scopes: Seq<Seq<(Seq<char>, V, bool)>>, name: Seq<char>)
    ensures
        env_find(scopes, name) matches Some(p) ==> exists|i: int|
            0 <= i < scopes.len() && scope_find(#[trigger] scopes[i], name) == Some(p) && forall|j: int|
                i < j < scopes.len() ==> scope_find(#[trigger] scopes[j], name) is None,
        env_find(scopes, name) is None ==> forall|i: int|
            0 <= i < scopes.len() ==> scope_find(#[trigger] scopes[i], name) is None,
{
    lemma_home(scopes, name);
}

/// Opening a scope changes no lookup; closing it again restores the scopes.
pub proof fn lemma_push_scope_keeps_lookups<V>(scopes: Seq<Seq<(Seq<char>, V, bool)>>, name: Seq<char>)
    ensures
        env_find(scopes.push(Seq::empty()), name) == env_find(scopes, name),
        scopes.push(Seq::<(Seq<char>, V, bool)>::empty()).drop_last() == scopes,
{
    let s2 = scopes.push(Seq::<(Seq<char>, V, bool)>::empty());
    assert(s2.drop_last() =~= scopes);
    assert(scope_find(s2.last(), name) is None);
    lemma_home(scopes, name);
    if 0 <= home(scopes, name) {
        assert(s2[home(scopes, name)] == scopes[home(scopes, name)]);
    }
}

/// Where the first binding of `name` in a scope is, or -1.
fn scope_index<V>(s: &Scope<V>, name: &str) -> (r: Option<usize>)
    ensures
        match r {
            Some(k) => k < s.bindings@.len() && s.bindings@[k as int].0@ == name@ && scope_find(scope_view(*s), name@)
                == Some((s.bindings@[k as int].1, s.bindings@[k as int].2)) && forall|j: int|
                0 <= j < k ==> s.bindings@[j].0@ != name@,
            None => scope_find(scope_view(*s), name@) is None,
        },
{
    let ghost v = scope_view(*s);
    let n = s.bindings.len();
    let mut i: usize = 0;
    while i < n
        invariant
            n == s.bindings@.len(),
            i <= n,
            v == scope_view(*s),
            forall|j: int| 0 <= j < i ==> s.bindings@[j].0@ != name@,
        decreases n - i,
    {
        if str_eq(s.bindings[i].0.as_str(), name) {
            proof {
                assert forall|j: int| 0 <= j < i implies v[j].0 != name@ by {}
                lemma_scope_find_index(v, name@, i as int);
            }
            return Some(i);
        }
        i = i + 1;
    }
    proof {
        assert forall|j: int| 0 <= j < v.len() implies v[j].0 != name@ by {}
        lemma_scope_find_none(v, name@);
    }
    None
}

impl<V> Env<V> {
    /// The scopes, outermost first.
    pub closed spec fn view(&self) -> Seq<Seq<(Seq<char>, V, bool)>> {
        self.scopes@.map_values(|s: Scope<V>| scope_view(s))
    }

    /// One empty (global) scope.
    pub fn new() -> (e: Env<V>)
        ensures
            e.view() == seq![Seq::<(Seq<char>, V, bool)>::empty()],
    {
        let mut scopes: Vec<Scope<V>> = Vec::new();
        scopes.push(Scope { bindings: Vec::new() });
        let e = Env { scopes };
        assert(scope_view(e.scopes@[0]) =~= Seq::<(Seq<char>, V, bool)>::empty());
        assert(e.view() =~= seq![Seq::<(Seq<char>, V, bool)>::empty()]);
        e
    }

    /// How many scopes are open.
    pub fn depth(&self) -> (n: usize)
        ensures
            n == self.view().len(),
    {
        self.scopes.len()
    }

    /// Opens an inner scope.
    pub fn push(&mut self)
        ensures
            final(self).view() == old(self).view().push(Seq::empty()),
    {
        self.scopes.push(Scope { bindings: Vec::new() });
        assert(scope_view(self.scopes@.last()) =~= Seq::<(Seq<char>, V, bool)>::empty());
        assert(self.view() =~= old(self).view().push(Seq::empty()));
    }

    /// Closes the innermost scope, and with it every binding made there.
    pub fn pop(&mut self)
        ensures
            old(self).view().len() > 0 ==> final(self).view() == old(self).view().drop_last(),
            old(self).view().len() == 0 ==> final(self).view() == old(self).view(),
    {
        self.scopes.pop();
        assert(old(self).view().len() > 0 ==> self.view() =~= old(self).view().drop_last());
        assert(old(self).view().len() == 0 ==> self.view() =~= old(self).view());
    }

    /// Binds `name` in the innermost scope; a name already bound there is a
    /// duplicate, and nothing changes.
    pub fn define(&mut self, name: &str, value: V, mutable: bool) -> (r: Result<(), DefineError>)
        requires
            old(self).view().len() > 0,
        ensures
            scope_find(old(self).view().last(), name@) is Some ==> r is Err && final(self).view() == old(
                self,
            ).view(),
            scope_find(old(self).view().last(), name@) is None ==> r is Ok && final(self).view()
                == old(self).view().update(
                old(self).view().len() - 1,
                old(self).view().last().push((name@, value, mutable)),
            ),
            r is Ok ==> env_find(final(self).view(), name@) == Some((value, mutable)),
    {
        let last = self.scopes.len() - 1;
        assert(scope_view(self.scopes@[last as int]) == self.view()[last as int]);
        match scope_index(&self.scopes[last], name) {
            Some(_) => Err(DefineError::Duplicate),
            None => {
                let ghost before = self.scopes@;
                let mut scope = self.scopes.pop().unwrap();
                scope.bindings.push((owned(name), value, mutable));
                self.scopes.push(scope);
                proof {
                    let v = self.view();
                    assert(scope_view(scope) =~= old(self).view().last().push((name@, value, mutable)));
                    assert(v =~= old(self).view().update(
                        old(self).view().len() - 1,
                        old(self).view().last().push((name@, value, mutable)),
                    ));
                    let b = v.last();
                    lemma_scope_find_absent(old(self).view().last(), name@);
                    assert forall|j: int| 0 <= j < b.len() - 1 implies b[j].0 != name@ by {
                        assert(b[j] == old(self).view().last()[j]);
                    }
                    lemma_scope_find_index(b, name@, b.len() - 1);
                    assert(home(v, name@) == v.len() - 1);
                }
                Ok(())
            },
        }
    }

    /// The innermost scope binding `name`, searched from the inside out.
    fn find_home(&self, name: &str) -> (r: Option<(usize, usize)>)
        ensures
            match r {
                Some((s, k)) => s as int == home(self.view(), name@) && s < self.scopes@.len() && k
                    < self.scopes@[s as int].bindings@.len() && self.scopes@[s as int].bindings@[k as int].0@
                    == name@ && env_find(self.view(), name@) == Some(
                    (self.scopes@[s as int].bindings@[k as int].1, self.scopes@[s as int].bindings@[k as int].2),
                ) && forall|j: int| 0 <= j < k ==> self.scopes@[s as int].bindings@[j].0@ != name@,
                None => home(self.view(), name@) < 0 && env_find(self.view(), name@) is None,
            },
    {
        let ghost v = self.view();
        proof {
            lemma_home(v, name@);
        }
        let n = self.scopes.len();
        let mut s = n;
        while s > 0
            invariant
                s <= n,
                n == self.scopes@.len(),
                v == self.view(),
                forall|i: int| s <= i < n ==> scope_find(#[trigger] v[i], name@) is None,
            decreases s,
        {
            assert(scope_view(self.scopes@[s - 1]) == v[s - 1]);
            match scope_index(&self.scopes[s - 1], name) {
                Some(k) => {
                    proof {
                        lemma_home(v, name@);
                        let h = home(v, name@);
                        if h < s - 1 {
                            assert(scope_find(v[s - 1], name@) is None);
                        }
                        if h > s - 1 {
                            assert(scope_find(v[h], name@) is None);
                        }
                    }
                    return Some((s - 1, k));
                },
                None => {},
            }
            s = s - 1;
        }
        proof {
            lemma_home(v, name@);
            let h = home(v, name@);
            if h >= 0 {
                assert(scope_find(v[h], name@) is None);
            }
        }
        None
    }

    /// The value of the innermost binding of `name`.
    pub fn get(&self, name: &str) -> (r: Option<&V>)
        ensures
            r is Some <==> env_find(self.view(), name@) is Some,
            r matches Some(x) ==> (env_find(self.view(), name@) matches Some(p) && p.0 == *x),
    {
        match self.find_home(name) {
            Some((s, k)) => Some(&self.scopes[s].bindings[k].1),
            None => None,
        }
    }

    /// Reassigns the innermost binding of `name`: an unbound name is
    /// undefined, a `let` binding is immutable; on either error nothing
    /// changes.
    pub fn assign(&mut self, name: &str, value: V) -> (r: Result<(), AssignError>)
        ensures
            env_find(old(self).view(), name@) is None ==> (r matches Err(AssignError::Undefined)),
            binds_let(env_find(old(self).view(), name@)) ==> (r matches Err(AssignError::Immutable)),
            r is Err ==> final(self).view() == old(self).view(),
            binds_var(env_find(old(self).view(), name@)) ==> r is Ok,
            r is Ok ==> final(self).view().len() == old(self).view().len() && env_find(final(self).view(), name@)
                == Some((value, true)),
            r is Ok ==> forall|i: int|
                0 <= i < old(self).view().len() && i != home(old(self).view(), name@) ==> final(self).view()[i]
                    == #[trigger] old(self).view()[i],
            r is Ok ==> forall|n: Seq<char>|
                n != name@ ==> scope_find(final(self).view()[home(old(self).view(), name@)], n) == scope_find(
                    old(self).view()[home(old(self).view(), name@)],
                    n,
                ),
    {
        match self.find_home(name) {
            None => Err(AssignError::Undefined),
            Some((s, k)) => {
                if !self.scopes[s].bindings[k].2 {
                    return Err(AssignError::Immutable);
                }
                let ghost before = self.scopes@;
                let ghost vb = self.view();
                let mut sc = self.scopes.remove(s);
                let ghost old_bindings = sc.bindings@;
                let (nm, _prior, m) = sc.bindings.remove(k);
                sc.bindings.insert(k, (nm, value, m));
                self.scopes.insert(s, sc);
                proof {
                    let v = self.view();
                    assert(self.scopes@ =~= before.update(s as int, sc));
                    assert(sc.bindings@ =~= old_bindings.update(k as int, (nm, value, m)));
                    let b0 = vb[s as int];
                    let b1 = v[s as int];
                    assert(b1 =~= b0.update(k as int, (name@, value, true)));
                    assert forall|i: int| 0 <= i < vb.len() && i != s implies v[i] == #[trigger] vb[i] by {
                        assert(self.scopes@[i] == before[i]);
                    }
                    assert forall|i: int| 0 <= i < v.len() implies #[trigger] v[i].len() == vb[i].len() by {
                        if i != s {
                            assert(self.scopes@[i] == before[i]);
                        }
                    }
                    // the same names are bound everywhere, so `name` lives in the same scope
                    lemma_same_names_find(b0, b1, k as int, name@, value, true);
                    assert forall|n: Seq<char>| n != name@ implies scope_find(b1, n) == scope_find(b0, n) by {
                        lemma_update_other_name(b0, k as int, name@, value, true, n);
                    }
                    lemma_home(vb, name@);
                    lemma_home(v, name@);
                    let h = home(v, name@);
                    if h > s {
                        assert(v[h] == vb[h]);
                    }
                    if h < s {
                        assert(scope_find(v[s as int], name@) is None);
                    }
                }
                Ok(())
            },
        }
    }

    /// A fresh environment holding only (a copy of) the global scope: what a
    /// called function sees, so a caller's locals do not leak into it.
    pub fn global_only(&self) -> (r: Env<V>) where V: Clone
        requires
            self.view().len() > 0,
        ensures
            r.view().len() == 1,
            r.view()[0].len() == self.view()[0].len(),
            forall|j: int|
                0 <= j < r.view()[0].len() ==> (#[trigger] r.view()[0][j]).0 == self.view()[0][j].0
                    && r.view()[0][j].2 == self.view()[0][j].2 && cloned(self.view()[0][j].1, r.view()[0][j].1),
    {
        let g = &self.scopes[0];
        let ghost gv = self.view()[0];
        assert(scope_view(*g) == gv);
        let mut bindings: Vec<(String, V, bool)> = Vec::new();
        let n = g.bindings.len();
        let mut i: usize = 0;
        while i < n
            invariant
                n == g.bindings@.len(),
                gv == scope_view(*g),
                i <= n,
                bindings@.len() == i,
                forall|j: int|
                    0 <= j < i ==> (#[trigger] bindings@[j]).0@ == g.bindings@[j].0@ && bindings@[j].2
                        == g.bindings@[j].2 && cloned(g.bindings@[j].1, bindings@[j].1),
            decreases n - i,
        {
            let b = &g.bindings[i];
            let v = b.1.clone();
            bindings.push((b.0.clone(), v, b.2));
            i = i + 1;
        }
        let mut scopes: Vec<Scope<V>> = Vec::new();
        scopes.push(Scope { bindings });
        let r = Env { scopes };
        assert(r.view()[0] == scope_view(r.scopes@[0]));
        r
    }
}

proof fn lemma_update_other_name<V>(b: Seq<(Seq<char>, V, bool)>, k: int, name: Seq<char>, value: V, m: bool, n: Seq<char>)
    requires
        0 <= k < b.len(),
        b[k].0 == name,
        n != name,
    ensures
        scope_find(b.update(k, (name, value, m)), n) == scope_find(b, n),
    decreases b.len(),
{
    let u = b.update(k, (name, value, m));
    if k == 0 {
        assert(u.drop_first() =~= b.drop_first());
    } else {
        assert(u[0] == b[0]);
        if b[0].0 != n {
            lemma_update_other_name(b.drop_first(), k - 1, name, value, m, n);
            assert(u.drop_first() =~= b.drop_first().update(k - 1, (name, value, m)));
        }
    }
}

proof fn lemma_same_names_find<V>(b0: Seq<(Seq<char>, V, bool)>, b1: Seq<(Seq<char>, V, bool)>, k: int, name: Seq<char>, value: V, m: bool)
    requires
        0 <= k < b0.len(),
        b0[k].0 == name,
        b1 == b0.update(k, (name, value, m)),
        scope_find(b0, name) is Some,
        forall|j: int| 0 <= j < k ==> b0[j].0 != name,
    ensures
        scope_find(b1, name) == Some((value, m)),
{
    assert forall|j: int| 0 <= j < k implies b1[j].0 != name by {}
    lemma_scope_find_index(b1, name, k);
}

} // verus!
