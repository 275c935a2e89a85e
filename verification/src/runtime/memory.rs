//! The compiled runtime's governed-memory registry: named stores, a logical
//! clock shared by writes and `advance`, the retention filter, and the audit
//! log. Scope is enforced statically; what the runtime enforces is
//! retention (an expired entry is never returned) and audit (every access to
//! an audited store is logged).
//!
//! Stored values are opaque to the registry (`V`); retention is a whole
//! number of clock ticks.

use vstd::prelude::*;
use crate::text::{lemma_views_push, owned, push_str, str_eq, views};

verus! {

pub struct MemoryStore<V> {
    pub scope: String,
    /// How many ticks an entry stays live; `None` keeps entries forever.
    pub retention: Option<u64>,
    pub audit_required: bool,
    /// `(tick written, value)`, in write order.
    pub entries: Vec<(u64, V)>,
}

/// The index of the first store named `name`, or -1.
pub open spec fn store_index<V>(stores: Seq<(String, MemoryStore<V>)>, name: Seq<char>) -> int
    decreases stores.len(),
{
    if stores.len() == 0 {
        -1
    } else if stores[0].0@ == name {
        0
    } else {
        let i = store_index(stores.drop_first(), name);
        if i < 0 {
            -1
        } else {
            i + 1
        }
    }
}

/// The store named `name`.
pub open spec fn store_of<V>(stores: Seq<(String, MemoryStore<V>)>, name: Seq<char>) -> Option<MemoryStore<V>> {
    let i = store_index(stores, name);
    if 0 <= i < stores.len() {
        Some(stores[i].1)
    } else {
        None
    }
}

proof fn lemma_store_index<V>(stores: Seq<(String, MemoryStore<V>)>, name: Seq<char>)
    ensures
        -1 <= store_index(stores, name) < stores.len(),
        store_index(stores, name) >= 0 ==> stores[store_index(stores, name)].0@ == name,
        forall|j: int| 0 <= j < store_index(stores, name) ==> stores[j].0@ != name,
        store_index(stores, name) < 0 ==> forall|j: int| 0 <= j < stores.len() ==> stores[j].0@ != name,
    decreases stores.len(),
{
    if stores.len() > 0 && stores[0].0@ != name {
        lemma_store_index(stores.drop_first(), name);
        assert forall|j: int| 1 <= j < stores.len() implies stores[j] == stores.drop_first()[j - 1] by {}
    }
}

/// Is an entry written at `tick` still live at `now`?
pub open spec fn alive(tick: u64, now: u64, retention: Option<u64>) -> bool {
    match retention {
        None => true,
        Some(r) => now.saturating_sub(tick) <= r,
    }
}

/// The live entries, in write order.
pub open spec fn live<V>(es: Seq<(u64, V)>, now: u64, retention: Option<u64>) -> Seq<(u64, V)>
    decreases es.len(),
{
    if es.len() == 0 {
        Seq::empty()
    } else {
        live(es.drop_last(), now, retention) + (if alive(es.last().0, now, retention) {
            seq![es.last()]
        } else {
            Seq::empty()
        })
    }
}

/// Where the run of equal ticks that ends at `i - 1` starts.
pub open spec fn run_start<V>(es: Seq<(u64, V)>, i: int) -> int
    decreases i,
{
    if i <= 1 {
        0
    } else if es[i - 2].0 == es[i - 1].0 {
        run_start(es, i - 1)
    } else {
        i - 1
    }
}

/// The first `i` entries newest first: by descending tick, entries of equal
/// tick in write order (a stable sort by descending tick of entries written
/// in tick order).
pub open spec fn newest_first<V>(es: Seq<(u64, V)>, i: int) -> Seq<(u64, V)>
    decreases i,
{
    if i <= 0 {
        Seq::empty()
    } else {
        let j = run_start(es, i);
        if 0 <= j < i {
            es.subrange(j, i) + newest_first(es, j)
        } else {
            Seq::empty()
        }
    }
}

pub open spec fn values<V>(es: Seq<(u64, V)>) -> Seq<V> {
    es.map_values(|e: (u64, V)| e.1)
}

/// What a query of up to `k` entries returns: the live entries, newest
/// first, at most `k` of them.
pub open spec fn recent<V>(es: Seq<(u64, V)>, now: u64, retention: Option<u64>, k: nat) -> Seq<V> {
    let l = live(es, now, retention);
    let ordered = values(newest_first(l, l.len() as int));
    if k < ordered.len() {
        ordered.take(k as int)
    } else {
        ordered
    }
}

/// One step of a store's history: a write of a value, or the clock moving
/// on by some ticks.
pub enum MemStep<V> {
    Write(V),
    Advance(u64),
}

/// The entries a history leaves in a store that held `es` at clock `now`,
/// and the clock after it: a write records the value at the current tick
/// and moves the clock by one; an advance moves it by its ticks.
pub open spec fn replay<V>(es: Seq<(u64, V)>, now: u64, steps: Seq<MemStep<V>>) -> (Seq<(u64, V)>, u64)
    decreases steps.len(),
{
    if steps.len() == 0 {
        (es, now)
    } else {
        let (es1, c1) = replay(es, now, steps.drop_last());
        match steps.last() {
            MemStep::Write(v) => (es1.push((c1, v)), c1.saturating_add(1)),
            MemStep::Advance(n) => (es1, c1.saturating_add(n)),
        }
    }
}

/// How many ticks a history takes.
pub open spec fn elapsed<V>(steps: Seq<MemStep<V>>) -> nat
    decreases steps.len(),
{
    if steps.len() == 0 {
        0
    } else {
        elapsed(steps.drop_last()) + match steps.last() {
            MemStep::Write(_) => 1nat,
            MemStep::Advance(n) => n as nat,
        }
    }
}

/// Ticks strictly increase along `es`, and all lie before `now`.
pub open spec fn ticks_before<V>(es: Seq<(u64, V)>, now: u64) -> bool {
    &&& forall|a: int, b: int| 0 <= a < b < es.len() ==> es[a].0 < es[b].0
    &&& forall|a: int| 0 <= a < es.len() ==> es[a].0 < now
}

proof fn lemma_replay_ticks<V>(now: u64, steps: Seq<MemStep<V>>)
    requires
        now + elapsed(steps) < u64::MAX,
    ensures
        ticks_before(replay(Seq::<(u64, V)>::empty(), now, steps).0, replay(Seq::<(u64, V)>::empty(), now, steps).1),
        replay(Seq::<(u64, V)>::empty(), now, steps).1 == now + elapsed(steps),
    decreases steps.len(),
{
    if steps.len() > 0 {
        lemma_replay_ticks(now, steps.drop_last());
    }
}

proof fn lemma_live_ticks<V>(es: Seq<(u64, V)>, now: u64, r: Option<u64>)
    requires
        ticks_before(es, now),
    ensures
        ticks_before(live(es, now, r), now),
        forall|a: int| 0 <= a < live(es, now, r).len() ==> exists|b: int| 0 <= b < es.len() && #[trigger] live(es, now, r)[a] == es[b],
    decreases es.len(),
{
    if es.len() > 0 {
        let p = es.drop_last();
        assert(ticks_before(p, now));
        lemma_live_ticks(p, now, r);
        let lp = live(p, now, r);
        let l = live(es, now, r);
        assert forall|a: int| 0 <= a < l.len() implies exists|b: int| 0 <= b < es.len() && #[trigger] l[a] == es[b] by {
            if a < lp.len() {
                assert(l[a] == lp[a]);
                let b = choose|b: int| 0 <= b < p.len() && lp[a] == p[b];
                assert(l[a] == es[b]);
            } else {
                assert(l[a] == es[es.len() - 1]);
            }
        }
        assert forall|a: int, b: int| 0 <= a < b < l.len() implies l[a].0 < l[b].0 by {
            if b < lp.len() {
                assert(l[a] == lp[a] && l[b] == lp[b]);
            } else {
                assert(l[b] == es.last());
                assert(l[a] == lp[a]);
                let c = choose|c: int| 0 <= c < p.len() && lp[a] == p[c];
                assert(es[c] == p[c]);
            }
        }
        assert forall|a: int| 0 <= a < l.len() implies l[a].0 < now by {
            let c = choose|c: int| 0 <= c < es.len() && l[a] == es[c];
        }
    }
}

proof fn lemma_newest_first_reverses<V>(es: Seq<(u64, V)>, i: int)
    requires
        0 <= i <= es.len(),
        forall|a: int, b: int| 0 <= a < b < es.len() ==> es[a].0 < es[b].0,
    ensures
        newest_first(es, i) == es.take(i).reverse(),
    decreases i,
{
    if i > 0 {
        if i > 1 {
            assert(es[i - 2].0 < es[i - 1].0);
        }
        assert(run_start(es, i) == i - 1);
        lemma_newest_first_reverses(es, i - 1);
        assert(es.subrange(i - 1, i) + es.take(i - 1).reverse() =~= es.take(i).reverse());
    }
}

/// What a store answers after a history: from a store made at clock `now`
/// with retention `r`, after `steps` (short of the clock's limit), a query of
/// up to `k` entries gives the values of the live writes, newest first (the
/// reverse of write order), at most `k` of them. For example, `old` written,
/// ten ticks passed, `new` written, under a retention of five: only `new`.
pub proof fn lemma_query_after_history<V>(now: u64, steps: Seq<MemStep<V>>, r: Option<u64>, k: nat)
    requires
        now + elapsed(steps) < u64::MAX,
    ensures
        ({
            let (es, clock) = replay(Seq::<(u64, V)>::empty(), now, steps);
            let lv = values(live(es, clock, r)).reverse();
            recent(es, clock, r, k) == (if k < lv.len() { lv.take(k as int) } else { lv })
        }),
{
    lemma_replay_ticks::<V>(now, steps);
    let (es, clock) = replay(Seq::<(u64, V)>::empty(), now, steps);
    lemma_live_ticks(es, clock, r);
    let l = live(es, clock, r);
    lemma_newest_first_reverses(l, l.len() as int);
    assert(l.take(l.len() as int) =~= l);
    assert(values(l.reverse()) =~= values(l).reverse());
}

/// The audit line for an access.
pub open spec fn audit_line(name: Seq<char>, op: Seq<char>, scope: Seq<char>) -> Seq<char> {
    "memory="@ + name + " op="@ + op + " scope="@ + scope
}

/// The audit log after an access to `name` by `op`: extended by one line
/// when the store exists and is audited.
pub open spec fn audited<V>(stores: Seq<(String, MemoryStore<V>)>, log: Seq<Seq<char>>, name: Seq<char>, op: Seq<char>) -> Seq<Seq<char>> {
    match store_of(stores, name) {
        Some(s) => if s.audit_required {
            log.push(audit_line(name, op, s.scope@))
        } else {
            log
        },
        None => log,
    }
}

proof fn lemma_run_start<V>(es: Seq<(u64, V)>, i: int)
    requires
        0 < i <= es.len(),
    ensures
        0 <= run_start(es, i) < i,
        forall|m: int| run_start(es, i) <= m < i ==> #[trigger] es[m].0 == es[i - 1].0,
        run_start(es, i) > 0 ==> es[run_start(es, i) - 1].0 != es[i - 1].0,
    decreases i,
{
    if i > 1 && es[i - 2].0 == es[i - 1].0 {
        lemma_run_start(es, i - 1);
    }
}

/// Entries come out newest first: when entries are written in tick order,
/// the ticks of `newest_first` never increase.
pub proof fn lemma_newest_first_descends<V>(es: Seq<(u64, V)>, i: int)
    requires
        0 <= i <= es.len(),
        forall|a: int, b: int| 0 <= a <= b < es.len() ==> es[a].0 <= es[b].0,
    ensures
        newest_first(es, i).len() == i,
        forall|a: int, b: int|
            0 <= a <= b < i ==> newest_first(es, i)[a].0 >= newest_first(es, i)[b].0,
        forall|a: int| 0 <= a < i ==> newest_first(es, i)[a].0 <= es[i - 1].0,
    decreases i,
{
    if i > 0 {
        let j = run_start(es, i);
        lemma_run_start(es, i);
        lemma_newest_first_descends(es, j);
        let run = es.subrange(j, i);
        let rest = newest_first(es, j);
        assert forall|a: int, b: int| 0 <= a <= b < i implies newest_first(es, i)[a].0
            >= newest_first(es, i)[b].0 by {
            if a < run.len() && b >= run.len() {
                assert(rest[b - run.len()].0 <= es[j - 1].0);
            }
        }
    }
}

/// A query never returns an expired entry: everything it returns was
/// written within the retention of the moment of the query.
pub proof fn lemma_recent_is_live<V>(es: Seq<(u64, V)>, now: u64, retention: Option<u64>, k: nat)
    ensures
        forall|x: V|
            recent(es, now, retention, k).contains(x) ==> exists|e: (u64, V)|
                es.contains(e) && e.1 == x && alive(e.0, now, retention),
{
    let l = live(es, now, retention);
    lemma_live_subset(es, now, retention);
    lemma_newest_first_members(l, l.len() as int);
    let ordered = values(newest_first(l, l.len() as int));
    assert forall|x: V| recent(es, now, retention, k).contains(x) implies exists|e: (u64, V)|
        es.contains(e) && e.1 == x && alive(e.0, now, retention) by {
        let r = recent(es, now, retention, k);
        let p = choose|p: int| 0 <= p < r.len() && r[p] == x;
        assert(ordered[p] == x);
        let e = newest_first(l, l.len() as int)[p];
        assert(l.contains(e));
    }
}

proof fn lemma_live_subset<V>(es: Seq<(u64, V)>, now: u64, retention: Option<u64>)
    ensures
        forall|e: (u64, V)|
            #[trigger] live(es, now, retention).contains(e) ==> es.contains(e) && alive(e.0, now, retention),
    decreases es.len(),
{
    if es.len() > 0 {
        lemma_live_subset(es.drop_last(), now, retention);
        let tail: Seq<(u64, V)> = if alive(es.last().0, now, retention) {
            seq![es.last()]
        } else {
            Seq::empty()
        };
        assert forall|e: (u64, V)| live(es, now, retention).contains(e) implies es.contains(e)
            && alive(e.0, now, retention) by {
            let l = live(es, now, retention);
            let p = choose|p: int| 0 <= p < l.len() && l[p] == e;
            let d = live(es.drop_last(), now, retention);
            if p < d.len() {
                assert(d[p] == e);
                assert(d.contains(e));
                let q = choose|q: int| 0 <= q < es.drop_last().len() && es.drop_last()[q] == e;
                assert(es[q] == e);
            } else {
                assert(tail[p - d.len()] == e);
                assert(es[es.len() - 1] == e);
            }
        }
    }
}

proof fn lemma_newest_first_members<V>(es: Seq<(u64, V)>, i: int)
    requires
        0 <= i <= es.len(),
    ensures
        forall|p: int| 0 <= p < newest_first(es, i).len() ==> es.contains(#[trigger] newest_first(es, i)[p]),
    decreases i,
{
    if i > 0 {
        let j = run_start(es, i);
        lemma_run_start(es, i);
        lemma_newest_first_members(es, j);
        let run = es.subrange(j, i);
        assert forall|p: int| 0 <= p < newest_first(es, i).len() implies es.contains(
            #[trigger] newest_first(es, i)[p],
        ) by {
            if p < run.len() {
                assert(newest_first(es, i)[p] == es[j + p]);
            } else {
                assert(newest_first(es, i)[p] == newest_first(es, j)[p - run.len()]);
            }
        }
    }
}

pub struct Memories<V> {
    stores: Vec<(String, MemoryStore<V>)>,
    /// The logical clock shared by writes and `advance`.
    clock: u64,
    audit: Vec<String>,
}

impl<V: Copy> Memories<V> {
    pub closed spec fn spec_stores(&self) -> Seq<(String, MemoryStore<V>)> {
        self.stores@
    }

    pub closed spec fn spec_clock(&self) -> u64 {
        self.clock
    }

    pub closed spec fn spec_audit(&self) -> Seq<Seq<char>> {
        views(self.audit@)
    }

    /// Store names are distinct; each store's entries were written in tick
    /// order, none after the clock.
    pub open spec fn wf(&self) -> bool {
        &&& forall|a: int, b: int|
            0 <= a < b < self.spec_stores().len() ==> self.spec_stores()[a].0@ != self.spec_stores()[b].0@
        &&& forall|s: int, a: int, b: int|
            0 <= s < self.spec_stores().len() && 0 <= a <= b < self.spec_stores()[s].1.entries@.len()
                ==> self.spec_stores()[s].1.entries@[a].0 <= self.spec_stores()[s].1.entries@[b].0
        &&& forall|s: int, a: int|
            0 <= s < self.spec_stores().len() && 0 <= a < self.spec_stores()[s].1.entries@.len()
                ==> self.spec_stores()[s].1.entries@[a].0 <= self.spec_clock()
    }

    /// A fresh registry: no stores, clock at 0, empty audit log.
    pub fn new() -> (m: Memories<V>)
        ensures
            m.wf(),
            m.spec_stores().len() == 0,
            m.spec_clock() == 0,
            m.spec_audit().len() == 0,
    {
        let m = Memories { stores: Vec::new(), clock: 0, audit: Vec::new() };
        assert(m.spec_audit() =~= Seq::<Seq<char>>::empty());
        m
    }

    /// Clears every store, the clock and the audit log between runs.
    pub fn reset(&mut self)
        ensures
            final(self).wf(),
            final(self).spec_stores().len() == 0,
            final(self).spec_clock() == 0,
            final(self).spec_audit().len() == 0,
    {
        self.stores = Vec::new();
        self.clock = 0;
        self.audit = Vec::new();
        assert(self.spec_audit() =~= Seq::<Seq<char>>::empty());
    }

    /// Advances the clock by `n` ticks (saturating).
    pub fn advance(&mut self, n: u64)
        requires
            old(self).wf(),
        ensures
            final(self).wf(),
            final(self).spec_clock() == old(self).spec_clock().saturating_add(n),
            final(self).spec_stores() == old(self).spec_stores(),
            final(self).spec_audit() == old(self).spec_audit(),
    {
        self.clock = self.clock.saturating_add(n);
    }

    /// The accumulated audit log.
    pub fn audit_log(&self) -> (r: Vec<String>)
        ensures
            views(r@) == self.spec_audit(),
    {
        let mut r: Vec<String> = Vec::new();
        let n = self.audit.len();
        let mut i: usize = 0;
        while i < n
            invariant
                n == self.audit@.len(),
                i <= n,
                views(r@) == views(self.audit@.take(i as int)),
            decreases n - i,
        {
            let line = self.audit[i].clone();
            proof {
                lemma_views_push(r@, line);
                assert(self.audit@.take(i + 1) =~= self.audit@.take(i as int).push(self.audit@[i as int]));
                lemma_views_push(self.audit@.take(i as int), self.audit@[i as int]);
            }
            r.push(line);
            i = i + 1;
        }
        assert(self.audit@.take(n as int) =~= self.audit@);
        r
    }

    /// The index of the store named `name`.
    fn find_store(&self, name: &str) -> (r: Option<usize>)
        ensures
            match r {
                Some(i) => i as int == store_index(self.spec_stores(), name@) && i < self.spec_stores().len(),
                None => store_index(self.spec_stores(), name@) < 0,
            },
    {
        proof {
            lemma_store_index(self.stores@, name@);
        }
        let n = self.stores.len();
        let mut i: usize = 0;
        while i < n
            invariant
                n == self.stores@.len(),
                i <= n,
                forall|j: int| 0 <= j < i ==> self.stores@[j].0@ != name@,
            decreases n - i,
        {
            if str_eq(self.stores[i].0.as_str(), name) {
                proof {
                    lemma_store_index(self.stores@, name@);
                }
                return Some(i);
            }
            i = i + 1;
        }
        proof {
            lemma_store_index(self.stores@, name@);
        }
        None
    }

    /// Logs an access to `name` by `op` when that store is audited.
    fn record_access(&mut self, name: &str, op: &str)
        ensures
            final(self).spec_stores() == old(self).spec_stores(),
            final(self).spec_clock() == old(self).spec_clock(),
            final(self).spec_audit() == audited(old(self).spec_stores(), old(self).spec_audit(), name@, op@),
    {
        match self.find_store(name) {
            Some(i) => {
                if self.stores[i].1.audit_required {
                    let mut line = owned("memory=");
                    push_str(&mut line, name);
                    push_str(&mut line, " op=");
                    push_str(&mut line, op);
                    push_str(&mut line, " scope=");
                    push_str(&mut line, self.stores[i].1.scope.as_str());
                    proof {
                        lemma_views_push(self.audit@, line);
                        assert(line@ =~= audit_line(name@, op@, self.stores@[i as int].1.scope@));
                    }
                    self.audit.push(line);
                }
            },
            None => {},
        }
    }

    /// Registers a store, replacing any store of the same name (as a fresh
    /// declaration in a new run does).
    pub fn register(&mut self, name: &str, scope: &str, retention: Option<u64>, audit_required: bool)
        requires
            old(self).wf(),
        ensures
            final(self).wf(),
            store_of(final(self).spec_stores(), name@) matches Some(st) && st.scope@ == scope@
                && st.retention == retention && st.audit_required == audit_required
                && st.entries@.len() == 0,
            forall|o: Seq<char>|
                o != name@ ==> #[trigger] store_of(final(self).spec_stores(), o) == store_of(
                    old(self).spec_stores(),
                    o,
                ),
            final(self).spec_clock() == old(self).spec_clock(),
            final(self).spec_audit() == old(self).spec_audit(),
    {
        let ghost old_stores = self.stores@;
        let store = MemoryStore { scope: owned(scope), retention, audit_required, entries: Vec::new() };
        let found = self.find_store(name);
        match found {
            Some(i) => {
                self.stores.set(i, (owned(name), store));
            },
            None => {
                self.stores.push((owned(name), store));
            },
        }
        proof {
            let s = self.stores@;
            lemma_store_index(old_stores, name@);
            lemma_store_index(s, name@);
            assert forall|o: Seq<char>| o != name@ implies #[trigger] store_of(s, o) == store_of(old_stores, o) by {
                lemma_store_index(old_stores, o);
                lemma_store_index(s, o);
                let a = store_index(old_stores, o);
                let b = store_index(s, o);
                if a >= 0 {
                    assert(s[a] == old_stores[a]);
                    assert(b <= a);
                    if b < a {
                        assert(s[b] == old_stores[b]);
                    }
                } else if b >= 0 {
                    assert(s[b] == old_stores[b]);
                }
            }
            match found {
                Some(i) => {
                    assert(s[i as int].0@ == name@);
                    assert forall|j: int| 0 <= j < i implies s[j].0@ != name@ by {
                        assert(s[j] == old_stores[j]);
                    }
                    assert(store_index(s, name@) == i);
                },
                None => {
                    assert(s[old_stores.len() as int].0@ == name@);
                    assert forall|j: int| 0 <= j < old_stores.len() implies s[j].0@ != name@ by {
                        assert(s[j] == old_stores[j]);
                    }
                    assert(store_index(s, name@) == old_stores.len());
                },
            }
            assert forall|a: int, b: int| 0 <= a < b < s.len() implies s[a].0@ != s[b].0@ by {
                match found {
                    Some(i) => {
                        if a != i && b != i {
                            assert(s[a] == old_stores[a] && s[b] == old_stores[b]);
                        } else if a == i {
                            assert(s[b] == old_stores[b]);
                        } else {
                            assert(s[a] == old_stores[a]);
                        }
                    },
                    None => {
                        if b < old_stores.len() {
                            assert(s[a] == old_stores[a] && s[b] == old_stores[b]);
                        } else {
                            assert(s[a] == old_stores[a]);
                        }
                    },
                }
            }
            assert forall|t: int, a: int, b: int|
                0 <= t < s.len() && 0 <= a <= b < s[t].1.entries@.len() implies s[t].1.entries@[a].0
                <= s[t].1.entries@[b].0 by {
                assert(s[t] == old_stores[t]);
            }
            assert forall|t: int, a: int|
                0 <= t < s.len() && 0 <= a < s[t].1.entries@.len() implies s[t].1.entries@[a].0
                <= self.clock by {
                assert(s[t] == old_stores[t]);
            }
        }
    }

    /// Appends `v` to the store named `name` at the current tick (an
    /// unknown store takes nothing), logs the access, and advances the
    /// clock by one tick (saturating).
    pub fn write(&mut self, name: &str, v: V)
        requires
            old(self).wf(),
        ensures
            final(self).wf(),
            final(self).spec_audit() == audited(old(self).spec_stores(), old(self).spec_audit(), name@, "write"@),
            final(self).spec_clock() == old(self).spec_clock().saturating_add(1),
            match store_of(old(self).spec_stores(), name@) {
                Some(st) => store_of(final(self).spec_stores(), name@) matches Some(nt) && nt.scope
                    == st.scope && nt.retention == st.retention && nt.audit_required
                    == st.audit_required && nt.entries@ == st.entries@.push(
                    (old(self).spec_clock(), v),
                ),
                None => store_of(final(self).spec_stores(), name@) is None,
            },
            forall|o: Seq<char>|
                o != name@ ==> #[trigger] store_of(final(self).spec_stores(), o) == store_of(
                    old(self).spec_stores(),
                    o,
                ),
    {
        self.record_access(name, "write");
        let ghost before = self.stores@;
        let now = self.clock;
        match self.find_store(name) {
            Some(i) => {
                let mut entry = self.stores.remove(i);
                entry.1.entries.push((now, v));
                self.stores.insert(i, entry);
                proof {
                    let s = self.stores@;
                    assert(s =~= before.update(i as int, entry));
                    lemma_store_index(before, name@);
                    lemma_store_index(s, name@);
                    assert forall|j: int| 0 <= j < i implies s[j].0@ != name@ by {
                        assert(s[j] == before[j]);
                    }
                    assert(s[i as int].0 == before[i as int].0);
                    assert(store_index(s, name@) == i);
                    assert forall|o: Seq<char>| o != name@ implies #[trigger] store_of(s, o) == store_of(before, o) by {
                        lemma_store_index(before, o);
                        lemma_store_index(s, o);
                        let a = store_index(before, o);
                        let b = store_index(s, o);
                        if a >= 0 {
                            assert(s[a] == before[a]);
                            if b < a && b >= 0 {
                                assert(s[b] == before[b]);
                            }
                        } else if b >= 0 {
                            assert(s[b] == before[b]);
                        }
                    }
                }
            },
            None => {},
        }
        self.clock = self.clock.saturating_add(1);
        proof {
            let s = self.stores@;
            assert forall|a: int, b: int| 0 <= a < b < s.len() implies s[a].0@ != s[b].0@ by {
                assert(s[a].0@ == before[a].0@ && s[b].0@ == before[b].0@);
            }
            assert forall|t: int, a: int, b: int|
                0 <= t < s.len() && 0 <= a <= b < s[t].1.entries@.len() implies s[t].1.entries@[a].0
                <= s[t].1.entries@[b].0 by {
                if s[t] != before[t] {
                    assert(before[t].1.entries@.len() > 0 ==> before[t].1.entries@[before[t].1.entries@.len() - 1].0 <= now);
                    if b == s[t].1.entries@.len() - 1 && a < b {
                        assert(before[t].1.entries@[a].0 <= now);
                    }
                }
            }
            assert forall|t: int, a: int|
                0 <= t < s.len() && 0 <= a < s[t].1.entries@.len() implies s[t].1.entries@[a].0
                <= self.clock by {
                if s[t] != before[t] {
                    if a < before[t].1.entries@.len() {
                        assert(before[t].1.entries@[a].0 <= now);
                    }
                }
            }
        }
    }

    /// Up to `k` live entries of the store named `name`, newest first (none
    /// for an unknown store), logging the access as `op`.
    pub fn query(&mut self, name: &str, op: &str, k: usize) -> (r: Vec<V>)
        requires
            old(self).wf(),
        ensures
            final(self).wf(),
            final(self).spec_stores() == old(self).spec_stores(),
            final(self).spec_clock() == old(self).spec_clock(),
            final(self).spec_audit() == audited(old(self).spec_stores(), old(self).spec_audit(), name@, op@),
            r@ == (match store_of(old(self).spec_stores(), name@) {
                Some(st) => recent(st.entries@, old(self).spec_clock(), st.retention, k as nat),
                None => Seq::<V>::empty(),
            }),
    {
        self.record_access(name, op);
        match self.find_store(name) {
            Some(i) => {
                let st = &self.stores[i].1;
                let l = live_entries(&st.entries, self.clock, st.retention);
                let mut out = newest_first_values(&l);
                out.truncate(k);
                out
            },
            None => Vec::new(),
        }
    }
}

fn live_entries<V: Copy>(es: &Vec<(u64, V)>, now: u64, retention: Option<u64>) -> (l: Vec<(u64, V)>)
    ensures
        l@ == live(es@, now, retention),
{
    let mut l: Vec<(u64, V)> = Vec::new();
    let n = es.len();
    let mut i: usize = 0;
    while i < n
        invariant
            n == es@.len(),
            i <= n,
            l@ == live(es@.take(i as int), now, retention),
        decreases n - i,
    {
        let e = es[i];
        let keep = match retention {
            None => true,
            Some(r) => now.saturating_sub(e.0) <= r,
        };
        if keep {
            l.push(e);
        }
        proof {
            let t = es@.take(i + 1);
            assert(t.drop_last() =~= es@.take(i as int));
            assert(t.last() == e);
            assert(l@ =~= live(t, now, retention));
        }
        i = i + 1;
    }
    assert(es@.take(n as int) =~= es@);
    l
}

fn newest_first_values<V: Copy>(l: &Vec<(u64, V)>) -> (r: Vec<V>)
    ensures
        r@ == values(newest_first(l@, l@.len() as int)),
{
    let n = l.len();
    let mut out: Vec<V> = Vec::new();
    let mut i: usize = n;
    while i > 0
        invariant
            n == l@.len(),
            i <= n,
            out@ + values(newest_first(l@, i as int)) == values(newest_first(l@, n as int)),
        decreases i,
    {
        let t = l[i - 1].0;
        let mut j: usize = i - 1;
        while j > 0 && l[j - 1].0 == t
            invariant
                0 <= j < i <= n,
                n == l@.len(),
                l@[j as int].0 == t,
                t == l@[i - 1].0,
                run_start(l@, i as int) == run_start(l@, j + 1),
            decreases j,
        {
            j = j - 1;
        }
        proof {
            lemma_run_start(l@, i as int);
            assert(run_start(l@, i as int) == j);
        }
        let ghost before = out@;
        let mut m: usize = j;
        while m < i
            invariant
                j <= m <= i,
                i <= n,
                n == l@.len(),
                out@ == before + values(l@.subrange(j as int, m as int)),
            decreases i - m,
        {
            out.push(l[m].1);
            assert(values(l@.subrange(j as int, m + 1)) =~= values(l@.subrange(j as int, m as int)).push(l@[m as int].1));
            m = m + 1;
        }
        proof {
            let run = l@.subrange(j as int, i as int);
            assert(newest_first(l@, i as int) == run + newest_first(l@, j as int));
            assert(values(run + newest_first(l@, j as int)) =~= values(run) + values(newest_first(l@, j as int)));
            assert(out@ + values(newest_first(l@, j as int)) =~= values(newest_first(l@, n as int)));
        }
        i = j;
    }
    assert(out@ =~= values(newest_first(l@, n as int)));
    out
}

} // verus!
