//! The compiled path's engine bridge: a compiled `divine` is served through
//! the same manifest and policy rules as the interpreter, so a program picks
//! its engine purely by manifest and refuses to start when a need cannot be
//! satisfied. With no manifest installed, the built-in Mock serves every need.

use vstd::prelude::*;
use crate::engine::Policy;
use crate::manifest::{
    is_frontier_kind, is_llama_kind, is_mock_kind, parsed, lookup_engine, lookup_need, resolution, BoundEngine, Manifest,
    ResolveError,
};
use crate::text::str_eq;

verus! {

/// The policy a compiled need site carries: on-device unless it grants
/// `permit(network)`, litmus-strict unless it states a downgrade.
pub open spec fn need_policy(allow_network: bool, allow_downgrade: bool) -> Policy {
    Policy { allow_network, latency: None, min_tier: None, litmus_strict: true, allow_downgrade }
}

pub open spec fn site_policy(n: (String, bool, bool)) -> Policy {
    need_policy(n.1, n.2)
}

/// Does `intent` resolve to an engine under `policy`?
pub open spec fn binds(m: Manifest, intent: Seq<char>, policy: Policy) -> bool {
    match lookup_need(m.needs@, intent) {
        None => false,
        Some(b) => match lookup_engine(m.engines@, b.engine@) {
            None => false,
            Some(spec) => is_mock_kind(spec.kind@) || (!is_llama_kind(spec.kind@) && is_frontier_kind(spec.kind@)
                && policy.allow_network && !(policy.litmus_strict && !policy.allow_downgrade)),
        },
    }
}

/// `msg` is the refusal `intent` gets under `policy`.
pub open spec fn refusal(m: Manifest, intent: Seq<char>, policy: Policy, msg: Seq<char>) -> bool {
    exists|e: ResolveError| #[trigger] resolution(m, intent, policy, Err(e)) && e.spec_message() == msg
}

/// The index of the last of the first `done` needs that names `intent`, or -1.
pub open spec fn last_need(needs: Seq<(String, bool, bool)>, done: int, intent: Seq<char>) -> int
    decreases done,
{
    if done <= 0 {
        -1
    } else if needs[done - 1].0@ == intent {
        done - 1
    } else {
        last_need(needs, done - 1, intent)
    }
}

/// Need resolution agrees with `Manifest::resolve`: whatever `resolve`
/// gives for an intent under a policy (any `r` its contract admits), it is
/// `Ok` exactly when the need binds, and when it is an error, that error's
/// message is a refusal of the need. So `resolve_needs` succeeds exactly when
/// `resolve` succeeds for every need, and otherwise reports what `resolve`
/// reports for the first need that fails.
pub proof fn lemma_binds(m: Manifest, intent: Seq<char>, policy: Policy, r: Result<BoundEngine, ResolveError>)
    requires
        resolution(m, intent, policy, r),
    ensures
        r is Ok <==> binds(m, intent, policy),
        r matches Err(e) ==> refusal(m, intent, policy, e.spec_message()),
{
}

/// The engines resolved for the first `done` needs: one per distinct
/// intent, each resolved under the policy of the last need naming it.
pub open spec fn resolved(m: Manifest, needs: Seq<(String, bool, bool)>, done: int, bound: Seq<(String, BoundEngine)>) -> bool {
    &&& forall|a: int, b: int| 0 <= a < b < bound.len() ==> bound[a].0@ != bound[b].0@
    &&& forall|k: int|
        #![trigger bound[k]]
        0 <= k < bound.len() ==> {
            let i = last_need(needs, done, bound[k].0@);
            0 <= i && resolution(m, bound[k].0@, site_policy(needs[i]), Ok(bound[k].1))
        }
    &&& forall|i: int|
        #![trigger needs[i]]
        0 <= i < done ==> exists|k: int| 0 <= k < bound.len() && #[trigger] bound[k].0@ == needs[i].0@
}

proof fn lemma_last_need(needs: Seq<(String, bool, bool)>, done: int, intent: Seq<char>)
    requires
        0 <= done <= needs.len(),
    ensures
        -1 <= last_need(needs, done, intent) < done,
        last_need(needs, done, intent) >= 0 ==> needs[last_need(needs, done, intent)].0@ == intent,
        (exists|i: int| 0 <= i < done && needs[i].0@ == intent) ==> last_need(needs, done, intent) >= 0,
    decreases done,
{
    if done > 0 {
        lemma_last_need(needs, done - 1, intent);
    }
}

pub struct Bridge {
    manifest: Option<Manifest>,
    /// The engines resolved from the manifest at load, one per intent, so
    /// every site of an intent shares one engine.
    engines: Vec<(String, BoundEngine)>,
}

impl Bridge {
    pub closed spec fn spec_manifest(&self) -> Option<Manifest> {
        self.manifest
    }

    pub closed spec fn bound(&self) -> Seq<(String, BoundEngine)> {
        self.engines@
    }

    /// No manifest: the Mock serves every need.
    pub fn new() -> (b: Bridge)
        ensures
            b.spec_manifest() is None,
            b.bound().len() == 0,
    {
        Bridge { manifest: None, engines: Vec::new() }
    }

    /// Installs a manifest parsed from its text and drops any resolved
    /// engines; on a parse error nothing changes.
    pub fn set_manifest(&mut self, src: &str) -> (r: Result<(), String>)
        ensures
            r is Ok ==> (final(self).spec_manifest() matches Some(m) && parsed(src@, Ok(m)) && m.wf()),
            r is Ok ==> final(self).bound().len() == 0,
            r matches Err(e) ==> parsed(src@, Err(e)),
            r is Err ==> final(self).spec_manifest() == old(self).spec_manifest(),
            r is Err ==> final(self).bound() == old(self).bound(),
    {
        let m = Manifest::parse(src)?;
        self.manifest = Some(m);
        self.engines = Vec::new();
        Ok(())
    }

    /// Drops the manifest and every resolved engine.
    pub fn clear(&mut self)
        ensures
            final(self).spec_manifest() is None,
            final(self).bound().len() == 0,
    {
        self.manifest = None;
        self.engines = Vec::new();
    }

    /// Resolves every need (an intent, whether its site grants
    /// `permit(network)`, whether it states a downgrade) against the
    /// manifest, keeping the engines. The first need that cannot be
    /// satisfied refuses to start, with its refusal message. With no
    /// manifest this does nothing.
    pub fn resolve_needs(&mut self, needs: &Vec<(String, bool, bool)>, seed: u64) -> (r: Result<(), String>)
        ensures
            final(self).spec_manifest() == old(self).spec_manifest(),
            old(self).spec_manifest() is None ==> r is Ok && final(self).bound().len() == 0,
            old(self).spec_manifest() matches Some(m) ==> {
                &&& r is Ok <==> forall|i: int|
                    0 <= i < needs@.len() ==> binds(m, #[trigger] needs@[i].0@, site_policy(needs@[i]))
                &&& r is Ok ==> resolved(m, needs@, needs@.len() as int, final(self).bound())
                &&& r matches Err(msg) ==> exists|j: int|
                    #![trigger needs@[j]]
                    0 <= j < needs@.len() && (forall|i: int|
                        0 <= i < j ==> binds(m, #[trigger] needs@[i].0@, site_policy(needs@[i])))
                        && !binds(m, needs@[j].0@, site_policy(needs@[j])) && refusal(
                        m,
                        needs@[j].0@,
                        site_policy(needs@[j]),
                        msg@,
                    ) && resolved(m, needs@, j, final(self).bound())
            },
    {
        self.engines = Vec::new();
        let m = match &self.manifest {
            Some(m) => m,
            None => {
                return Ok(());
            },
        };
        let n = needs.len();
        let mut i: usize = 0;
        while i < n
            invariant
                n == needs@.len(),
                i <= n,
                self.manifest == Some(*m),
                old(self).manifest == Some(*m),
                forall|k: int| 0 <= k < i ==> binds(*m, #[trigger] needs@[k].0@, site_policy(needs@[k])),
                resolved(*m, needs@, i as int, self.engines@),
            decreases n - i,
        {
            let policy = Policy {
                allow_network: needs[i].1,
                latency: None,
                min_tier: None,
                litmus_strict: true,
                allow_downgrade: needs[i].2,
            };
            assert(policy == site_policy(needs@[i as int]));
            let res = m.resolve(needs[i].0.as_str(), &policy, seed);
            proof {
                lemma_binds(*m, needs@[i as int].0@, policy, res);
            }
            match res {
                Ok(engine) => {
                    let ghost old_bound = self.engines@;
                    let ghost x = needs@[i as int].0@;
                    let found = find_intent(&self.engines, needs[i].0.as_str());
                    match found {
                        Some(idx) => {
                            self.engines.set(idx, (needs[i].0.clone(), engine));
                        },
                        None => {
                            self.engines.push((needs[i].0.clone(), engine));
                        },
                    }
                    proof {
                        let b = self.engines@;
                        assert forall|k: int| 0 <= k < b.len() implies {
                            let li = last_need(needs@, i + 1, #[trigger] b[k].0@);
                            0 <= li && resolution(*m, b[k].0@, site_policy(needs@[li]), Ok(b[k].1))
                        } by {
                            if b[k].0@ != x {
                                assert(b[k] == old_bound[k]);
                            }
                        }
                        assert forall|p: int| #![trigger needs@[p]] 0 <= p < i + 1 implies exists|k: int|
                            0 <= k < b.len() && #[trigger] b[k].0@ == needs@[p].0@ by {
                            if p == i {
                                match found {
                                    Some(idx) => assert(b[idx as int].0@ == x),
                                    None => assert(b[old_bound.len() as int].0@ == x),
                                }
                            } else {
                                assert(0 <= p < i);
                                let k = choose|k: int| 0 <= k < old_bound.len() && #[trigger] old_bound[k].0@ == needs@[p].0@;
                                if old_bound[k].0@ == x {
                                    match found {
                                        Some(idx) => assert(b[idx as int].0@ == needs@[p].0@),
                                        None => assert(false),
                                    }
                                } else {
                                    assert(b[k] == old_bound[k]);
                                }
                            }
                        }
                        assert forall|a: int, c: int| 0 <= a < c < b.len() implies b[a].0@ != b[c].0@ by {
                            match found {
                                Some(idx) => {
                                    if a != idx && c != idx {
                                        assert(b[a] == old_bound[a] && b[c] == old_bound[c]);
                                    } else if a == idx {
                                        assert(b[c] == old_bound[c]);
                                        assert(old_bound[a].0@ == x);
                                    } else {
                                        assert(b[a] == old_bound[a]);
                                        assert(old_bound[c].0@ == x);
                                    }
                                },
                                None => {
                                    if c < old_bound.len() {
                                        assert(b[a] == old_bound[a] && b[c] == old_bound[c]);
                                    } else {
                                        assert(b[a] == old_bound[a]);
                                    }
                                },
                            }
                        }
                    }
                },
                Err(e) => {
                    let msg = e.message();
                    proof {
                        let j = i as int;
                        assert(refusal(*m, needs@[j].0@, policy, msg@));
                        assert(!binds(*m, needs@[j].0@, site_policy(needs@[j])));
                        assert(0 <= j < needs@.len() && (forall|k: int|
                            0 <= k < j ==> binds(*m, #[trigger] needs@[k].0@, site_policy(needs@[k])))
                            && !binds(*m, needs@[j].0@, site_policy(needs@[j])) && refusal(
                            *m,
                            needs@[j].0@,
                            site_policy(needs@[j]),
                            msg@,
                        ) && resolved(*m, needs@, j, self.engines@));
                    }
                    return Err(msg);
                },
            }
            i = i + 1;
        }
        Ok(())
    }
}

/// The index of the engine resolved for `intent`.
fn find_intent(v: &Vec<(String, BoundEngine)>, intent: &str) -> (r: Option<usize>)
    ensures
        match r {
            Some(i) => i < v@.len() && v@[i as int].0@ == intent@,
            None => forall|i: int| 0 <= i < v@.len() ==> v@[i].0@ != intent@,
        },
{
    let n = v.len();
    let mut i: usize = 0;
    while i < n
        invariant
            n == v@.len(),
            i <= n,
            forall|k: int| 0 <= k < i ==> v@[k].0@ != intent@,
        decreases n - i,
    {
        if str_eq(v[i].0.as_str(), intent) {
            return Some(i);
        }
        i = i + 1;
    }
    None
}

} // verus!
