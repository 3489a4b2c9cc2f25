//! A topological work-queue over a DAG of unit keys.
//!
//! Nodes enter with their dependencies and a growing list of jobs, and the
//! queue hands out nodes whose dependencies have all been marked finished.
//! Each node also carries a freshness verdict, tainted by every finished
//! dependency that reported Dirty, so dirtiness flows forward along
//! edges.

use vstd::prelude::*;
use crate::freshness::Freshness;
use crate::unit::{Key, QueuedJob};

verus! {

/// One registered node that has not been dequeued yet.
pub struct QueueEntry {
    pub key: Key,
    /// The registered dependencies that have not finished yet.
    pub deps: Vec<Key>,
    /// The verdict the node was registered with, combined with the verdicts
    /// of its finished dependencies.
    pub fresh: Freshness,
    /// The jobs queued against this key, in the order they were queued.
    pub jobs: Vec<QueuedJob>,
    /// The verdict the node was registered with.
    pub init: Ghost<Freshness>,
    /// Every dependency the node was registered with (itself excluded).
    pub registered_deps: Ghost<Seq<Key>>,
}

/// The queue. A key is in exactly one of three places: still waiting
/// (`entries`), dequeued but not yet finished (`in_flight`), or finished with
/// its reported verdict (`finished`).
pub struct DependencyQueue {
    pub entries: Vec<QueueEntry>,
    pub in_flight: Vec<Key>,
    pub finished: Vec<(Key, Freshness)>,
    /// Set once registration is over; nodes are dequeued only after that.
    pub sealed: bool,
}

impl DependencyQueue {
    pub open spec fn waiting_keys(self) -> Seq<Key> {
        self.entries@.map_values(|e: QueueEntry| e.key)
    }

    pub open spec fn finished_keys(self) -> Seq<Key> {
        self.finished@.map_values(|p: (Key, Freshness)| p.0)
    }

    /// Whether `k` has been marked finished.
    pub open spec fn is_finished(self, k: Key) -> bool {
        self.finished_keys().contains(k)
    }

    /// Whether some finished dependency out of `ds` reported a Dirty verdict.
    pub open spec fn some_finished_dirty(self, ds: Seq<Key>) -> bool {
        exists|j: int|
            0 <= j < self.finished@.len() && ds.contains(#[trigger] self.finished@[j].0)
                && self.finished@[j].1 is Dirty
    }

    /// The accumulated verdict of an entry is exactly its initial verdict
    /// tainted by the verdicts of its finished dependencies.
    pub open spec fn entry_fresh_ok(self, e: QueueEntry) -> bool {
        (e.fresh is Dirty) <==> (e.init@ is Dirty || self.some_finished_dirty(e.registered_deps@))
    }

    pub open spec fn entry_ok(self, e: QueueEntry) -> bool {
        &&& e.jobs@.len() >= 1
        &&& !e.registered_deps@.contains(e.key)
        &&& (forall|d: Key| e.deps@.contains(d) ==> e.registered_deps@.contains(d))
        &&& (forall|d: Key|
            e.registered_deps@.contains(d) ==> (e.deps@.contains(d) <==> !self.is_finished(d)))
        &&& self.entry_fresh_ok(e)
    }

    pub open spec fn wf(self) -> bool {
        &&& self.waiting_keys().no_duplicates()
        &&& self.in_flight@.no_duplicates()
        &&& self.finished_keys().no_duplicates()
        &&& (forall|k: Key| self.waiting_keys().contains(k) ==> !self.in_flight@.contains(k))
        &&& (forall|k: Key| self.waiting_keys().contains(k) ==> !self.is_finished(k))
        &&& (forall|k: Key| self.in_flight@.contains(k) ==> !self.is_finished(k))
        &&& (forall|i: int|
            0 <= i < self.entries@.len() ==> self.entry_ok(#[trigger] self.entries@[i]))
        &&& (!self.sealed ==> self.in_flight@.len() == 0 && self.finished@.len() == 0)
    }

    pub fn new() -> (q: DependencyQueue)
        ensures
            q.wf(),
            !q.sealed,
            q.entries@.len() == 0,
            q.in_flight@.len() == 0,
            q.finished@.len() == 0,
    {
        DependencyQueue {
            entries: Vec::new(),
            in_flight: Vec::new(),
            finished: Vec::new(),
            sealed: false,
        }
    }

    /// Registers one job against `key`. The first registration of a key
    /// records its dependency set (later ones only append the job: the
    /// scheduler always appends rather than errors) and its initial verdict.
    /// A self-dependency is ignored.
    #[verifier::loop_isolation(false)]
    pub fn queue(&mut self, init: Freshness, key: Key, job: QueuedJob, deps: &Vec<Key>)
        requires
            old(self).wf(),
            !old(self).sealed,
        ensures
            final(self).wf(),
            !final(self).sealed,
            final(self).in_flight@ == old(self).in_flight@,
            final(self).finished@ == old(self).finished@,
            final(self).waiting_keys().contains(key),
            old(self).waiting_keys().contains(key) ==> {
                &&& final(self).entries@.len() == old(self).entries@.len()
                &&& exists|i: int|
                    {
                        &&& 0 <= i < old(self).entries@.len()
                        &&& (#[trigger] old(self).entries@[i]).key == key
                        &&& final(self).entries@[i].jobs@ == old(self).entries@[i].jobs@.push(job)
                        &&& final(self).entries@[i].key == key
                        &&& final(self).entries@[i].deps@ == old(self).entries@[i].deps@
                        &&& final(self).entries@[i].fresh == old(self).entries@[i].fresh
                        &&& final(self).entries@[i].registered_deps@ == old(self).entries@[i].registered_deps@
                        &&& (forall|j: int|
                            0 <= j < final(self).entries@.len() && j != i ==> final(self).entries@[j] == old(self).entries@[j])
                    }
            },
            !old(self).waiting_keys().contains(key) ==> {
                &&& final(self).entries@.len() == old(self).entries@.len() + 1
                &&& final(self).entries@.take(old(self).entries@.len() as int) == old(self).entries@
                &&& final(self).entries@.last().key == key
                &&& final(self).entries@.last().jobs@ == seq![job]
                &&& final(self).entries@.last().fresh == init
                &&& final(self).entries@.last().init@ == init
                &&& final(self).entries@.last().deps@ == deps@.filter(|d: Key| d != key)
                &&& final(self).entries@.last().registered_deps@ == deps@.filter(
                    |d: Key| d != key,
                )
            },
    {
        let mut i: usize = 0;
        while i < self.entries.len()
            invariant
                i <= self.entries@.len(),
                forall|j: int| 0 <= j < i ==> (#[trigger] self.entries@[j]).key != key,
                *self == *old(self),
            decreases self.entries@.len() - i,
        {
            if self.entries[i].key == key {
                let mut e = self.entries.remove(i);
                let ghost olde = old(self).entries@[i as int];
                e.jobs.push(job);
                self.entries.insert(i, e);
                proof {
                    assert(self.entries@ =~= old(self).entries@.update(i as int, e));
                    assert(self.waiting_keys() =~= old(self).waiting_keys());
                    assert(self.waiting_keys()[i as int] == key);
                    assert forall|m: int| 0 <= m < self.entries@.len() implies self.entry_ok(
                        #[trigger] self.entries@[m],
                    ) by {
                        assert(old(self).entry_ok(old(self).entries@[m]));
                        if m == i {
                            assert(self.entries@[m] == e);
                            assert(e.deps@ == olde.deps@);
                            assert(e.registered_deps@ == olde.registered_deps@);
                            assert(e.fresh == olde.fresh);
                            assert(e.init@ == olde.init@);
                            lemma_entry_ok_same_finished(*old(self), *self, e);
                        } else {
                            lemma_entry_ok_same_finished(*old(self), *self, old(self).entries@[m]);
                        }
                    }
                }
                return ;
            }
            i = i + 1;
        }
        // Not registered yet: record the node with its dependency set.
        let mut my_deps: Vec<Key> = Vec::new();
        let mut d: usize = 0;
        while d < deps.len()
            invariant
                d <= deps@.len(),
                my_deps@ == deps@.take(d as int).filter(|x: Key| x != key),
            decreases deps@.len() - d,
        {
            proof {
                assert(deps@.take(d + 1int).drop_last() == deps@.take(d as int));
                reveal_with_fuel(Seq::filter, 2);
            }
            if !(deps[d] == key) {
                my_deps.push(deps[d]);
            }
            d = d + 1;
        }
        proof {
            assert(deps@.take(deps@.len() as int) == deps@);
        }
        let ghost reg = my_deps@;
        let mut jobs: Vec<QueuedJob> = Vec::new();
        jobs.push(job);
        let entry = QueueEntry {
            key,
            deps: my_deps,
            fresh: init,
            jobs,
            init: Ghost(init),
            registered_deps: Ghost(reg),
        };
        self.entries.push(entry);
        proof {
            assert(self.entries@.take(old(self).entries@.len() as int) =~= old(self).entries@);
            assert(self.waiting_keys() =~= old(self).waiting_keys().push(key));
            assert(seq![job] =~= Seq::empty().push(job));
            assert(self.waiting_keys().last() == key);
            assert(self.waiting_keys().contains(key));
            assert(!reg.contains(key)) by {
                seq_filter_contains(deps@, |x: Key| x != key, key);
            }
            assert forall|m: int| 0 <= m < self.entries@.len() implies self.entry_ok(
                #[trigger] self.entries@[m],
            ) by {
                if m < old(self).entries@.len() {
                    assert(self.entries@[m] == old(self).entries@[m]);
                    assert(old(self).entry_ok(old(self).entries@[m]));
                    lemma_entry_ok_same_finished(*old(self), *self, old(self).entries@[m]);
                } else {
                    assert(self.entries@[m] == entry);
                    // No finishes happen before sealing, so every registered
                    // dependency is still pending.
                    assert(self.finished@.len() == 0);
                    assert(self.finished_keys().len() == 0);
                    assert forall|dd: Key| reg.contains(dd) implies (entry.deps@.contains(dd)
                        <==> !self.is_finished(dd)) by {
                        assert(!self.is_finished(dd));
                    }
                    assert(!self.some_finished_dirty(reg));
                }
            }
            assert forall|k: Key| self.waiting_keys().contains(k) implies !self
                .in_flight@.contains(k) && !self.is_finished(k) by {
                assert(self.in_flight@.len() == 0);
                assert(self.finished_keys().len() == 0);
            }
            assert(self.waiting_keys().no_duplicates()) by {
                assert forall|p: int, q: int|
                    0 <= p < self.waiting_keys().len() && 0 <= q < self.waiting_keys().len() && p
                        != q implies self.waiting_keys()[p] != self.waiting_keys()[q] by {
                    if p < old(self).entries@.len() && q < old(self).entries@.len() {
                        assert(old(self).waiting_keys()[p] == self.waiting_keys()[p]);
                        assert(old(self).waiting_keys()[q] == self.waiting_keys()[q]);
                    } else if p < old(self).entries@.len() {
                        assert(self.waiting_keys()[q] == key);
                        assert(old(self).waiting_keys()[p] == self.waiting_keys()[p]);
                        if self.waiting_keys()[p] == key {
                            assert(old(self).waiting_keys().contains(key));
                        }
                    } else {
                        assert(self.waiting_keys()[p] == key);
                        assert(old(self).waiting_keys()[q] == self.waiting_keys()[q]);
                        if self.waiting_keys()[q] == key {
                            assert(old(self).waiting_keys().contains(key));
                        }
                    }
                }
            }
        }
    }

    /// Ends the registration phase; nodes are dequeued only after this.
    pub fn queue_finished(&mut self)
        requires
            old(self).wf(),
        ensures
            final(self).wf(),
            final(self).sealed,
            final(self).entries@ == old(self).entries@,
            final(self).in_flight@ == old(self).in_flight@,
            final(self).finished@ == old(self).finished@,
    {
        self.sealed = true;
        proof {
            assert(self.waiting_keys() =~= old(self).waiting_keys());
            assert(self.finished_keys() =~= old(self).finished_keys());
            assert forall|i: int| 0 <= i < self.entries@.len() implies self.entry_ok(
                #[trigger] self.entries@[i],
            ) by {
                assert(old(self).entry_ok(old(self).entries@[i]));
                lemma_entry_ok_same_finished(*old(self), *self, old(self).entries@[i]);
            }
        }
    }

    /// Hands out one node all of whose dependencies have finished, moving it
    /// into the in-flight set, together with its accumulated verdict and its
    /// jobs. Returns `None` exactly when no waiting node is unblocked (some
    /// may still wait on in-flight dependencies).
    #[verifier::loop_isolation(false)]
    pub fn dequeue(&mut self) -> (r: Option<(Freshness, Key, Vec<QueuedJob>)>)
        requires
            old(self).wf(),
            old(self).sealed,
        ensures
            final(self).wf(),
            final(self).sealed,
            final(self).finished@ == old(self).finished@,
            r is None ==> *final(self) == *old(self) && (forall|i: int|
                0 <= i < final(self).entries@.len() ==> (#[trigger] final(self).entries@[i]).deps@.len() > 0),
            r matches Some((fresh, key, jobs)) ==> exists|i: int|
                {
                    &&& 0 <= i < old(self).entries@.len()
                    &&& (#[trigger] old(self).entries@[i]).key == key
                    &&& old(self).entries@[i].deps@.len() == 0
                    // the node handed out is the first unblocked one
                    &&& (forall|j: int|
                        0 <= j < i ==> (#[trigger] old(self).entries@[j]).deps@.len() > 0)
                    &&& old(self).entries@[i].fresh == fresh
                    &&& old(self).entries@[i].jobs@ == jobs@
                    &&& jobs@.len() >= 1
                    // topological safety: every registered dependency of the
                    // node was marked finished before the node is handed out
                    &&& (forall|d: Key|
                        old(self).entries@[i].registered_deps@.contains(d) ==> old(self).is_finished(d))
                    &&& final(self).entries@ == old(self).entries@.remove(i)
                    &&& final(self).in_flight@ == old(self).in_flight@.push(key)
                },
    {
        let mut i: usize = 0;
        while i < self.entries.len()
            invariant
                i <= self.entries@.len(),
                forall|j: int| 0 <= j < i ==> (#[trigger] self.entries@[j]).deps@.len() > 0,
                *self == *old(self),
            decreases self.entries@.len() - i,
        {
            if self.entries[i].deps.len() == 0 {
                let e = self.entries.remove(i);
                self.in_flight.push(e.key);
                proof {
                    let oldq = *old(self);
                    assert(oldq.entry_ok(oldq.entries@[i as int]));
                    assert(e == oldq.entries@[i as int]);
                    assert forall|d: Key|
                        oldq.entries@[i as int].registered_deps@.contains(d) implies oldq
                        .is_finished(d) by {
                        if !oldq.is_finished(d) {
                            assert(oldq.entries@[i as int].deps@.contains(d));
                        }
                    }
                    assert(self.entries@ =~= oldq.entries@.remove(i as int));
                    assert(self.waiting_keys() =~= oldq.waiting_keys().remove(i as int));
                    assert(oldq.waiting_keys()[i as int] == e.key);
                    lemma_remove_no_duplicates(oldq.waiting_keys(), i as int);
                    lemma_remove_contains(oldq.waiting_keys(), i as int);
                    assert forall|k: Key| self.waiting_keys().contains(k) implies !self
                        .in_flight@.contains(k) by {
                        assert(oldq.waiting_keys().contains(k));
                        assert(!oldq.in_flight@.contains(k));
                        if self.in_flight@.contains(k) {
                            let w = choose|w: int|
                                0 <= w < self.in_flight@.len() && self.in_flight@[w] == k;
                            if w < oldq.in_flight@.len() {
                                assert(oldq.in_flight@[w] == k);
                                assert(oldq.in_flight@.contains(k));
                            } else {
                                assert(k == e.key);
                                lemma_remove_not_contains(oldq.waiting_keys(), i as int);
                            }
                        }
                    }
                    assert forall|k: Key| self.waiting_keys().contains(k) implies !self
                        .is_finished(k) by {
                        assert(oldq.waiting_keys().contains(k));
                        assert(!oldq.is_finished(k));
                        assert(self.finished_keys() =~= oldq.finished_keys());
                    }
                    assert(self.in_flight@.no_duplicates()) by {
                        assert(oldq.waiting_keys().contains(e.key));
                        assert(!oldq.in_flight@.contains(e.key));
                        assert forall|p: int, q: int|
                            0 <= p < self.in_flight@.len() && 0 <= q < self.in_flight@.len() && p
                                != q implies self.in_flight@[p] != self.in_flight@[q] by {
                            if p < oldq.in_flight@.len() && q < oldq.in_flight@.len() {
                            } else if p < oldq.in_flight@.len() {
                                assert(self.in_flight@[q] == e.key);
                                assert(oldq.in_flight@[p] == self.in_flight@[p]);
                                if self.in_flight@[p] == e.key {
                                    assert(oldq.in_flight@.contains(e.key));
                                }
                            } else {
                                assert(self.in_flight@[p] == e.key);
                                assert(oldq.in_flight@[q] == self.in_flight@[q]);
                                if self.in_flight@[q] == e.key {
                                    assert(oldq.in_flight@.contains(e.key));
                                }
                            }
                        }
                    }
                    assert forall|k: Key| self.in_flight@.contains(k) implies !self.is_finished(
                        k,
                    ) by {
                        let w = choose|w: int|
                            0 <= w < self.in_flight@.len() && self.in_flight@[w] == k;
                        if w < oldq.in_flight@.len() {
                            assert(oldq.in_flight@[w] == k);
                            assert(oldq.in_flight@.contains(k));
                        } else {
                            assert(k == e.key);
                            assert(oldq.waiting_keys().contains(k));
                        }
                        assert(!oldq.is_finished(k));
                        assert(self.finished_keys() =~= oldq.finished_keys());
                    }
                    assert forall|m: int| 0 <= m < self.entries@.len() implies self.entry_ok(
                        #[trigger] self.entries@[m],
                    ) by {
                        oldq.entries@.remove_ensures(i as int);
                        if m < i {
                            assert(self.entries@[m] == oldq.entries@[m]);
                            assert(oldq.entry_ok(oldq.entries@[m]));
                            lemma_entry_ok_same_finished(oldq, *self, oldq.entries@[m]);
                        } else {
                            assert(self.entries@[m] == oldq.entries@[m + 1]);
                            assert(oldq.entry_ok(oldq.entries@[m + 1]));
                            lemma_entry_ok_same_finished(oldq, *self, oldq.entries@[m + 1]);
                        }
                    }
                }
                return Some((e.fresh, e.key, e.jobs));
            }
            i = i + 1;
        }
        None
    }

    /// Marks a dequeued node's work complete with its resulting verdict,
    /// unblocking dependents and tainting their accumulated verdicts when the
    /// reported verdict is Dirty.
    #[verifier::loop_isolation(false)]
    pub fn finish(&mut self, key: &Key, fresh: Freshness)
        requires
            old(self).wf(),
            old(self).in_flight@.contains(*key),
        ensures
            final(self).wf(),
            final(self).sealed == old(self).sealed,
            exists|i: int|
                {
                    &&& 0 <= i < old(self).in_flight@.len()
                    &&& old(self).in_flight@[i] == *key
                    &&& final(self).in_flight@ == old(self).in_flight@.remove(i)
                },
            final(self).finished@ == old(self).finished@.push((*key, fresh)),
            final(self).entries@.len() == old(self).entries@.len(),
            forall|i: int|
                0 <= i < final(self).entries@.len() ==> {
                    &&& (#[trigger] final(self).entries@[i]).key == old(self).entries@[i].key
                    &&& final(self).entries@[i].jobs@ == old(self).entries@[i].jobs@
                    &&& final(self).entries@[i].registered_deps@ == old(self).entries@[i].registered_deps@
                    &&& final(self).entries@[i].init@ == old(self).entries@[i].init@
                    &&& final(self).entries@[i].deps@ == old(self).entries@[i].deps@.filter(
                        |d: Key| d != *key,
                    )
                    &&& final(self).entries@[i].fresh == old(self).entries@[i].fresh.spec_combine(
                        if old(self).entries@[i].registered_deps@.contains(*key) {
                            fresh
                        } else {
                            Freshness::Fresh
                        },
                    )
                },
    {
        // Find the key in the in-flight set, then take it out.
        let mut i: usize = 0;
        let mut idx: usize = 0;
        let mut found = false;
        while i < self.in_flight.len()
            invariant
                i <= self.in_flight@.len(),
                *self == *old(self),
                !found ==> forall|j: int| 0 <= j < i ==> self.in_flight@[j] != *key,
                found ==> idx < self.in_flight@.len() && self.in_flight@[idx as int] == *key,
            decreases self.in_flight@.len() - i,
        {
            if !found && self.in_flight[i] == *key {
                found = true;
                idx = i;
            }
            i = i + 1;
        }
        proof {
            if !found {
                let w = choose|w: int|
                    0 <= w < self.in_flight@.len() && self.in_flight@[w] == *key;
                assert(false);
            }
        }
        self.in_flight.remove(idx);
        self.finished.push((*key, fresh));
        proof {
            assert(self.finished_keys() =~= old(self).finished_keys().push(*key));
        }
        // Unblock dependents and taint their accumulated verdicts.
        let ghost mid = *self;
        let mut m: usize = 0;
        while m < self.entries.len()
            invariant
                m <= self.entries@.len(),
                self.entries@.len() == mid.entries@.len(),
                self.in_flight@ == mid.in_flight@,
                self.finished@ == mid.finished@,
                self.sealed == mid.sealed,
                forall|j: int|
                    m <= j < self.entries@.len() ==> #[trigger] self.entries@[j]
                        == mid.entries@[j],
                forall|j: int|
                    0 <= j < m ==> {
                        &&& (#[trigger] self.entries@[j]).key == mid.entries@[j].key
                        &&& self.entries@[j].jobs@ == mid.entries@[j].jobs@
                        &&& self.entries@[j].registered_deps@ == mid.entries@[j].registered_deps@
                        &&& self.entries@[j].init@ == mid.entries@[j].init@
                        &&& self.entries@[j].deps@ == mid.entries@[j].deps@.filter(
                            |d: Key| d != *key,
                        )
                        &&& self.entries@[j].fresh == mid.entries@[j].fresh.spec_combine(
                            if mid.entries@[j].registered_deps@.contains(*key) {
                                fresh
                            } else {
                                Freshness::Fresh
                            },
                        )
                    },
            decreases self.entries@.len() - m,
        {
            let mut e = self.entries.remove(m);
            let ghost olde = e;
            proof {
                assert(mid.entries@[m as int] == olde);
                assert(old(self).entries@[m as int] == olde);
            }
            let mut kept: Vec<Key> = Vec::new();
            let mut dd: usize = 0;
            let mut saw_dep = false;
            let deps_len = e.deps.len();
            while dd < deps_len
                invariant
                    dd <= e.deps@.len(),
                    deps_len == e.deps@.len(),
                    kept@ == e.deps@.take(dd as int).filter(|x: Key| x != *key),
                    saw_dep == e.deps@.take(dd as int).contains(*key),
                decreases e.deps@.len() - dd,
            {
                proof {
                    assert(e.deps@.take(dd + 1int).drop_last() == e.deps@.take(dd as int));
                    reveal_with_fuel(Seq::filter, 2);
                }
                if e.deps[dd] == *key {
                    saw_dep = true;
                    proof {
                        assert(e.deps@.take(dd + 1int)[dd as int] == *key);
                    }
                } else {
                    kept.push(e.deps[dd]);
                }
                proof {
                    if e.deps@.take(dd as int).contains(*key) {
                        let w = choose|w: int| 0 <= w < dd && e.deps@.take(dd as int)[w] == *key;
                        assert(e.deps@.take(dd + 1int)[w] == *key);
                    }
                }
                dd = dd + 1;
            }
            proof {
                assert(e.deps@.take(e.deps@.len() as int) == e.deps@);
            }
            e.deps = kept;
            if saw_dep {
                e.fresh = e.fresh.combine(fresh);
            }
            proof {
                // The key was a remaining dependency exactly when it was a
                // registered one, because it was in flight, hence unfinished.
                assert(old(self).entry_ok(olde));
                if olde.registered_deps@.contains(*key) {
                    assert(!old(self).is_finished(*key));
                    assert(olde.deps@.contains(*key));
                    assert(saw_dep);
                } else {
                    assert(!olde.deps@.contains(*key));
                    assert(!saw_dep);
                }
            }
            self.entries.insert(m, e);
            m = m + 1;
        }
        proof {
            let oldq = *old(self);
            assert(oldq.in_flight@[idx as int] == *key);
            assert(self.in_flight@ == oldq.in_flight@.remove(idx as int));
            lemma_remove_no_duplicates(oldq.in_flight@, idx as int);
            lemma_remove_contains(oldq.in_flight@, idx as int);
            oldq.in_flight@.remove_ensures(idx as int);
            assert(self.waiting_keys() =~= oldq.waiting_keys());
            assert(!oldq.is_finished(*key));
            assert forall|k: Key| self.waiting_keys().contains(k) implies !self
                .in_flight@.contains(k) by {
                assert(oldq.waiting_keys().contains(k));
                if self.in_flight@.contains(k) {
                    assert(oldq.in_flight@.contains(k));
                }
            }
            assert forall|k: Key| self.waiting_keys().contains(k) implies !self.is_finished(
                k,
            ) by {
                assert(oldq.waiting_keys().contains(k));
                assert(!oldq.is_finished(k));
                assert(k != *key) by {
                    if k == *key {
                        assert(oldq.in_flight@.contains(k));
                    }
                }
                if self.is_finished(k) {
                    let w = choose|w: int|
                        0 <= w < self.finished_keys().len() && self.finished_keys()[w] == k;
                    if w < oldq.finished@.len() {
                        assert(oldq.finished_keys()[w] == k);
                        assert(oldq.is_finished(k));
                    } else {
                        assert(self.finished_keys()[w] == *key);
                    }
                }
            }
            assert forall|k: Key| self.in_flight@.contains(k) implies !self.is_finished(k) by {
                assert(oldq.in_flight@.contains(k));
                assert(!oldq.is_finished(k));
                assert(k != *key) by {
                    if k == *key {
                        lemma_remove_not_contains(oldq.in_flight@, idx as int);
                    }
                }
                if self.is_finished(k) {
                    let w = choose|w: int|
                        0 <= w < self.finished_keys().len() && self.finished_keys()[w] == k;
                    if w < oldq.finished@.len() {
                        assert(oldq.finished_keys()[w] == k);
                    } else {
                        assert(self.finished_keys()[w] == *key);
                    }
                }
            }
            assert(self.finished_keys().no_duplicates()) by {
                assert forall|p: int, q: int|
                    0 <= p < self.finished_keys().len() && 0 <= q < self.finished_keys().len()
                        && p != q implies self.finished_keys()[p] != self.finished_keys()[q] by {
                    if p < oldq.finished@.len() && q < oldq.finished@.len() {
                        assert(oldq.finished_keys()[p] == self.finished_keys()[p]);
                        assert(oldq.finished_keys()[q] == self.finished_keys()[q]);
                    } else if p < oldq.finished@.len() {
                        assert(self.finished_keys()[q] == *key);
                        assert(oldq.finished_keys()[p] == self.finished_keys()[p]);
                        if self.finished_keys()[p] == *key {
                            assert(oldq.is_finished(*key));
                        }
                    } else {
                        assert(self.finished_keys()[p] == *key);
                        assert(oldq.finished_keys()[q] == self.finished_keys()[q]);
                        if self.finished_keys()[q] == *key {
                            assert(oldq.is_finished(*key));
                        }
                    }
                }
            }
            assert forall|i2: int| 0 <= i2 < self.entries@.len() implies self.entry_ok(
                #[trigger] self.entries@[i2],
            ) by {
                let e2 = self.entries@[i2];
                let olde2 = oldq.entries@[i2];
                assert(oldq.entry_ok(olde2));
                assert(e2.deps@ == olde2.deps@.filter(|d: Key| d != *key));
                assert(e2.jobs@.len() >= 1);
                assert(!e2.registered_deps@.contains(e2.key));
                assert forall|d2: Key| e2.deps@.contains(d2) implies e2.registered_deps@.contains(
                    d2,
                ) by {
                    seq_filter_contains(olde2.deps@, |d: Key| d != *key, d2);
                }
                assert forall|d2: Key| e2.registered_deps@.contains(d2) implies (e2.deps@.contains(
                    d2,
                ) <==> !self.is_finished(d2)) by {
                    seq_filter_contains_iff(olde2.deps@, |d: Key| d != *key, d2);
                    if d2 == *key {
                        assert(self.finished_keys().last() == *key);
                        assert(self.is_finished(d2));
                        assert(!e2.deps@.contains(d2));
                    } else {
                        assert(olde2.deps@.contains(d2) <==> e2.deps@.contains(d2));
                        assert(self.is_finished(d2) <==> oldq.is_finished(d2)) by {
                            if self.is_finished(d2) {
                                let w = choose|w: int|
                                    0 <= w < self.finished_keys().len()
                                        && self.finished_keys()[w] == d2;
                                if w < oldq.finished@.len() {
                                    assert(oldq.finished_keys()[w] == d2);
                                } else {
                                    assert(self.finished_keys()[w] == *key);
                                }
                            }
                            if oldq.is_finished(d2) {
                                let w = choose|w: int|
                                    0 <= w < oldq.finished_keys().len()
                                        && oldq.finished_keys()[w] == d2;
                                assert(self.finished_keys()[w] == d2);
                            }
                        }
                    }
                }
                assert(self.entry_fresh_ok(e2)) by {
                    lemma_fresh_accumulate(oldq, *self, olde2, e2, *key, fresh);
                }
            }
            assert(0 <= (idx as int) < oldq.in_flight@.len() && oldq.in_flight@[idx as int]
                == *key && self.in_flight@ == oldq.in_flight@.remove(idx as int));
        }
    }

    /// True when every registered node has been dequeued and finished.
    pub fn is_empty(&self) -> (r: bool)
        ensures
            r == (self.entries@.len() == 0 && self.in_flight@.len() == 0),
    {
        self.entries.len() == 0 && self.in_flight.len() == 0
    }

    /// The number of nodes still waiting to be dequeued.
    pub fn waiting_len(&self) -> (r: usize)
        ensures
            r == self.entries@.len(),
    {
        self.entries.len()
    }
}

/// Removing an element preserves distinctness.
proof fn lemma_remove_no_duplicates<A>(s: Seq<A>, i: int)
    requires
        0 <= i < s.len(),
        s.no_duplicates(),
    ensures
        s.remove(i).no_duplicates(),
{
    let t = s.remove(i);
    s.remove_ensures(i);
    assert forall|p: int, q: int|
        0 <= p < t.len() && 0 <= q < t.len() && p != q implies t[p] != t[q] by {
        if p < i {
            assert(t[p] == s[p]);
        } else {
            assert(t[p] == s[p + 1]);
        }
        if q < i {
            assert(t[q] == s[q]);
        } else {
            assert(t[q] == s[q + 1]);
        }
    }
}

/// Every member of a sequence with one element removed is a member of the
/// original sequence.
proof fn lemma_remove_contains<A>(s: Seq<A>, i: int)
    requires
        0 <= i < s.len(),
    ensures
        forall|x: A| s.remove(i).contains(x) ==> s.contains(x),
{
    let t = s.remove(i);
    s.remove_ensures(i);
    assert forall|x: A| t.contains(x) implies s.contains(x) by {
        let w = choose|w: int| 0 <= w < t.len() && t[w] == x;
        if w < i {
            assert(s[w] == x);
        } else {
            assert(s[w + 1] == x);
        }
    }
}

/// Removing the only occurrence from a duplicate-free sequence removes the
/// element.
proof fn lemma_remove_not_contains<A>(s: Seq<A>, i: int)
    requires
        0 <= i < s.len(),
        s.no_duplicates(),
    ensures
        !s.remove(i).contains(s[i]),
{
    let t = s.remove(i);
    s.remove_ensures(i);
    if t.contains(s[i]) {
        let w = choose|w: int| 0 <= w < t.len() && t[w] == s[i];
        if w < i {
            assert(s[w] == s[i]);
        } else {
            assert(s[w + 1] == s[i]);
        }
    }
}

/// With equal finished sets, an entry in order in one queue is in order in
/// the other.
proof fn lemma_entry_ok_same_finished(q1: DependencyQueue, q2: DependencyQueue, e: QueueEntry)
    requires
        q1.finished@ == q2.finished@,
        q1.entry_ok(e),
    ensures
        q2.entry_ok(e),
{
    assert(q1.finished_keys() =~= q2.finished_keys());
    assert forall|d: Key| e.registered_deps@.contains(d) implies (e.deps@.contains(d) <==> !q2
        .is_finished(d)) by {
        assert(e.deps@.contains(d) <==> !q1.is_finished(d));
    }
    assert(q1.some_finished_dirty(e.registered_deps@) == q2.some_finished_dirty(
        e.registered_deps@,
    )) by {
        if q1.some_finished_dirty(e.registered_deps@) {
            let j = choose|j: int|
                0 <= j < q1.finished@.len() && e.registered_deps@.contains(
                    #[trigger] q1.finished@[j].0,
                ) && q1.finished@[j].1 is Dirty;
            assert(q2.finished@[j] == q1.finished@[j]);
            assert(q2.some_finished_dirty(e.registered_deps@));
        }
        if q2.some_finished_dirty(e.registered_deps@) {
            let j = choose|j: int|
                0 <= j < q2.finished@.len() && e.registered_deps@.contains(
                    #[trigger] q2.finished@[j].0,
                ) && q2.finished@[j].1 is Dirty;
            assert(q1.finished@[j] == q2.finished@[j]);
            assert(q1.some_finished_dirty(e.registered_deps@));
        }
    }
}

/// A member of a filtered sequence is a member of the original and satisfies
/// the predicate.
pub proof fn seq_filter_contains<A>(s: Seq<A>, pred: spec_fn(A) -> bool, x: A)
    ensures
        s.filter(pred).contains(x) ==> s.contains(x) && pred(x),
    decreases s.len(),
{
    reveal_with_fuel(Seq::filter, 2);
    if s.len() > 0 {
        seq_filter_contains(s.drop_last(), pred, x);
        if s.filter(pred).contains(x) {
            if pred(s.last()) && x == s.last() {
                assert(s[s.len() - 1] == x);
            } else {
                assert(s.drop_last().filter(pred).contains(x)) by {
                    if pred(s.last()) {
                        let w = choose|w: int|
                            0 <= w < s.filter(pred).len() && s.filter(pred)[w] == x;
                        assert(s.filter(pred) == s.drop_last().filter(pred).push(s.last()));
                        assert(w < s.filter(pred).len() - 1);
                        assert(s.drop_last().filter(pred)[w] == x);
                    }
                }
                let v = choose|v: int| 0 <= v < s.drop_last().len() && s.drop_last()[v] == x;
                assert(s[v] == x);
            }
        }
    }
}

/// Membership in a filtered sequence, both directions.
pub proof fn seq_filter_contains_iff<A>(s: Seq<A>, pred: spec_fn(A) -> bool, x: A)
    ensures
        s.filter(pred).contains(x) <==> (s.contains(x) && pred(x)),
    decreases s.len(),
{
    seq_filter_contains(s, pred, x);
    reveal_with_fuel(Seq::filter, 2);
    if s.len() > 0 {
        seq_filter_contains_iff(s.drop_last(), pred, x);
        if s.contains(x) && pred(x) {
            let w = choose|w: int| 0 <= w < s.len() && s[w] == x;
            if w < s.len() - 1 {
                assert(s.drop_last()[w] == x);
                assert(s.drop_last().contains(x));
                assert(s.drop_last().filter(pred).contains(x));
                let v = choose|v: int|
                    0 <= v < s.drop_last().filter(pred).len() && s.drop_last().filter(pred)[v]
                        == x;
                if pred(s.last()) {
                    assert(s.filter(pred) == s.drop_last().filter(pred).push(s.last()));
                }
                assert(s.filter(pred)[v] == x);
            } else {
                assert(s.last() == x);
                assert(s.filter(pred).last() == x);
            }
        }
    }
}

proof fn lemma_fresh_accumulate(
    oldq: DependencyQueue,
    newq: DependencyQueue,
    olde: QueueEntry,
    newe: QueueEntry,
    key: Key,
    fresh: Freshness,
)
    requires
        oldq.entry_fresh_ok(olde),
        newq.finished@ == oldq.finished@.push((key, fresh)),
        newe.registered_deps@ == olde.registered_deps@,
        newe.init@ == olde.init@,
        newe.fresh == olde.fresh.spec_combine(
            if olde.registered_deps@.contains(key) {
                fresh
            } else {
                Freshness::Fresh
            },
        ),
    ensures
        newq.entry_fresh_ok(newe),
{
    let reg = olde.registered_deps@;
    if newe.fresh is Dirty {
        if olde.fresh is Dirty {
            if olde.init@ is Dirty {
            } else {
                let j = choose|j: int|
                    0 <= j < oldq.finished@.len() && reg.contains(#[trigger] oldq.finished@[j].0)
                        && oldq.finished@[j].1 is Dirty;
                assert(newq.finished@[j] == oldq.finished@[j]);
                assert(newq.some_finished_dirty(reg));
            }
        } else {
            assert(reg.contains(key) && fresh is Dirty);
            assert(newq.finished@[oldq.finished@.len() as int] == (key, fresh));
            assert(newq.finished@[oldq.finished@.len() as int].0 == key);
            assert(reg.contains(newq.finished@[oldq.finished@.len() as int].0));
            assert(newq.some_finished_dirty(reg));
        }
    }
    if newe.init@ is Dirty {
        assert(newe.fresh is Dirty);
    }
    if newq.some_finished_dirty(reg) {
        let j = choose|j: int|
            0 <= j < newq.finished@.len() && reg.contains(#[trigger] newq.finished@[j].0)
                && newq.finished@[j].1 is Dirty;
        if j < oldq.finished@.len() {
            assert(oldq.finished@[j] == newq.finished@[j]);
            assert(oldq.some_finished_dirty(reg));
            assert(newe.fresh is Dirty);
        } else {
            assert(newq.finished@[j] == (key, fresh));
            assert(reg.contains(key) && fresh is Dirty);
            assert(newe.fresh is Dirty);
        }
    }
}

} // verus!

verus! {

/// Among finitely many waiting entries there is one of minimal rank.
proof fn lemma_min_rank(entries: Seq<QueueEntry>, rank: Map<Key, nat>)
    requires
        entries.len() > 0,
    ensures
        exists|i: int|
            0 <= i < entries.len() && (forall|j: int|
                0 <= j < entries.len() ==> rank[(#[trigger] entries[i]).key] <= rank[
                    (#[trigger] entries[j]).key
                ]),
    decreases entries.len(),
{
    if entries.len() == 1 {
        assert(0 <= 0 < entries.len() && (forall|j: int|
            0 <= j < entries.len() ==> rank[(entries[0]).key] <= rank[(#[trigger] entries[j]).key]));
    } else {
        lemma_min_rank(entries.drop_last(), rank);
        let i0 = choose|i: int|
            0 <= i < entries.drop_last().len() && (forall|j: int|
                0 <= j < entries.drop_last().len() ==> rank[(#[trigger] entries.drop_last()[i]).key]
                    <= rank[(#[trigger] entries.drop_last()[j]).key]);
        assert(entries.drop_last()[i0] == entries[i0]);
        if rank[entries[i0].key] <= rank[entries.last().key] {
            assert forall|j: int| 0 <= j < entries.len() implies rank[(entries[i0]).key] <= rank[
                (#[trigger] entries[j]).key
            ] by {
                if j < entries.len() - 1 {
                    assert(entries.drop_last()[j] == entries[j]);
                }
            }
        } else {
            let l = entries.len() - 1;
            assert forall|j: int| 0 <= j < entries.len() implies rank[(entries[l]).key] <= rank[
                (#[trigger] entries[j]).key
            ] by {
                if j < entries.len() - 1 {
                    assert(entries.drop_last()[j] == entries[j]);
                }
            }
        }
    }
}

/// The queue cannot deadlock: whenever the remaining dependencies of the
/// waiting nodes are themselves waiting nodes (none is being built right
/// now), and the dependency relation is acyclic — witnessed by a rank that
/// strictly drops along every remaining edge — some waiting node is
/// unblocked and the next `dequeue` hands it out. Together with the
/// `dequeue` contract this gives topological liveness: every registered node
/// of an acyclic graph is eventually dequeued, exactly once.
pub proof fn lemma_ready_node_exists(q: DependencyQueue, rank: Map<Key, nat>)
    requires
        q.wf(),
        q.entries@.len() > 0,
        forall|i: int, d: Key|
            0 <= i < q.entries@.len() && #[trigger] q.entries@[i].deps@.contains(d)
                ==> q.waiting_keys().contains(d),
        forall|i: int, d: Key|
            0 <= i < q.entries@.len() && #[trigger] q.entries@[i].deps@.contains(d) ==> rank[d]
                < rank[q.entries@[i].key],
    ensures
        exists|i: int| 0 <= i < q.entries@.len() && (#[trigger] q.entries@[i]).deps@.len() == 0,
{
    lemma_min_rank(q.entries@, rank);
    let i0 = choose|i: int|
        0 <= i < q.entries@.len() && (forall|j: int|
            0 <= j < q.entries@.len() ==> rank[(#[trigger] q.entries@[i]).key] <= rank[
                (#[trigger] q.entries@[j]).key
            ]);
    if q.entries@[i0].deps@.len() > 0 {
        let d = q.entries@[i0].deps@[0];
        assert(q.entries@[i0].deps@.contains(d));
        assert(rank[d] < rank[q.entries@[i0].key]);
        assert(q.waiting_keys().contains(d));
        let j = choose|j: int|
            0 <= j < q.waiting_keys().len() && q.waiting_keys()[j] == d;
        assert(q.entries@[j].key == d);
        assert(rank[q.entries@[i0].key] <= rank[q.entries@[j].key]);
        assert(false);
    }
}

} // verus!
