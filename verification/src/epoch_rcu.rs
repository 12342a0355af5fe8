//! Epoch-based reclamation: an old version is not freed before its grace period has elapsed.
//!
//! A reader records the epoch at which it enters. Publishing a version advances the epoch and
//! queues the old version, tagged with the new epoch. A queued version may be freed once every
//! active reader entered at or after its tag: no reader that began before the publication is
//! left.

use crate::ordmap::share;
use std::sync::Arc;
use vstd::prelude::*;

verus! {

/// A queued version, tagged with the epoch at which it was retired.
pub type Retiree<T> = (u64, Arc<T>);

/// An epoch counter, the readers inside a critical section, and the versions waiting for their
/// grace period.
#[derive(Debug)]
pub struct EpochManager<T> {
    epoch: u64,
    active: Vec<u64>,
    retired: Vec<Retiree<T>>,
}

/// A reader inside a critical section. It leaves by [`EpochManager::exit`]; until it does, no
/// version retired after its entry can be freed.
#[must_use]
#[derive(Debug)]
pub struct Reader {
    entry: u64,
}

impl Reader {
    /// The epoch at which the reader entered.
    pub closed spec fn entry(&self) -> u64 {
        self.entry
    }
}

/// Every active reader entered at or after `e`.
pub open spec fn quiescent(active: Seq<u64>, e: u64) -> bool {
    forall|i: int| 0 <= i < active.len() ==> e <= #[trigger] active[i]
}

/// How many versions at the front of the queue are past their grace period.
pub open spec fn reclaimable<T>(active: Seq<u64>, retired: Seq<Retiree<T>>) -> nat
    decreases retired.len(),
{
    if retired.len() == 0 || !quiescent(active, retired[0].0) {
        0
    } else {
        1 + reclaimable(active, retired.skip(1))
    }
}

/// Tags increase along the queue, and nothing is tagged or entered later than `now`.
pub open spec fn orderly<T>(now: u64, active: Seq<u64>, retired: Seq<Retiree<T>>) -> bool {
    &&& forall|i: int, j: int|
        0 <= i < j < retired.len() ==> (#[trigger] retired[i]).0 < (#[trigger] retired[j]).0
    &&& forall|i: int| 0 <= i < retired.len() ==> (#[trigger] retired[i]).0 <= now
    &&& forall|i: int| 0 <= i < active.len() ==> #[trigger] active[i] <= now
}

/// `active` without one reader that entered at `entry`.
pub open spec fn without(active: Seq<u64>, entry: u64) -> Seq<u64>
    decreases active.len(),
{
    if active.len() == 0 {
        active
    } else if active[0] == entry {
        active.skip(1)
    } else {
        seq![active[0]] + without(active.skip(1), entry)
    }
}

impl<T> EpochManager<T> {
    /// The current epoch.
    pub closed spec fn now(&self) -> u64 {
        self.epoch
    }

    /// The entry epochs of the readers inside a critical section.
    pub closed spec fn active(&self) -> Seq<u64> {
        self.active@
    }

    /// The versions waiting for their grace period, oldest first.
    pub closed spec fn retired(&self) -> Seq<Retiree<T>> {
        self.retired@
    }

    /// Tags increase along the queue, and nothing is tagged or entered later than now.
    pub open spec fn wf(&self) -> bool {
        orderly(self.now(), self.active(), self.retired())
    }

    /// A manager at epoch 0, with no readers and nothing queued.
    pub fn new() -> (r: EpochManager<T>)
        ensures
            r.wf(),
            r.now() == 0,
            r.active() == Seq::<u64>::empty(),
            r.retired() == Seq::<Retiree<T>>::empty(),
    {
        EpochManager { epoch: 0, active: Vec::new(), retired: Vec::new() }
    }

    /// The current epoch.
    pub fn epoch(&self) -> (r: u64)
        ensures
            r == self.now(),
    {
        self.epoch
    }

    /// Enter a critical section.
    pub fn enter(&mut self) -> (r: Reader)
        requires
            old(self).wf(),
        ensures
            final(self).wf(),
            r.entry() == old(self).now(),
            final(self).now() == old(self).now(),
            final(self).active() == old(self).active().push(r.entry()),
            final(self).retired() == old(self).retired(),
    {
        let entry: u64 = self.enter_raw();
        Reader { entry }
    }

    /// Enter a critical section, keeping only the entry epoch.
    pub fn enter_raw(&mut self) -> (r: u64)
        requires
            old(self).wf(),
        ensures
            final(self).wf(),
            r == old(self).now(),
            final(self).now() == old(self).now(),
            final(self).active() == old(self).active().push(r),
            final(self).retired() == old(self).retired(),
    {
        let e: u64 = self.epoch;
        self.active.push(e);
        assert(orderly(self.epoch, self.active@, self.retired@));
        e
    }

    /// Leave a critical section.
    pub fn exit(&mut self, reader: Reader)
        requires
            old(self).wf(),
        ensures
            final(self).wf(),
            final(self).now() == old(self).now(),
            final(self).active() == without(old(self).active(), reader.entry()),
            final(self).retired() == old(self).retired(),
    {
        self.exit_raw(reader.entry);
    }

    /// Leave the critical section of a reader that entered at `entry`.
    pub fn exit_raw(&mut self, entry: u64)
        requires
            old(self).wf(),
        ensures
            final(self).wf(),
            final(self).now() == old(self).now(),
            final(self).active() == without(old(self).active(), entry),
            final(self).retired() == old(self).retired(),
    {
        let ghost all = self.active@;
        let mut i: usize = 0;
        assert(all.skip(0) =~= all);
        assert(without(all, entry) =~= all.take(0) + without(all.skip(0), entry));
        while i < self.active.len() && self.active[i] != entry
            invariant
                i <= self.active.len(),
                self.active@ == all,
                self.epoch == old(self).epoch,
                self.retired == old(self).retired,
                without(all, entry) == all.take(i as int) + without(all.skip(i as int), entry),
            decreases self.active.len() - i,
        {
            proof {
                let rest = all.skip(i as int);
                assert(rest.skip(1) =~= all.skip(i + 1));
                assert(all.take(i as int) + (seq![rest[0]] + without(all.skip(i + 1), entry))
                    =~= all.take(i + 1) + without(all.skip(i + 1), entry));
            }
            i = i + 1;
        }
        if i < self.active.len() {
            let _gone = self.active.remove(i);
            proof {
                let rest = all.skip(i as int);
                assert(rest.skip(1) =~= all.skip(i + 1));
                assert(self.active@ =~= all.take(i as int) + all.skip(i + 1));
            }
        } else {
            assert(all.skip(i as int) =~= seq![]);
            assert(all.take(i as int) + Seq::<u64>::empty() =~= all);
        }
        proof {
            lemma_without(all, entry);
            let now = self.active@;
            assert forall|i: int| 0 <= i < now.len() implies #[trigger] now[i] <= self.epoch by {
                assert(all.contains(now[i]));
                let j = choose|j: int| 0 <= j < all.len() && all[j] == now[i];
                assert(all[j] <= old(self).now());
            }
            assert(orderly(self.epoch, self.active@, self.retired@));
        }
    }

    /// Queue an old version, tagged with the epoch that this call advances to; returns that
    /// epoch.
    pub fn retire(&mut self, version: Arc<T>) -> (r: u64)
        requires
            old(self).wf(),
            old(self).now() < u64::MAX,
        ensures
            final(self).wf(),
            r == old(self).now() + 1,
            final(self).now() == r,
            final(self).active() == old(self).active(),
            final(self).retired() == old(self).retired().push((r, version)),
    {
        let e: u64 = self.epoch + 1;
        self.epoch = e;
        self.retired.push((e, version));
        assert(orderly(self.epoch, self.active@, self.retired@));
        e
    }

    /// Free every version whose grace period has elapsed; returns how many. A freed version is
    /// one that no active reader entered before, and every version that is kept is still
    /// blocked by an active reader.
    pub fn reclaim(&mut self) -> (r: usize)
        requires
            old(self).wf(),
        ensures
            final(self).wf(),
            r == reclaimable(old(self).active(), old(self).retired()),
            final(self).now() == old(self).now(),
            final(self).active() == old(self).active(),
            final(self).retired() == old(self).retired().skip(r as int),
            forall|i: int|
                0 <= i < r ==> quiescent(old(self).active(), (#[trigger] old(self).retired()[i]).0),
            forall|i: int|
                r <= i < old(self).retired().len() ==> !quiescent(
                    old(self).active(),
                    (#[trigger] old(self).retired()[i]).0,
                ),
    {
        let ghost all = self.retired@;
        let ghost readers = self.active@;
        let mut min: u64 = u64::MAX;
        let mut a: usize = 0;
        while a < self.active.len()
            invariant
                a <= self.active.len(),
                readers == self.active@,
                forall|e: u64| #[trigger] quiescent(readers.take(a as int), e) == (e <= min),
            decreases self.active.len() - a,
        {
            let x: u64 = self.active[a];
            proof {
                assert forall|e: u64| #[trigger] quiescent(readers.take(a + 1), e) == (e <= min
                    && e <= x) by {
                    let before = readers.take(a as int);
                    let now = readers.take(a + 1);
                    if quiescent(now, e) {
                        assert forall|i: int| 0 <= i < before.len() implies e
                            <= #[trigger] before[i] by {
                            assert(now[i] == before[i]);
                        }
                        assert(e <= now[a as int]);
                    }
                    if quiescent(before, e) && e <= x {
                        assert forall|i: int| 0 <= i < now.len() implies e <= #[trigger] now[i] by {
                            if i < a {
                                assert(now[i] == before[i]);
                            }
                        }
                    }
                    assert(quiescent(before, e) == (e <= min));
                }
            }
            if x < min {
                min = x;
            }
            a = a + 1;
        }
        assert(readers.take(readers.len() as int) =~= readers);
        let mut freed: usize = 0;
        assert(all.skip(0) =~= all);
        while freed < self.retired.len() && self.retired[freed].0 <= min
            invariant
                freed <= self.retired.len(),
                all == self.retired@,
                readers == self.active@,
                forall|e: u64| #[trigger] quiescent(readers, e) == (e <= min),
                reclaimable(readers, all) == freed + reclaimable(readers, all.skip(freed as int)),
                forall|i: int| 0 <= i < freed ==> quiescent(readers, (#[trigger] all[i]).0),
            decreases self.retired.len() - freed,
        {
            proof {
                let rest = all.skip(freed as int);
                assert(rest[0] == all[freed as int]);
                assert(rest.skip(1) =~= all.skip(freed + 1));
                assert(quiescent(readers, all[freed as int].0));
            }
            freed = freed + 1;
        }
        proof {
            let rest = all.skip(freed as int);
            if freed < all.len() {
                assert(rest[0] == all[freed as int]);
                assert(!quiescent(readers, all[freed as int].0));
                assert forall|i: int| freed <= i < all.len() implies !quiescent(
                    readers,
                    (#[trigger] all[i]).0,
                ) by {
                    assert(all[freed as int].0 <= all[i].0);
                }
            }
        }
        let kept: Vec<Retiree<T>> = self.retired.split_off(freed);
        self.retired = kept;
        assert(self.retired@ =~= all.skip(freed as int));
        proof {
            let q = self.retired@;
            assert forall|i: int, j: int| 0 <= i < j < q.len() implies (#[trigger] q[i]).0 < (
            #[trigger] q[j]).0 by {
                assert(all[freed + i].0 < all[freed + j].0);
            }
            assert forall|i: int| 0 <= i < q.len() implies (#[trigger] q[i]).0 <= self.epoch by {
                assert(all[freed + i].0 <= self.epoch);
            }
        }
        freed
    }

    /// How many versions wait for their grace period.
    pub fn pending(&self) -> (r: usize)
        ensures
            r == self.retired().len(),
    {
        self.retired.len()
    }
}

impl<T> Default for EpochManager<T> {
    fn default() -> (r: EpochManager<T>)
        ensures
            r.wf(),
            r.now() == 0,
            r.active() == Seq::<u64>::empty(),
            r.retired() == Seq::<Retiree<T>>::empty(),
    {
        EpochManager::new()
    }
}

/// Leaving takes out at most one entry and adds none.
pub proof fn lemma_without(active: Seq<u64>, entry: u64)
    ensures
        without(active, entry).len() == active.len() - (if active.contains(entry) {
            1int
        } else {
            0
        }),
        forall|i: int|
            0 <= i < without(active, entry).len() ==> active.contains(
                #[trigger] without(active, entry)[i],
            ),
    decreases active.len(),
{
    if active.len() > 0 {
        let rest = active.skip(1);
        let w = without(active, entry);
        if active[0] == entry {
            assert(active.contains(entry));
            assert forall|i: int| 0 <= i < w.len() implies active.contains(#[trigger] w[i]) by {
                assert(w[i] == active[i + 1]);
            }
        } else {
            lemma_without(rest, entry);
            assert(rest.contains(entry) == active.contains(entry)) by {
                if rest.contains(entry) {
                    let i = choose|i: int| 0 <= i < rest.len() && rest[i] == entry;
                    assert(active[i + 1] == entry);
                }
                if active.contains(entry) {
                    let i = choose|i: int| 0 <= i < active.len() && active[i] == entry;
                    assert(rest[i - 1] == entry);
                }
            }
            assert forall|i: int| 0 <= i < w.len() implies active.contains(#[trigger] w[i]) by {
                if i == 0 {
                    assert(w[0] == active[0]);
                } else {
                    let x = without(rest, entry)[i - 1];
                    assert(w[i] == x);
                    assert(rest.contains(x));
                    let j = choose|j: int| 0 <= j < rest.len() && rest[j] == x;
                    assert(active[j + 1] == x);
                }
            }
        }
    }
}

/// A version retired while a reader is inside its critical section is not freed before that
/// reader leaves.
pub proof fn law_a_reader_blocks_later_retirees<T>(
    active: Seq<u64>,
    retired: Seq<Retiree<T>>,
    reader: int,
    i: int,
)
    requires
        0 <= reader < active.len(),
        0 <= i < retired.len(),
        active[reader] < retired[i].0,
    ensures
        reclaimable(active, retired) <= i,
    decreases i,
{
    if i > 0 {
        let rest = retired.skip(1);
        assert(rest[i - 1] == retired[i]);
        law_a_reader_blocks_later_retirees(active, rest, reader, i - 1);
    }
}

/// A reader that enters after a version was retired does not keep it from being freed.
pub proof fn law_a_later_reader_does_not_block<T>(
    active: Seq<u64>,
    retired: Seq<Retiree<T>>,
    entry: u64,
)
    requires
        forall|i: int| 0 <= i < retired.len() ==> (#[trigger] retired[i]).0 <= entry,
    ensures
        reclaimable(active.push(entry), retired) == reclaimable(active, retired),
    decreases retired.len(),
{
    if retired.len() > 0 {
        let rest = retired.skip(1);
        let more = active.push(entry);
        assert forall|i: int| 0 <= i < rest.len() implies (#[trigger] rest[i]).0 <= entry by {
            assert(rest[i] == retired[i + 1]);
        }
        law_a_later_reader_does_not_block(active, rest, entry);
        let e = retired[0].0;
        assert(quiescent(more, e) == quiescent(active, e)) by {
            if quiescent(more, e) {
                assert forall|i: int| 0 <= i < active.len() implies e <= #[trigger] active[i] by {
                    assert(more[i] == active[i]);
                }
            }
            if quiescent(active, e) {
                assert forall|i: int| 0 <= i < more.len() implies e <= #[trigger] more[i] by {
                    if i < active.len() {
                        assert(more[i] == active[i]);
                    }
                }
            }
        }
    }
}

/// With no reader inside a critical section, everything queued is freed.
pub proof fn law_quiescence_frees_everything<T>(retired: Seq<Retiree<T>>)
    ensures
        reclaimable(Seq::<u64>::empty(), retired) == retired.len(),
    decreases retired.len(),
{
    if retired.len() > 0 {
        law_quiescence_frees_everything(retired.skip(1));
    }
}

/// Leaving takes out the first entry of that epoch; the others stay, in order.
proof fn lemma_without_first(active: Seq<u64>, entry: u64) -> (i: int)
    requires
        active.contains(entry),
    ensures
        0 <= i < active.len(),
        active[i] == entry,
        forall|j: int| 0 <= j < i ==> #[trigger] active[j] != entry,
        without(active, entry) == active.remove(i),
    decreases active.len(),
{
    let rest = active.skip(1);
    if active[0] == entry {
        assert(without(active, entry) =~= active.remove(0));
        0
    } else {
        let k = choose|k: int| 0 <= k < active.len() && active[k] == entry;
        assert(rest[k - 1] == entry);
        let i = lemma_without_first(rest, entry);
        assert forall|j: int| 0 <= j < i + 1 implies #[trigger] active[j] != entry by {
            if j > 0 {
                assert(rest[j - 1] == active[j]);
            }
        }
        assert(without(active, entry) =~= active.remove(i + 1));
        i + 1
    }
}

/// A reader that leaves is the only one that does: of its entry epoch there is one fewer, if there
/// was one at all, and every other entry epoch occurs as often as before.
pub proof fn law_leaving_takes_out_one_reader(active: Seq<u64>, entry: u64)
    ensures
        active.contains(entry) ==> without(active, entry).to_multiset()
            == active.to_multiset().remove(entry),
        active.contains(entry) ==> without(active, entry).to_multiset().count(entry) + 1
            == active.to_multiset().count(entry),
        !active.contains(entry) ==> without(active, entry) == active,
        forall|e: u64|
            e != entry ==> #[trigger] without(active, entry).to_multiset().count(e)
                == active.to_multiset().count(e),
        without(active, entry).len() == active.len() - (if active.contains(entry) {
            1int
        } else {
            0
        }),
{
    broadcast use vstd::multiset::group_multiset_axioms;
    lemma_without(active, entry);
    active.to_multiset_ensures();
    if active.contains(entry) {
        let i = lemma_without_first(active, entry);
        vstd::seq_lib::to_multiset_remove(active, i);
    } else {
        lemma_without_absent(active, entry);
    }
}

proof fn lemma_without_absent(active: Seq<u64>, entry: u64)
    requires
        !active.contains(entry),
    ensures
        without(active, entry) == active,
    decreases active.len(),
{
    if active.len() > 0 {
        let rest = active.skip(1);
        assert(active[0] != entry);
        assert(!rest.contains(entry)) by {
            if rest.contains(entry) {
                let i = choose|i: int| 0 <= i < rest.len() && rest[i] == entry;
                assert(active[i + 1] == entry);
            }
        }
        lemma_without_absent(rest, entry);
        assert(seq![active[0]] + rest =~= active);
    }
}

/// What is freed is the longest front of the queue whose tags no active reader entered before.
pub proof fn law_freed_versions_are_past_their_grace_period<T>(
    active: Seq<u64>,
    retired: Seq<Retiree<T>>,
)
    ensures
        reclaimable(active, retired) <= retired.len(),
        forall|i: int, a: int|
            0 <= i < reclaimable(active, retired) && 0 <= a < active.len() ==> (
            #[trigger] retired[i]).0 <= #[trigger] active[a],
        reclaimable(active, retired) < retired.len() ==> exists|a: int|
            0 <= a < active.len() && #[trigger] active[a] < retired[reclaimable(
                active,
                retired,
            ) as int].0,
    decreases retired.len(),
{
    if retired.len() > 0 && quiescent(active, retired[0].0) {
        let rest = retired.skip(1);
        law_freed_versions_are_past_their_grace_period(active, rest);
        assert forall|i: int, a: int|
            0 <= i < reclaimable(active, retired) && 0 <= a < active.len() implies (
        #[trigger] retired[i]).0 <= #[trigger] active[a] by {
            if i > 0 {
                assert(rest[i - 1] == retired[i]);
            }
        }
        if reclaimable(active, retired) < retired.len() {
            assert(rest[reclaimable(active, rest) as int] == retired[reclaimable(
                active,
                retired,
            ) as int]);
        }
    }
}

/// A version that another reader blocks stays blocked when a reader leaves: the other one entered
/// at another epoch, or is a second one of the same epoch.
pub proof fn law_leaving_keeps_what_others_block<T>(
    active: Seq<u64>,
    retired: Seq<Retiree<T>>,
    entry: u64,
    other: u64,
    i: int,
)
    requires
        0 <= i < retired.len(),
        other < retired[i].0,
        active.to_multiset().count(other) > (if other == entry {
            1int
        } else {
            0
        }),
    ensures
        reclaimable(without(active, entry), retired) <= i,
{
    let left = without(active, entry);
    law_leaving_takes_out_one_reader(active, entry);
    active.to_multiset_ensures();
    left.to_multiset_ensures();
    assert(left.to_multiset().count(other) > 0);
    assert(left.contains(other));
    let j = choose|j: int| 0 <= j < left.len() && left[j] == other;
    law_a_reader_blocks_later_retirees(left, retired, j, i);
}

/// A cell with one current version; old versions wait for their grace period.
#[derive(Debug)]
pub struct Rcu<T> {
    current: Arc<T>,
    mgr: EpochManager<T>,
}

impl<T> Rcu<T> {
    /// The current version.
    pub closed spec fn view(&self) -> T {
        *self.current
    }

    /// The readers and the queued versions.
    pub closed spec fn manager(&self) -> EpochManager<T> {
        self.mgr
    }

    /// A cell that holds `v`.
    pub fn new(v: T) -> (r: Rcu<T>)
        ensures
            r@ == v,
            r.manager().wf(),
            r.manager().now() == 0,
            r.manager().active() == Seq::<u64>::empty(),
            r.manager().retired() == Seq::<Retiree<T>>::empty(),
    {
        Rcu { current: Arc::new(v), mgr: EpochManager::new() }
    }

    /// Enter a critical section and take a handle to the current version.
    pub fn snapshot(&mut self) -> (r: (Reader, Arc<T>))
        requires
            old(self).manager().wf(),
        ensures
            *r.1 == old(self)@,
            r.0.entry() == old(self).manager().now(),
            final(self)@ == old(self)@,
            final(self).manager().wf(),
            final(self).manager().now() == old(self).manager().now(),
            final(self).manager().active() == old(self).manager().active().push(r.0.entry()),
            final(self).manager().retired() == old(self).manager().retired(),
    {
        let reader = self.mgr.enter();
        (reader, share(&self.current))
    }

    /// Leave a critical section.
    pub fn exit(&mut self, reader: Reader)
        requires
            old(self).manager().wf(),
        ensures
            final(self)@ == old(self)@,
            final(self).manager().wf(),
            final(self).manager().now() == old(self).manager().now(),
            final(self).manager().active() == without(
                old(self).manager().active(),
                reader.entry(),
            ),
            final(self).manager().retired() == old(self).manager().retired(),
    {
        self.mgr.exit(reader);
    }

    /// Publish a new version and queue the old one.
    pub fn publish(&mut self, v: T)
        requires
            old(self).manager().wf(),
            old(self).manager().now() < u64::MAX,
        ensures
            final(self)@ == v,
            final(self).manager().wf(),
            final(self).manager().now() == old(self).manager().now() + 1,
            final(self).manager().active() == old(self).manager().active(),
            final(self).manager().retired().len() == old(self).manager().retired().len() + 1,
            final(self).manager().retired().drop_last() == old(self).manager().retired(),
            final(self).manager().retired().last().0 == final(self).manager().now(),
            *final(self).manager().retired().last().1 == old(self)@,
    {
        let mut next: Arc<T> = Arc::new(v);
        std::mem::swap(&mut next, &mut self.current);
        let _epoch = self.mgr.retire(next);
        assert(self.mgr.retired().drop_last() =~= old(self).mgr.retired());
    }

    /// Free every queued version whose grace period has elapsed; returns how many.
    pub fn reclaim(&mut self) -> (r: usize)
        requires
            old(self).manager().wf(),
        ensures
            r == reclaimable(old(self).manager().active(), old(self).manager().retired()),
            final(self)@ == old(self)@,
            final(self).manager().wf(),
            final(self).manager().now() == old(self).manager().now(),
            final(self).manager().active() == old(self).manager().active(),
            final(self).manager().retired() == old(self).manager().retired().skip(r as int),
    {
        self.mgr.reclaim()
    }

    /// How many versions wait for their grace period.
    pub fn pending(&self) -> (r: usize)
        ensures
            r == self.manager().retired().len(),
    {
        self.mgr.pending()
    }

    /// The readers and the queued versions.
    pub fn _mgr(&mut self) -> (r: &mut EpochManager<T>)
        ensures
            *r == old(self).manager(),
            final(self).manager() == *final(r),
            final(self)@ == old(self)@,
    {
        &mut self.mgr
    }
}

} // verus!
