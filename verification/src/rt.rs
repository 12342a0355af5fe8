//! The core of a cooperative, single-threaded runtime: a slot table of tasks and the queue of
//! ids to run.
//!
//! A task id is a table slot and a generation. Finished slots are reused, and the generation
//! makes a wake-up left over from an earlier occupant harmless. A task is taken out of its slot
//! while it is polled, so it may add new tasks meanwhile. The core is generic in what a task is;
//! whoever drives it polls the tasks.

use std::collections::VecDeque;
use vstd::prelude::*;

verus! {

/// A task handle: a table slot, and the generation it was allocated with.
#[derive(Clone, Copy, Debug, PartialEq, Eq, Structural)]
pub struct TaskId {
    pub slot: usize,
    pub generation: u64,
}

/// One table slot. `live` says whether a task occupies it; `task` is `None` while the occupant
/// is being polled.
pub struct Slot<T> {
    pub generation: u64,
    pub live: bool,
    pub task: Option<T>,
}

/// What a scheduler holds.
#[verifier::ext_equal]
pub struct SchedulerState<T> {
    pub slots: Seq<Slot<T>>,
    /// Slots to reuse, the last one first.
    pub free: Seq<usize>,
    /// Ids to run, the front one first.
    pub queue: Seq<TaskId>,
}

/// Whether `id` is the current occupant of its slot.
pub open spec fn current<T>(s: SchedulerState<T>, id: TaskId) -> bool {
    &&& id.slot < s.slots.len()
    &&& s.slots[id.slot as int].live
    &&& s.slots[id.slot as int].generation == id.generation
}

/// Whether `id` can be polled: it is current, and is not being polled already.
pub open spec fn runnable<T>(s: SchedulerState<T>, id: TaskId) -> bool {
    current(s, id) && s.slots[id.slot as int].task is Some
}

/// Whether `id` has been taken out to be polled.
pub open spec fn running<T>(s: SchedulerState<T>, id: TaskId) -> bool {
    current(s, id) && s.slots[id.slot as int].task is None
}

/// A slot is either live or free to be reused, and a free slot holds no task.
pub open spec fn sound<T>(s: SchedulerState<T>) -> bool {
    &&& s.free.no_duplicates()
    &&& forall|i: int|
        0 <= i < s.free.len() ==> (#[trigger] s.free[i]) < s.slots.len()
            && !s.slots[s.free[i] as int].live
    &&& forall|i: int|
        0 <= i < s.slots.len() ==> (#[trigger] s.slots[i]).live || (s.slots[i].task is None
            && s.free.contains(i as usize))
    &&& s.slots.len() <= usize::MAX
}

/// The id that the next task gets.
pub open spec fn next_id<T>(s: SchedulerState<T>) -> TaskId {
    if s.free.len() > 0 {
        TaskId {
            slot: s.free.last(),
            generation: (s.slots[s.free.last() as int].generation + 1) as u64,
        }
    } else {
        TaskId { slot: s.slots.len() as usize, generation: 0 }
    }
}

/// The scheduler after adding `task`: a finished slot is reused when there is one, and the task
/// is queued for its first poll.
pub open spec fn added<T>(s: SchedulerState<T>, task: T) -> SchedulerState<T> {
    let id = next_id(s);
    let slot = Slot { generation: id.generation, live: true, task: Some(task) };
    if s.free.len() > 0 {
        SchedulerState {
            slots: s.slots.update(id.slot as int, slot),
            free: s.free.drop_last(),
            queue: s.queue.push(id),
        }
    } else {
        SchedulerState { slots: s.slots.push(slot), queue: s.queue.push(id), ..s }
    }
}

/// The position of the first id in the queue that can be polled, the length if there is none.
pub open spec fn first_runnable<T>(s: SchedulerState<T>) -> nat
    decreases s.queue.len(),
{
    if s.queue.len() == 0 || runnable(s, s.queue[0]) {
        0
    } else {
        1 + first_runnable(SchedulerState { queue: s.queue.skip(1), ..s })
    }
}

/// The scheduler after taking the next task out to be polled. Ids before it in the queue are
/// stale and are dropped.
pub open spec fn taken<T>(s: SchedulerState<T>) -> SchedulerState<T> {
    let k = first_runnable(s);
    if k < s.queue.len() {
        let id = s.queue[k as int];
        SchedulerState {
            slots: s.slots.update(
                id.slot as int,
                Slot { task: None, ..s.slots[id.slot as int] },
            ),
            queue: s.queue.skip((k + 1) as int),
            ..s
        }
    } else {
        SchedulerState { queue: seq![], ..s }
    }
}

/// The scheduler after a task finished: its slot can be reused.
pub open spec fn finished<T>(s: SchedulerState<T>, id: TaskId) -> SchedulerState<T> {
    SchedulerState {
        slots: s.slots.update(
            id.slot as int,
            Slot { generation: s.slots[id.slot as int].generation, live: false, task: None },
        ),
        free: s.free.push(id.slot),
        ..s
    }
}

/// The scheduler after a task that is not done was put back.
pub open spec fn suspended<T>(s: SchedulerState<T>, id: TaskId, task: T) -> SchedulerState<T> {
    SchedulerState {
        slots: s.slots.update(
            id.slot as int,
            Slot { task: Some(task), ..s.slots[id.slot as int] },
        ),
        ..s
    }
}

/// How many slots are live.
pub open spec fn live_in<T>(slots: Seq<Slot<T>>) -> nat
    decreases slots.len(),
{
    if slots.len() == 0 {
        0
    } else {
        live_in(slots.drop_last()) + if slots.last().live {
            1nat
        } else {
            0
        }
    }
}

/// Whether there is a slot and a generation left for another task.
pub open spec fn has_room<T>(s: SchedulerState<T>) -> bool {
    if s.free.len() == 0 {
        s.slots.len() < usize::MAX
    } else {
        s.slots[s.free.last() as int].generation < u64::MAX
    }
}

/// A slot table of tasks and the queue of ids to run.
pub struct Scheduler<T> {
    slots: Vec<Slot<T>>,
    free: Vec<usize>,
    queue: VecDeque<TaskId>,
}

impl<T> Scheduler<T> {
    pub closed spec fn view(&self) -> SchedulerState<T> {
        SchedulerState { slots: self.slots@, free: self.free@, queue: self.queue@ }
    }

    /// An empty scheduler.
    pub fn new() -> (r: Scheduler<T>)
        ensures
            r@ == (SchedulerState::<T> { slots: seq![], free: seq![], queue: seq![] }),
            sound(r@),
    {
        let r = Scheduler { slots: Vec::new(), free: Vec::new(), queue: VecDeque::new() };
        assert(r@ =~= SchedulerState::<T> { slots: seq![], free: seq![], queue: seq![] });
        r
    }

    /// Whether there is a slot and a generation left for another task.
    pub fn has_room(&self) -> (r: bool)
        requires
            sound(self@),
        ensures
            r == has_room(self@),
    {
        if self.free.len() == 0 {
            self.slots.len() < usize::MAX
        } else {
            let slot: usize = self.free[self.free.len() - 1];
            self.slots[slot].generation < u64::MAX
        }
    }

    /// Insert a task and queue it for its first poll. Reuses a finished slot when one is free.
    /// May be called while another task is being polled.
    pub fn add(&mut self, task: T) -> (r: TaskId)
        requires
            sound(old(self)@),
            has_room(old(self)@),
        ensures
            r == next_id(old(self)@),
            final(self)@ == added(old(self)@, task),
            sound(final(self)@),
    {
        let ghost s = self@;
        let id: TaskId = match self.free.pop() {
            Some(slot) => {
                assert(s.free.contains(slot));
                let generation: u64 = self.slots[slot].generation + 1;
                self.slots.set(slot, Slot { generation, live: true, task: Some(task) });
                TaskId { slot, generation }
            },
            None => {
                let slot: usize = self.slots.len();
                self.slots.push(Slot { generation: 0, live: true, task: Some(task) });
                TaskId { slot, generation: 0 }
            },
        };
        self.queue.push_back(id);
        proof {
            let t = self@;
            assert(t =~= added(s, task));
            lemma_added(s, task);
        }
        id
    }

    /// Queue a task again: it has something to do.
    pub fn wake(&mut self, id: TaskId)
        requires
            sound(old(self)@),
        ensures
            final(self)@ == (SchedulerState { queue: old(self)@.queue.push(id), ..old(self)@ }),
            sound(final(self)@),
    {
        self.queue.push_back(id);
        assert(self@ =~= SchedulerState { queue: old(self)@.queue.push(id), ..old(self)@ });
    }

    /// Take the next task out to be polled, dropping stale ids on the way; `None` if the queue
    /// has no task left to run.
    pub fn next(&mut self) -> (r: Option<(TaskId, T)>)
        requires
            sound(old(self)@),
        ensures
            match r {
                Some((id, task)) => {
                    let s = old(self)@;
                    &&& first_runnable(s) < s.queue.len()
                    &&& id == s.queue[first_runnable(s) as int]
                    &&& s.slots[id.slot as int].task == Some(task)
                    &&& running(final(self)@, id)
                },
                None => first_runnable(old(self)@) == old(self)@.queue.len(),
            },
            final(self)@ == taken(old(self)@),
            sound(final(self)@),
    {
        let ghost s = self@;
        let ghost mut k: int = 0;
        assert(s.queue.skip(0) =~= s.queue);
        loop
            invariant
                s == old(self)@,
                0 <= k <= s.queue.len(),
                sound(s),
                self@ == (SchedulerState { queue: s.queue.skip(k), ..s }),
                first_runnable(s) == k + first_runnable(self@),
            decreases s.queue.len() - k,
        {
            let ghost now = self@;
            match self.queue.pop_front() {
                None => {
                    assert(self@ =~= taken(s));
                    return None;
                },
                Some(id) => {
                    proof {
                        assert(now.queue[0] == s.queue[k]);
                        assert(now.queue.skip(1) =~= s.queue.skip(k + 1));
                        assert(self@ =~= SchedulerState { queue: s.queue.skip(k + 1), ..s });
                    }
                    if id.slot < self.slots.len() && self.slots[id.slot].live
                        && self.slots[id.slot].generation == id.generation {
                        let mut slot: Slot<T> = Slot {
                            generation: id.generation,
                            live: true,
                            task: None,
                        };
                        let ghost was = self.slots@[id.slot as int];
                        std::mem::swap(&mut slot, &mut self.slots[id.slot]);
                        match slot.task {
                            Some(task) => {
                                proof {
                                    assert(runnable(s, id));
                                    assert(first_runnable(s) == k);
                                    assert(self@ =~= taken(s));
                                    lemma_slot_kept(s, self@, id.slot as int);
                                }
                                return Some((id, task));
                            },
                            None => {
                                assert(self.slots@ =~= s.slots);
                            },
                        }
                    }
                    proof {
                        k = k + 1;
                    }
                },
            }
        }
    }

    /// A task that was taken out is done: its slot can be reused.
    pub fn finish(&mut self, id: TaskId)
        requires
            sound(old(self)@),
            running(old(self)@, id),
        ensures
            final(self)@ == finished(old(self)@, id),
            sound(final(self)@),
    {
        let ghost s = self@;
        let generation: u64 = self.slots[id.slot].generation;
        self.slots.set(id.slot, Slot { generation, live: false, task: None });
        self.free.push(id.slot);
        proof {
            assert(self@ =~= finished(s, id));
            lemma_finished(s, id);
        }
    }

    /// A task that was taken out is not done: put it back.
    pub fn suspend(&mut self, id: TaskId, task: T)
        requires
            sound(old(self)@),
            running(old(self)@, id),
        ensures
            final(self)@ == suspended(old(self)@, id, task),
            sound(final(self)@),
    {
        let ghost s = self@;
        let generation: u64 = self.slots[id.slot].generation;
        self.slots.set(id.slot, Slot { generation, live: true, task: Some(task) });
        proof {
            assert(self@ =~= suspended(s, id, task));
            lemma_slot_kept(s, self@, id.slot as int);
        }
    }

    /// Number of tasks that have not finished.
    pub fn live_tasks(&self) -> (r: usize)
        ensures
            r == live_in(self@.slots),
    {
        let mut r: usize = 0;
        let mut i: usize = 0;
        while i < self.slots.len()
            invariant
                i <= self.slots.len(),
                r == live_in(self.slots@.take(i as int)),
                r <= i,
            decreases self.slots.len() - i,
        {
            proof {
                let now = self.slots@.take(i + 1);
                assert(now.drop_last() =~= self.slots@.take(i as int));
                assert(now.last() == self.slots@[i as int]);
            }
            if self.slots[i].live {
                r = r + 1;
            }
            i = i + 1;
        }
        assert(self.slots@.take(self.slots@.len() as int) =~= self.slots@);
        r
    }

    /// Size of the slot table, live and reusable slots together.
    pub fn slot_count(&self) -> (r: usize)
        ensures
            r == self@.slots.len(),
    {
        self.slots.len()
    }
}

proof fn lemma_added<T>(s: SchedulerState<T>, task: T)
    requires
        sound(s),
        has_room(s),
    ensures
        sound(added(s, task)),
        runnable(added(s, task), next_id(s)),
{
    let t = added(s, task);
    if s.free.len() > 0 {
        let slot = s.free.last();
        assert(s.free[s.free.len() - 1] == slot);
        assert forall|i: int| 0 <= i < t.free.len() implies (#[trigger] t.free[i]) < t.slots.len()
            && !t.slots[t.free[i] as int].live by {
            assert(t.free[i] == s.free[i]);
        }
        assert forall|i: int| 0 <= i < t.slots.len() implies (#[trigger] t.slots[i]).live || (
        t.slots[i].task is None && t.free.contains(i as usize)) by {
            if i != slot && !s.slots[i].live {
                let j = choose|j: int| 0 <= j < s.free.len() && s.free[j] == i as usize;
                assert(t.free[j] == i as usize);
            }
        }
    } else {
        assert forall|i: int| 0 <= i < t.slots.len() implies (#[trigger] t.slots[i]).live || (
        t.slots[i].task is None && t.free.contains(i as usize)) by {
            if i < s.slots.len() {
                assert(t.slots[i] == s.slots[i]);
            }
        }
    }
}

/// A live slot that stays live leaves the scheduler sound.
proof fn lemma_slot_kept<T>(s: SchedulerState<T>, t: SchedulerState<T>, i: int)
    requires
        sound(s),
        0 <= i < s.slots.len(),
        s.slots[i].live,
        t.free == s.free,
        t.slots == s.slots.update(i, t.slots[i]),
        t.slots[i].live,
    ensures
        sound(t),
{
    assert forall|j: int| 0 <= j < t.free.len() implies (#[trigger] t.free[j]) < t.slots.len()
        && !t.slots[t.free[j] as int].live by {
        assert(s.free[j] == t.free[j]);
    }
    assert forall|j: int| 0 <= j < t.slots.len() implies (#[trigger] t.slots[j]).live || (
    t.slots[j].task is None && t.free.contains(j as usize)) by {
        if j != i {
            assert(t.slots[j] == s.slots[j]);
        }
    }
}

proof fn lemma_finished<T>(s: SchedulerState<T>, id: TaskId)
    requires
        sound(s),
        running(s, id),
    ensures
        sound(finished(s, id)),
{
    let t = finished(s, id);
    assert(!s.free.contains(id.slot)) by {
        if s.free.contains(id.slot) {
            let j = choose|j: int| 0 <= j < s.free.len() && s.free[j] == id.slot;
        }
    }
    assert(t.free.no_duplicates());
    assert forall|j: int| 0 <= j < t.free.len() implies (#[trigger] t.free[j]) < t.slots.len()
        && !t.slots[t.free[j] as int].live by {
        if j < s.free.len() {
            assert(s.free[j] == t.free[j]);
        }
    }
    assert forall|j: int| 0 <= j < t.slots.len() implies (#[trigger] t.slots[j]).live || (
    t.slots[j].task is None && t.free.contains(j as usize)) by {
        if j == id.slot {
            assert(t.free[t.free.len() - 1] == id.slot);
        } else {
            assert(t.slots[j] == s.slots[j]);
            if !s.slots[j].live {
                let k = choose|k: int| 0 <= k < s.free.len() && s.free[k] == j as usize;
                assert(t.free[k] == j as usize);
            }
        }
    }
}

/// Finished slots are reused: the next task after one that finished gets its slot, in a new
/// generation, and the table does not grow.
pub proof fn law_a_finished_slot_is_reused<T>(s: SchedulerState<T>, id: TaskId, task: T)
    requires
        running(s, id),
        id.generation < u64::MAX,
    ensures
        next_id(finished(s, id)) == (TaskId {
            slot: id.slot,
            generation: (id.generation + 1) as u64,
        }),
        added(finished(s, id), task).slots.len() == s.slots.len(),
{
}

/// An id whose slot has moved on: to a later generation, or past the end of its own.
pub open spec fn stale<T>(s: SchedulerState<T>, id: TaskId) -> bool {
    &&& id.slot < s.slots.len()
    &&& s.slots[id.slot as int].generation > id.generation || (
    s.slots[id.slot as int].generation == id.generation && !s.slots[id.slot as int].live)
}

/// An id that has been handed out: its slot has reached its generation.
pub open spec fn handed_out<T>(s: SchedulerState<T>, id: TaskId) -> bool {
    &&& id.slot < s.slots.len()
    &&& id.generation <= s.slots[id.slot as int].generation
}

/// No id is handed out twice: the next id has not been handed out yet, adding a task hands it
/// out, and an id that has been handed out stays so whatever happens afterwards.
pub proof fn law_no_id_is_handed_out_twice<T>(
    s: SchedulerState<T>,
    id: TaskId,
    other: TaskId,
    task: T,
)
    requires
        sound(s),
    ensures
        has_room(s) ==> !handed_out(s, next_id(s)) && handed_out(added(s, task), next_id(s)),
        has_room(s) && handed_out(s, id) ==> id != next_id(s) && handed_out(added(s, task), id),
        handed_out(s, id) ==> handed_out(taken(s), id),
        handed_out(s, id) ==> handed_out(
            SchedulerState { queue: s.queue.push(other), ..s },
            id,
        ),
        handed_out(s, id) && running(s, other) ==> handed_out(finished(s, other), id),
        handed_out(s, id) && running(s, other) ==> handed_out(suspended(s, other, task), id),
{
    if s.free.len() > 0 {
        assert(s.free[s.free.len() - 1] < s.slots.len());
    }
    lemma_first_runnable(s);
}

/// A wake-up left over from a finished task is harmless: its id is stale, it stays stale whatever
/// happens afterwards, and a stale id is never run.
pub proof fn law_a_stale_id_is_harmless<T>(
    s: SchedulerState<T>,
    id: TaskId,
    other: TaskId,
    task: T,
)
    requires
        sound(s),
    ensures
        running(s, id) ==> stale(finished(s, id), id),
        stale(s, id) ==> !runnable(s, id),
        has_room(s) && stale(s, id) ==> stale(added(s, task), id),
        stale(s, id) ==> stale(taken(s), id),
        stale(s, id) && running(s, other) ==> stale(finished(s, other), id),
        stale(s, id) && running(s, other) ==> stale(suspended(s, other, task), id),
{
    if s.free.len() > 0 {
        assert(s.free[s.free.len() - 1] < s.slots.len());
    }
    if stale(s, id) {
        lemma_first_runnable(s);
    }
}

proof fn lemma_first_runnable<T>(s: SchedulerState<T>)
    ensures
        first_runnable(s) <= s.queue.len(),
        first_runnable(s) < s.queue.len() ==> runnable(s, s.queue[first_runnable(s) as int]),
    decreases s.queue.len(),
{
    if s.queue.len() > 0 && !runnable(s, s.queue[0]) {
        let t = SchedulerState { queue: s.queue.skip(1), ..s };
        lemma_first_runnable(t);
        let k = first_runnable(t);
        if k < t.queue.len() {
            assert(t.queue[k as int] == s.queue[(k + 1) as int]);
            assert(runnable(t, t.queue[k as int]) == runnable(s, s.queue[(k + 1) as int]));
        }
    }
}

/// A task that was added is reached: with it at the end of the queue there is always something
/// to run.
pub proof fn law_an_added_task_runs<T>(s: SchedulerState<T>, task: T)
    requires
        sound(s),
        has_room(s),
    ensures
        first_runnable(added(s, task)) < added(s, task).queue.len(),
{
    lemma_added(s, task);
    lemma_last_runs(added(s, task));
}

proof fn lemma_last_runs<T>(s: SchedulerState<T>)
    requires
        s.queue.len() > 0,
        runnable(s, s.queue.last()),
    ensures
        first_runnable(s) < s.queue.len(),
    decreases s.queue.len(),
{
    if !runnable(s, s.queue[0]) {
        let t = SchedulerState { queue: s.queue.skip(1), ..s };
        assert(t.queue.last() == s.queue.last());
        lemma_last_runs(t);
    }
}

/// Adding a task puts it into the slot of its id, ready for its first poll, and its id at the end
/// of the queue. The slot is the one freed last, in its next generation, or a new one at the end
/// of the table where none is free. No other slot changes.
pub proof fn law_where_an_added_task_goes<T>(s: SchedulerState<T>, task: T)
    requires
        sound(s),
        has_room(s),
    ensures
        ({
            let t = added(s, task);
            let id = next_id(s);
            &&& t.queue == s.queue.push(id)
            &&& t.slots[id.slot as int].live
            &&& t.slots[id.slot as int].generation == id.generation
            &&& t.slots[id.slot as int].task == Some(task)
            &&& forall|i: int|
                0 <= i < s.slots.len() && i != id.slot ==> #[trigger] t.slots[i] == s.slots[i]
            &&& s.free.len() > 0 ==> {
                &&& id.slot == s.free[s.free.len() - 1]
                &&& id.generation == s.slots[id.slot as int].generation + 1
                &&& t.slots.len() == s.slots.len()
                &&& t.free.push(id.slot) == s.free
            }
            &&& s.free.len() == 0 ==> {
                &&& id.slot == s.slots.len()
                &&& id.generation == 0
                &&& t.slots.len() == s.slots.len() + 1
                &&& t.free == s.free
            }
        }),
        has_room(s) <==> (if s.free.len() == 0 {
            s.slots.len() < usize::MAX
        } else {
            s.slots[s.free[s.free.len() - 1] as int].generation < u64::MAX
        }),
{
    if s.free.len() > 0 {
        assert(s.free[s.free.len() - 1] < s.slots.len());
        assert(s.free.drop_last().push(s.free.last()) =~= s.free);
    }
}

/// Which task is polled next: the first id in the queue whose slot is live, in the generation of
/// the id, with its task in it. The ids before it and its own leave the queue, its task leaves
/// its slot, and nothing else changes. Where there is no such id, the queue is emptied.
pub proof fn law_which_task_is_next<T>(s: SchedulerState<T>)
    ensures
        ({
            let k = first_runnable(s) as int;
            let t = taken(s);
            &&& 0 <= k <= s.queue.len()
            &&& forall|i: int|
                0 <= i < k ==> (#[trigger] s.queue[i]).slot >= s.slots.len()
                    || !s.slots[s.queue[i].slot as int].live
                    || s.slots[s.queue[i].slot as int].generation != s.queue[i].generation
                    || s.slots[s.queue[i].slot as int].task is None
            &&& t.free == s.free
            &&& t.slots.len() == s.slots.len()
            &&& k < s.queue.len() ==> {
                let id = s.queue[k];
                &&& id.slot < s.slots.len()
                &&& s.slots[id.slot as int].live
                &&& s.slots[id.slot as int].generation == id.generation
                &&& s.slots[id.slot as int].task is Some
                &&& t.slots[id.slot as int].live
                &&& t.slots[id.slot as int].generation == id.generation
                &&& t.slots[id.slot as int].task is None
                &&& forall|i: int|
                    0 <= i < s.slots.len() && i != id.slot ==> #[trigger] t.slots[i] == s.slots[i]
                &&& s.queue == s.queue.take(k).push(id) + t.queue
            }
            &&& k == s.queue.len() ==> t.slots == s.slots && t.queue.len() == 0
        }),
{
    lemma_first_runnable(s);
    lemma_skipped(s);
    let k = first_runnable(s) as int;
    if k < s.queue.len() {
        assert(s.queue =~= s.queue.take(k).push(s.queue[k]) + taken(s).queue);
    }
}

proof fn lemma_skipped<T>(s: SchedulerState<T>)
    ensures
        forall|i: int| 0 <= i < first_runnable(s) ==> !runnable(s, #[trigger] s.queue[i]),
    decreases s.queue.len(),
{
    if s.queue.len() > 0 && !runnable(s, s.queue[0]) {
        let t = SchedulerState { queue: s.queue.skip(1), ..s };
        lemma_skipped(t);
        lemma_first_runnable(t);
        assert forall|i: int| 0 <= i < first_runnable(s) implies !runnable(
            s,
            #[trigger] s.queue[i],
        ) by {
            if i > 0 {
                assert(t.queue[i - 1] == s.queue[i]);
                assert(runnable(t, t.queue[i - 1]) == runnable(s, s.queue[i]));
            }
        }
    }
}

/// What becomes of a task that was polled: a finished one leaves its slot free to be reused, in
/// the same generation until then; one that is not done is back in its slot. The queue and every
/// other slot stay as they are.
pub proof fn law_what_becomes_of_a_polled_task<T>(s: SchedulerState<T>, id: TaskId, task: T)
    requires
        sound(s),
        running(s, id),
    ensures
        ({
            let t = finished(s, id);
            &&& t.queue == s.queue
            &&& t.free == s.free.push(id.slot)
            &&& t.slots.len() == s.slots.len()
            &&& !t.slots[id.slot as int].live
            &&& t.slots[id.slot as int].task is None
            &&& t.slots[id.slot as int].generation == id.generation
            &&& forall|i: int|
                0 <= i < s.slots.len() && i != id.slot ==> #[trigger] t.slots[i] == s.slots[i]
        }),
        ({
            let t = suspended(s, id, task);
            &&& t.queue == s.queue
            &&& t.free == s.free
            &&& t.slots.len() == s.slots.len()
            &&& t.slots[id.slot as int].live
            &&& t.slots[id.slot as int].task == Some(task)
            &&& t.slots[id.slot as int].generation == id.generation
            &&& forall|i: int|
                0 <= i < s.slots.len() && i != id.slot ==> #[trigger] t.slots[i] == s.slots[i]
        }),
{
}

/// Live tasks are counted one by one.
proof fn lemma_live_update<T>(slots: Seq<Slot<T>>, i: int, x: Slot<T>)
    requires
        0 <= i < slots.len(),
    ensures
        live_in(slots.update(i, x)) + (if slots[i].live {
            1int
        } else {
            0
        }) == live_in(slots) + (if x.live {
            1int
        } else {
            0
        }),
    decreases slots.len(),
{
    let d = slots.drop_last();
    let u = slots.update(i, x);
    if i == slots.len() - 1 {
        assert(u.drop_last() =~= d);
    } else {
        assert(u.drop_last() =~= d.update(i, x));
        lemma_live_update(d, i, x);
    }
}

/// The number of live tasks is that of live slots: one more for each task that is added, one fewer
/// for each that finishes, the same while tasks are taken out and put back.
pub proof fn law_live_tasks_are_counted<T>(s: SchedulerState<T>, id: TaskId, task: T)
    requires
        sound(s),
    ensures
        live_in(s.slots) == s.slots.filter(|x: Slot<T>| x.live).len(),
        has_room(s) ==> live_in(added(s, task).slots) == live_in(s.slots) + 1,
        live_in(taken(s).slots) == live_in(s.slots),
        running(s, id) ==> live_in(finished(s, id).slots) + 1 == live_in(s.slots),
        running(s, id) ==> live_in(suspended(s, id, task).slots) == live_in(s.slots),
{
    lemma_live_filter(s.slots);
    let n = next_id(s);
    let slot = Slot { generation: n.generation, live: true, task: Some(task) };
    if s.free.len() > 0 {
        assert(s.free[s.free.len() - 1] < s.slots.len());
        lemma_live_update(s.slots, n.slot as int, slot);
    } else {
        assert(s.slots.push(slot).drop_last() =~= s.slots);
    }
    lemma_first_runnable(s);
    let k = first_runnable(s) as int;
    if k < s.queue.len() {
        let q = s.queue[k].slot as int;
        lemma_live_update(s.slots, q, Slot { task: None, ..s.slots[q] });
    }
    if running(s, id) {
        let i = id.slot as int;
        lemma_live_update(s.slots, i, finished(s, id).slots[i]);
        lemma_live_update(s.slots, i, suspended(s, id, task).slots[i]);
    }
}

proof fn lemma_live_filter<T>(slots: Seq<Slot<T>>)
    ensures
        live_in(slots) == slots.filter(|x: Slot<T>| x.live).len(),
    decreases slots.len(),
{
    reveal(Seq::filter);
    if slots.len() > 0 {
        lemma_live_filter(slots.drop_last());
    }
}

// ---------------------------------------------------------------------------
// A cooperative yield point
// ---------------------------------------------------------------------------

/// A step that yields once and is then done.
#[derive(Clone, Copy, Debug)]
pub struct YieldOnce {
    yielded: bool,
}

impl YieldOnce {
    /// Whether it has yielded.
    pub closed spec fn view(&self) -> bool {
        self.yielded
    }

    /// Whether the step is done. The first call says that it is not; whoever polls it has to be
    /// woken then. Every later call says that it is.
    pub fn step(&mut self) -> (r: bool)
        ensures
            r == old(self)@,
            final(self)@,
    {
        let done: bool = self.yielded;
        self.yielded = true;
        done
    }
}

/// Construct a [`YieldOnce`].
pub fn yield_once() -> (r: YieldOnce)
    ensures
        !r@,
{
    YieldOnce { yielded: false }
}

} // verus!
