use vstd::prelude::*;
use crate::rt::event::{Event, EventType};
use crate::rt::task::{Task, TaskState};

verus! {

/// Effective deadlines of the tasks named by `queue`, in queue order.
pub open spec fn queue_deadlines(tasks: Seq<Task>, queue: Seq<usize>) -> Seq<u32> {
    queue.map_values(|tid: usize| tasks[tid as int].effective_deadline)
}

/// Smallest value of `s`, `u32::MAX` when `s` is empty.
pub open spec fn seq_min(s: Seq<u32>) -> u32
    decreases s.len(),
{
    if s.len() == 0 {
        u32::MAX
    } else {
        let m = seq_min(s.drop_last());
        if s.last() < m {
            s.last()
        } else {
            m
        }
    }
}

/// Index of the first smallest value of a non-empty `s`.
pub open spec fn first_argmin(s: Seq<u32>) -> int
    decreases s.len(),
{
    if s.len() <= 1 {
        0
    } else {
        let j = first_argmin(s.drop_last());
        if s.last() < s[j] {
            s.len() - 1
        } else {
            j
        }
    }
}

pub proof fn lemma_first_argmin(s: Seq<u32>)
    requires
        s.len() > 0,
    ensures
        0 <= first_argmin(s) < s.len(),
        s[first_argmin(s)] == seq_min(s),
        forall|k: int| 0 <= k < s.len() ==> s[first_argmin(s)] <= #[trigger] s[k],
        forall|k: int| 0 <= k < first_argmin(s) ==> s[first_argmin(s)] < #[trigger] s[k],
    decreases s.len(),
{
    if s.len() > 1 {
        lemma_first_argmin(s.drop_last());
        assert forall|k: int| 0 <= k < s.len() - 1 implies s[k] == #[trigger] s.drop_last()[k] by {}
        let j = first_argmin(s.drop_last());
        assert(s.drop_last()[j] == s[j]);
        assert forall|k: int| 0 <= k < s.len() implies s[first_argmin(s)] <= #[trigger] s[k] by {
            if k < s.len() - 1 {
                assert(s.drop_last()[k] == s[k]);
            }
        }
        assert forall|k: int| 0 <= k < first_argmin(s) implies s[first_argmin(s)] < #[trigger] s[k] by {
            assert(s.drop_last()[k] == s[k]);
            if first_argmin(s) == s.len() - 1 {
                assert(s[k] >= s.drop_last()[j]);
            }
        }
    } else {
        assert(s.drop_last().len() == 0);
        assert(seq_min(s.drop_last()) == u32::MAX);
    }
}

pub proof fn lemma_seq_min_le(s: Seq<u32>, k: int)
    requires
        0 <= k < s.len(),
    ensures
        seq_min(s) <= s[k],
    decreases s.len(),
{
    if k < s.len() - 1 {
        lemma_seq_min_le(s.drop_last(), k);
    }
}

/// Tasks after `tid` blocks at `time`.
pub open spec fn blocked_tasks(tasks: Seq<Task>, tid: usize, time: u32) -> Seq<Task> {
    tasks.update(
        tid as int,
        Task { state: TaskState::Blocked, blocked_at: Some(time), ..tasks[tid as int] },
    )
}

/// Tasks after `owner` releases the mutex: its deadline inheritance is
/// undone and it no longer holds a mutex.
pub open spec fn released_tasks(tasks: Seq<Task>, owner: usize) -> Seq<Task> {
    let t = tasks[owner as int];
    tasks.update(
        owner as int,
        Task {
            effective_deadline: if t.effective_deadline < t.absolute_deadline {
                t.absolute_deadline
            } else {
                t.effective_deadline
            },
            held_mutex: None,
            ..t
        },
    )
}

/// What `PiMutex::try_lock` does for `task_id` at time `now` to the mutex
/// (`m0` to `m1`), the tasks (`t0` to `t1`) and the events (`e0` to `e1`).
pub open spec fn try_lock_post(m0: PiMutex, m1: PiMutex, t0: Seq<Task>, t1: Seq<Task>, e0: Seq<Event>, e1: Seq<Event>, task_id: usize, now: u32) -> bool {
            match m0.owner {
                None => {
                    &&& m1.owner == Some(task_id)
                    &&& m1.wait_queue@ == m0.wait_queue@
                    &&& t1 == t0.update(
                        task_id as int,
                        Task { held_mutex: Some(m0.id), ..t0[task_id as int] },
                    )
                    &&& e1 == e0.push(
                        Event::new_spec(
                            now,
                            task_id,
                            EventType::MutexAcquired(m0.id),
                        ),
                    )
                },
                Some(o) => {
                    let queue = m0.wait_queue@.push(task_id);
                    let blocked = blocked_tasks(t0, task_id, now);
                    let m = seq_min(queue_deadlines(blocked, queue));
                    let blocked_ev = e0.push(
                        Event::new_spec(now, task_id, EventType::Blocked(m0.id)),
                    );
                    &&& m1.owner == m0.owner
                    &&& m1.wait_queue@ == queue
                    &&& if m0.pi_enabled && m < blocked[o as int].effective_deadline {
                        &&& t1 == blocked.update(
                            o as int,
                            Task { effective_deadline: m, ..blocked[o as int] },
                        )
                        &&& e1 == blocked_ev.push(
                            Event::new_spec(
                                now,
                                o,
                                EventType::PriorityInherited { new_effective_deadline: m },
                            ),
                        )
                    } else {
                        &&& t1 == blocked
                        &&& e1 == blocked_ev
                    }
                },
            }
}

/// What `PiMutex::unlock` does for `task_id` at time `now` to the mutex
/// (`m0` to `m1`), the tasks (`t0` to `t1`) and the events (`e0` to `e1`).
pub open spec fn unlock_post(m0: PiMutex, m1: PiMutex, t0: Seq<Task>, t1: Seq<Task>, e0: Seq<Event>, e1: Seq<Event>, task_id: usize, now: u32) -> bool {
    &&& m0.owner != Some(task_id) ==> {
                &&& m1 == m0
                &&& t1 == t0
                &&& e1 == e0
            }
    &&& m0.owner == Some(task_id) ==> {
                let t = t0[task_id as int];
                let released = released_tasks(t0, task_id);
                let ev1 = if t.effective_deadline < t.absolute_deadline {
                    e0.push(
                        Event::new_spec(
                            now,
                            task_id,
                            EventType::PriorityRestored { original_deadline: t.absolute_deadline },
                        ),
                    )
                } else {
                    e0
                };
                let ev2 = ev1.push(
                    Event::new_spec(now, task_id, EventType::MutexReleased(m0.id)),
                );
                let queue = m0.wait_queue@;
                if queue.len() == 0 {
                    &&& m1.owner is None
                    &&& m1.wait_queue@ == queue
                    &&& t1 == released
                    &&& e1 == ev2
                } else {
                    let best = queue[first_argmin(queue_deadlines(released, queue))];
                    &&& m1.owner == Some(best)
                    &&& m1.wait_queue@ == queue.filter(|x: usize| x != best)
                    &&& t1 == released.update(
                        best as int,
                        Task {
                            held_mutex: Some(m0.id),
                            state: TaskState::Ready,
                            ..released[best as int]
                        },
                    )
                    &&& e1 == ev2.push(
                        Event::new_spec(now, best, EventType::MutexAcquired(m0.id)),
                    ).push(Event::new_spec(now, best, EventType::Unblocked(m0.id)))
                }
            }
}

/// Deadline inheritance only ever lowers: after a task blocks on a mutex
/// with inheritance on, the owner's effective deadline is the smallest of
/// its own previous one and the effective deadlines of the waiters, so it
/// never rises; a PriorityInherited event is logged exactly when it drops.
pub proof fn law_inheritance_only_lowers(
    m0: PiMutex,
    m1: PiMutex,
    t0: Seq<Task>,
    t1: Seq<Task>,
    e0: Seq<Event>,
    e1: Seq<Event>,
    task_id: usize,
    now: u32,
    o: usize,
)
    requires
        try_lock_post(m0, m1, t0, t1, e0, e1, task_id, now),
        m0.owner == Some(o),
        m0.pi_enabled,
        task_id < t0.len(),
        m0.names_tasks_below(t0.len() as nat),
    ensures
        t1[o as int].effective_deadline <= t0[o as int].effective_deadline,
        forall|k: int| 0 <= k < m1.wait_queue@.len() ==> t1[o as int].effective_deadline
            <= t0[#[trigger] m1.wait_queue@[k] as int].effective_deadline,
        t1[o as int].effective_deadline == t0[o as int].effective_deadline || exists|k: int|
            0 <= k < m1.wait_queue@.len() && t1[o as int].effective_deadline == t0[#[trigger] m1.wait_queue@[k] as int].effective_deadline,
        (e1.len() == e0.len() + 2) <==> t1[o as int].effective_deadline < t0[o as int].effective_deadline,
        e1.len() == e0.len() + 2 ==> e1.last() == Event::new_spec(now, o,
            EventType::PriorityInherited { new_effective_deadline: t1[o as int].effective_deadline }),
{
    let queue = m0.wait_queue@.push(task_id);
    let blocked = blocked_tasks(t0, task_id, now);
    let ds = queue_deadlines(blocked, queue);
    assert forall|k: int| 0 <= k < queue.len() implies #[trigger] ds[k] == t0[queue[k] as int].effective_deadline by {
        if k < queue.len() - 1 {
            assert(queue[k] == m0.wait_queue@[k]);
        }
    }
    assert(blocked[o as int].effective_deadline == t0[o as int].effective_deadline);
    assert forall|k: int| 0 <= k < queue.len() implies seq_min(ds) <= t0[#[trigger] queue[k] as int].effective_deadline by {
        lemma_seq_min_le(ds, k);
    }
    lemma_first_argmin(ds);
    let j = first_argmin(ds);
    assert(seq_min(ds) == t0[queue[j] as int].effective_deadline);
}

/// A mutex with optional priority inheritance: for EDF this is deadline
/// inheritance, the owner's effective deadline is lowered to the earliest
/// effective deadline among the tasks blocked on the mutex.
pub struct PiMutex {
    pub id: usize,
    pub owner: Option<usize>,
    pub wait_queue: Vec<usize>,
    pub pi_enabled: bool,
}

impl PiMutex {
    pub fn new(id: usize, pi_enabled: bool) -> (m: Self)
        ensures
            m.id == id,
            m.owner is None,
            m.wait_queue@ == Seq::<usize>::empty(),
            m.pi_enabled == pi_enabled,
    {
        PiMutex { id, owner: None, wait_queue: Vec::new(), pi_enabled }
    }

    /// Every task that this mutex names is an index into `tasks`.
    pub open spec fn names_tasks_below(&self, n: nat) -> bool {
        &&& (self.owner matches Some(o) ==> o < n)
        &&& forall|k: int| 0 <= k < self.wait_queue@.len() ==> #[trigger] self.wait_queue@[k] < n
    }

    /// Tries to acquire the mutex for `task_id`. Returns `true` when it was
    /// free; otherwise the task blocks, joins the wait queue and, with
    /// inheritance on, the owner's effective deadline drops to the earliest
    /// effective deadline of the waiters.
    pub fn try_lock(
        &mut self,
        task_id: usize,
        tasks: &mut Vec<Task>,
        events: &mut Vec<Event>,
        current_time: u32,
    ) -> (acquired: bool)
        requires
            task_id < old(tasks).len(),
            old(self).names_tasks_below(old(tasks).len() as nat),
        ensures
            final(self).id == old(self).id,
            final(self).pi_enabled == old(self).pi_enabled,
            final(tasks).len() == old(tasks).len(),
            final(self).names_tasks_below(old(tasks).len() as nat),
            try_lock_post(*old(self), *final(self), old(tasks)@, final(tasks)@, old(events)@, final(events)@, task_id, current_time),
            acquired == (old(self).owner is None),
    {
        match self.owner {
            None => {
                self.owner = Some(task_id);
                tasks[task_id].held_mutex = Some(self.id);
                events.push(Event::new(current_time, task_id, EventType::MutexAcquired(self.id)));
                true
            },
            Some(_) => {
                tasks[task_id].state = TaskState::Blocked;
                tasks[task_id].blocked_at = Some(current_time);
                self.wait_queue.push(task_id);
                events.push(Event::new(current_time, task_id, EventType::Blocked(self.id)));
                assert(tasks@ =~= blocked_tasks(old(tasks)@, task_id, current_time));
                assert(self.names_tasks_below(tasks.len() as nat));
                if self.pi_enabled {
                    self.apply_pi(tasks, events, current_time);
                }
                false
            },
        }
    }

    /// Releases the mutex held by `task_id`: undoes any deadline
    /// inheritance, then hands the mutex to the waiter with the earliest
    /// effective deadline (the first one in the queue among equals), which
    /// becomes ready. Returns the woken task. Does nothing and returns
    /// `None` when `task_id` is not the owner.
    pub fn unlock(
        &mut self,
        task_id: usize,
        tasks: &mut Vec<Task>,
        events: &mut Vec<Event>,
        current_time: u32,
    ) -> (woken: Option<usize>)
        requires
            task_id < old(tasks).len(),
            old(self).names_tasks_below(old(tasks).len() as nat),
        ensures
            final(self).id == old(self).id,
            final(self).pi_enabled == old(self).pi_enabled,
            final(tasks).len() == old(tasks).len(),
            final(self).names_tasks_below(old(tasks).len() as nat),
            unlock_post(*old(self), *final(self), old(tasks)@, final(tasks)@, old(events)@, final(events)@, task_id, current_time),
            woken == (if old(self).owner == Some(task_id) && old(self).wait_queue@.len() > 0 {
                Some(old(self).wait_queue@[first_argmin(queue_deadlines(released_tasks(old(tasks)@, task_id), old(self).wait_queue@))])
            } else {
                None::<usize>
            }),
    {
        if self.owner != Some(task_id) {
            return None;
        }
        let old_eff = tasks[task_id].effective_deadline;
        let original = tasks[task_id].absolute_deadline;
        if old_eff < original {
            tasks[task_id].effective_deadline = original;
            events.push(
                Event::new(
                    current_time,
                    task_id,
                    EventType::PriorityRestored { original_deadline: original },
                ),
            );
        }
        tasks[task_id].held_mutex = None;
        self.owner = None;
        events.push(Event::new(current_time, task_id, EventType::MutexReleased(self.id)));
        assert(tasks@ =~= released_tasks(old(tasks)@, task_id));
        if self.wait_queue.len() == 0 {
            return None;
        }
        let k = Self::first_min_index(tasks, &self.wait_queue);
        proof {
            lemma_first_argmin(queue_deadlines(tasks@, self.wait_queue@));
        }
        let best_tid = self.wait_queue[k];
        let ghost released = tasks@;
        self.wait_queue = Self::without(&self.wait_queue, best_tid);
        self.owner = Some(best_tid);
        tasks[best_tid].held_mutex = Some(self.id);
        tasks[best_tid].state = TaskState::Ready;
        events.push(Event::new(current_time, best_tid, EventType::MutexAcquired(self.id)));
        events.push(Event::new(current_time, best_tid, EventType::Unblocked(self.id)));
        proof {
            assert(tasks@ =~= released.update(
                best_tid as int,
                Task { held_mutex: Some(old(self).id), state: TaskState::Ready, ..released[best_tid as int] },
            ));
            assert(self.wait_queue@ =~= old(self).wait_queue@.filter(|x: usize| x != best_tid));
            let q = old(self).wait_queue@;
            let f = |x: usize| x != best_tid;
            assert forall|j: int| 0 <= j < self.wait_queue@.len() implies #[trigger] self.wait_queue@[j]
                < tasks.len() by {
                assert(q.filter(f).contains(self.wait_queue@[j]));
                q.lemma_filter_contains_rev(f, self.wait_queue@[j]);
            }
        }
        Some(best_tid)
    }

    /// Index in `queue` of the first task with the smallest effective
    /// deadline.
    fn first_min_index(tasks: &Vec<Task>, queue: &Vec<usize>) -> (k: usize)
        requires
            queue@.len() > 0,
            forall|j: int| 0 <= j < queue@.len() ==> #[trigger] queue@[j] < tasks@.len(),
        ensures
            k == first_argmin(queue_deadlines(tasks@, queue@)),
    {
        let mut best: usize = 0;
        let mut i: usize = 1;
        while i < queue.len()
            invariant
                1 <= i <= queue.len(),
                forall|j: int| 0 <= j < queue@.len() ==> #[trigger] queue@[j] < tasks@.len(),
                best == first_argmin(queue_deadlines(tasks@, queue@.take(i as int))),
                best < i,
            decreases queue.len() - i,
        {
            proof {
                let d = queue_deadlines(tasks@, queue@.take(i + 1));
                assert(d.drop_last() =~= queue_deadlines(tasks@, queue@.take(i as int)));
                lemma_first_argmin(d.drop_last());
            }
            if tasks[queue[i]].effective_deadline < tasks[queue[best]].effective_deadline {
                best = i;
            }
            i = i + 1;
        }
        proof {
            assert(queue@.take(i as int) =~= queue@);
        }
        best
    }

    /// `queue` without any occurrence of `tid`.
    fn without(queue: &Vec<usize>, tid: usize) -> (r: Vec<usize>)
        ensures
            r@ == queue@.filter(|x: usize| x != tid),
    {
        let mut r: Vec<usize> = Vec::new();
        let mut i: usize = 0;
        while i < queue.len()
            invariant
                i <= queue.len(),
                r@ == queue@.take(i as int).filter(|x: usize| x != tid),
            decreases queue.len() - i,
        {
            proof {
                assert(queue@.take(i + 1) =~= queue@.take(i as int).push(queue@[i as int]));
                queue@.take(i as int).lemma_filter_push(queue@[i as int], |x: usize| x != tid);
            }
            if queue[i] != tid {
                r.push(queue[i]);
            }
            i = i + 1;
        }
        proof {
            assert(queue@.take(i as int) =~= queue@);
        }
        r
    }

    /// Lowers the owner's effective deadline to the earliest effective
    /// deadline among the waiters, when that is earlier.
    fn apply_pi(&mut self, tasks: &mut Vec<Task>, events: &mut Vec<Event>, current_time: u32)
        requires
            old(self).names_tasks_below(old(tasks).len() as nat),
        ensures
            *final(self) == *old(self),
            match old(self).owner {
                None => final(tasks)@ == old(tasks)@ && final(events)@ == old(events)@,
                Some(o) => {
                    let m = seq_min(queue_deadlines(old(tasks)@, old(self).wait_queue@));
                    if m < old(tasks)@[o as int].effective_deadline {
                        &&& final(tasks)@ == old(tasks)@.update(
                            o as int,
                            Task { effective_deadline: m, ..old(tasks)@[o as int] },
                        )
                        &&& final(events)@ == old(events)@.push(
                            Event::new_spec(
                                current_time,
                                o,
                                EventType::PriorityInherited { new_effective_deadline: m },
                            ),
                        )
                    } else {
                        final(tasks)@ == old(tasks)@ && final(events)@ == old(events)@
                    }
                },
            },
    {
        if let Some(owner_id) = self.owner {
            let min_waiter_deadline = Self::min_deadline(tasks, &self.wait_queue);
            if min_waiter_deadline < tasks[owner_id].effective_deadline {
                tasks[owner_id].effective_deadline = min_waiter_deadline;
                events.push(
                    Event::new(
                        current_time,
                        owner_id,
                        EventType::PriorityInherited { new_effective_deadline: min_waiter_deadline },
                    ),
                );
            }
        }
    }

    /// Smallest effective deadline among the tasks of `queue`.
    fn min_deadline(tasks: &Vec<Task>, queue: &Vec<usize>) -> (m: u32)
        requires
            forall|k: int| 0 <= k < queue@.len() ==> #[trigger] queue@[k] < tasks@.len(),
        ensures
            m == seq_min(queue_deadlines(tasks@, queue@)),
    {
        let mut m: u32 = u32::MAX;
        let mut i: usize = 0;
        while i < queue.len()
            invariant
                i <= queue.len(),
                forall|k: int| 0 <= k < queue@.len() ==> #[trigger] queue@[k] < tasks@.len(),
                m == seq_min(queue_deadlines(tasks@, queue@.take(i as int))),
            decreases queue.len() - i,
        {
            proof {
                assert(queue_deadlines(tasks@, queue@.take(i + 1)).drop_last() =~= queue_deadlines(
                    tasks@,
                    queue@.take(i as int),
                ));
            }
            let d = tasks[queue[i]].effective_deadline;
            if d < m {
                m = d;
            }
            i = i + 1;
        }
        proof {
            assert(queue@.take(i as int) =~= queue@);
        }
        m
    }
}

impl Event {
    pub open spec fn new_spec(time: u32, task_id: usize, event_type: EventType) -> Event {
        Event { time, task_id, event_type }
    }
}

} // verus!
