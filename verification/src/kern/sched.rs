use vstd::prelude::*;
use vstd::multiset::Multiset;
use std::collections::VecDeque;
use crate::kern::config::MAX_HARTS;

verus! {

broadcast use {vstd::seq_lib::group_to_multiset_ensures, vstd::multiset::group_multiset_axioms};

/// A runnable thread as the schedulers queue it: its process id (which
/// places it on a per-hart queue) and its thread id.
#[derive(Clone, Copy, Debug, PartialEq, Eq, Structural)]
pub struct QueuedTask {
    pub pid: usize,
    pub tid: usize,
}

/// The scheduling strategies.
#[derive(Clone, Copy, Debug, PartialEq, Eq, Structural)]
pub enum SchedulerType {
    /// One ready queue shared by all harts.
    GlobalRoundRobin,
    /// A ready queue per hart, with work stealing.
    PerCpuWorkStealing,
}

/// Which harts schedule: the first `active` ones, or, with one active
/// hart, the hart `base` alone.
pub struct Harts {
    active: usize,
    base: usize,
}

impl Harts {
    /// Number of active harts.
    pub closed spec fn spec_active(&self) -> usize {
        self.active
    }

    /// The hart that stays active when only one is.
    pub closed spec fn spec_base(&self) -> usize {
        self.base
    }

    /// Between 1 and `MAX_HARTS` harts are active.
    pub open spec fn wf(&self) -> bool {
        1 <= self.spec_active() <= MAX_HARTS
    }

    /// The logical scheduler index of physical hart `h`, if it is active.
    pub open spec fn logical_index(&self, h: usize) -> Option<usize> {
        if self.spec_active() == 1 {
            if h == self.spec_base() {
                Some(0)
            } else {
                None
            }
        } else if h < self.spec_active() {
            Some(h)
        } else {
            None
        }
    }

    /// All harts active.
    pub fn new() -> (h: Self)
        ensures
            h.wf(),
            h.spec_active() == MAX_HARTS,
            h.spec_base() == 0,
    {
        Harts { active: MAX_HARTS, base: 0 }
    }
}

/// Makes `count` harts active, when it lies in `1 ..= MAX_HARTS`; with one
/// hart, the calling hart stays the active one. Whether `count` was taken.
pub fn set_active_harts(harts: &mut Harts, count: usize, caller_hart: usize) -> (b: bool)
    requires
        old(harts).wf(),
    ensures
        final(harts).wf(),
        b == (1 <= count <= MAX_HARTS),
        b ==> final(harts).spec_active() == count && final(harts).spec_base() == (if count == 1 { caller_hart } else { 0 }),
        !b ==> final(harts).spec_active() == old(harts).spec_active() && final(harts).spec_base() == old(harts).spec_base(),
{
    if 1 <= count && count <= MAX_HARTS {
        if count == 1 {
            harts.base = caller_hart;
        } else {
            harts.base = 0;
        }
        harts.active = count;
        true
    } else {
        false
    }
}

/// The number of active harts.
pub fn active_harts(harts: &Harts) -> (n: usize)
    ensures
        n == harts.spec_active(),
{
    harts.active
}

/// Maps a physical hart to its logical scheduler index; none when the
/// hart is inactive.
pub fn logical_hart_index(harts: &Harts, physical_hart: usize) -> (r: Option<usize>)
    ensures
        r == harts.logical_index(physical_hart),
{
    let active = harts.active;
    if active == 1 {
        if physical_hart == harts.base {
            Some(0)
        } else {
            None
        }
    } else if physical_hart < active {
        Some(physical_hart)
    } else {
        None
    }
}

/// A scheduler: a pool of runnable threads that harts fetch from.
pub trait Scheduler {
    /// The scheduler's own consistency.
    spec fn wf(&self) -> bool;

    /// The queued threads.
    spec fn pending(&self) -> Multiset<QueuedTask>;

    /// Queues a runnable thread.
    fn add_task(&mut self, task: QueuedTask, harts: &Harts)
        requires
            old(self).wf(),
            harts.wf(),
            old(self).pending().len() < usize::MAX,
        ensures
            final(self).wf(),
            final(self).pending() == old(self).pending().insert(task),
    ;

    /// Takes a thread for hart `hart_id` to run, if one is available to
    /// it.
    fn fetch_task(&mut self, hart_id: usize, harts: &Harts) -> (r: Option<QueuedTask>)
        requires
            old(self).wf(),
            harts.wf(),
        ensures
            final(self).wf(),
            match r {
                Some(t) => old(self).pending().contains(t) && final(self).pending() == old(self).pending().remove(t),
                None => final(self).pending() == old(self).pending(),
            },
    ;

    /// The number of queued threads.
    fn task_count(&self) -> (n: usize)
        requires
            self.wf(),
        ensures
            n == self.pending().len(),
    ;

    /// The strategy's name.
    fn name(&self) -> &'static str;
}

/// All harts share one ready queue, served first come first served.
pub struct GlobalRoundRobin {
    queue: VecDeque<QueuedTask>,
    count: usize,
}

impl GlobalRoundRobin {
    /// The ready queue, front first.
    pub closed spec fn queue(&self) -> Seq<QueuedTask> {
        self.queue@
    }

    /// An empty queue.
    pub fn new() -> (s: Self)
        ensures
            s.wf(),
            s.queue() == Seq::<QueuedTask>::empty(),
    {
        GlobalRoundRobin { queue: VecDeque::new(), count: 0 }
    }
}

impl Scheduler for GlobalRoundRobin {
    closed spec fn wf(&self) -> bool {
        self.count == self.queue@.len()
    }

    closed spec fn pending(&self) -> Multiset<QueuedTask> {
        self.queue@.to_multiset()
    }

    /// Appends the thread to the queue.
    fn add_task(&mut self, task: QueuedTask, harts: &Harts)
        ensures
            final(self).queue() == old(self).queue().push(task),
    {
        self.queue.push_back(task);
        self.count = self.count + 1;
    }

    /// Takes the thread at the front of the queue, whichever hart asks.
    fn fetch_task(&mut self, hart_id: usize, harts: &Harts) -> (r: Option<QueuedTask>)
        ensures
            old(self).queue().len() > 0 ==> r == Some(old(self).queue()[0]) && final(self).queue() == old(self).queue().drop_first(),
            old(self).queue().len() == 0 ==> r is None && final(self).queue() == old(self).queue(),
    {
        let ghost q = self.queue@;
        let task = self.queue.pop_front();
        if task.is_some() {
            self.count = self.count - 1;
            proof {
                assert(q.remove(0) =~= q.drop_first());
            }
        }
        task
    }

    fn task_count(&self) -> (n: usize) {
        self.count
    }

    /// "Global Round-Robin".
    fn name(&self) -> (n: &'static str)
        ensures
            n@ == "Global Round-Robin"@,
    {
        "Global Round-Robin"
    }
}

/// The threads of four queues.
pub open spec fn all_tasks(qs: Seq<Seq<QueuedTask>>) -> Multiset<QueuedTask> {
    qs[0].to_multiset().add(qs[1].to_multiset()).add(qs[2].to_multiset()).add(qs[3].to_multiset())
}

/// The total length of four queues.
pub open spec fn total_len(qs: Seq<Seq<QueuedTask>>) -> int {
    (qs[0].len() + qs[1].len() + qs[2].len() + qs[3].len()) as int
}

/// Replacing one queue replaces its threads.
pub proof fn lemma_all_tasks_update(qs: Seq<Seq<QueuedTask>>, i: int, q: Seq<QueuedTask>)
    requires
        qs.len() == 4,
        0 <= i < 4,
    ensures
        all_tasks(qs.update(i, q)).add(qs[i].to_multiset()) == all_tasks(qs).add(q.to_multiset()),
        total_len(qs.update(i, q)) + qs[i].len() == total_len(qs) + q.len(),
{
    let a = qs[0].to_multiset();
    let b = qs[1].to_multiset();
    let c = qs[2].to_multiset();
    let d = qs[3].to_multiset();
    let m = q.to_multiset();
    if i == 0 {
        assert(m.add(b).add(c).add(d).add(a) =~= a.add(b).add(c).add(d).add(m));
    } else if i == 1 {
        assert(a.add(m).add(c).add(d).add(b) =~= a.add(b).add(c).add(d).add(m));
    } else if i == 2 {
        assert(a.add(b).add(m).add(d).add(c) =~= a.add(b).add(c).add(d).add(m));
    } else {
        assert(a.add(b).add(c).add(m).add(d) =~= a.add(b).add(c).add(d).add(m));
    }
}

/// The first hart, going round from `local + i`, whose queue holds more
/// than one thread.
pub open spec fn steal_victim(qs: Seq<Seq<QueuedTask>>, local: int, active: int, i: int) -> Option<int>
    decreases active - i,
{
    if i >= active {
        None
    } else if qs[(local + i) % active].len() > 1 {
        Some((local + i) % active)
    } else {
        steal_victim(qs, local, active, i + 1)
    }
}

pub proof fn lemma_steal_victim(qs: Seq<Seq<QueuedTask>>, local: int, active: int, i: int)
    requires
        1 <= i,
        0 <= local < active,
    ensures
        match steal_victim(qs, local, active, i) {
            Some(v) => 0 <= v < active && v != local && qs[v].len() > 1,
            None => true,
        },
    decreases active - i,
{
    if i < active {
        assert((local + i) % active != local) by (nonlinear_arith)
            requires
                1 <= i < active,
                0 <= local < active,
        ;
        lemma_steal_victim(qs, local, active, i + 1);
    }
}

/// A ready queue per hart. A thread goes to the queue of its pid modulo
/// the active harts; a hart takes from its own queue first, else steals
/// half of the first queue (going round) that holds more than one.
pub struct PerCpuWorkStealing {
    queues: Vec<VecDeque<QueuedTask>>,
    total_count: usize,
    next_hart: usize,
}

impl PerCpuWorkStealing {
    /// The queues, front first.
    pub closed spec fn queues(&self) -> Seq<Seq<QueuedTask>> {
        Seq::new(self.queues@.len(), |i: int| self.queues@[i]@)
    }

    /// The hint for balancing additions.
    pub closed spec fn spec_next_hart(&self) -> usize {
        self.next_hart
    }

    /// Four empty queues.
    pub fn new() -> (s: Self)
        ensures
            s.wf(),
            s.queues() == Seq::new(4, |i: int| Seq::<QueuedTask>::empty()),
            s.spec_next_hart() == 0,
    {
        let mut queues: Vec<VecDeque<QueuedTask>> = Vec::new();
        queues.push(VecDeque::new());
        queues.push(VecDeque::new());
        queues.push(VecDeque::new());
        queues.push(VecDeque::new());
        let s = PerCpuWorkStealing { queues, total_count: 0, next_hart: 0 };
        assert(s.queues() =~= Seq::new(4, |i: int| Seq::<QueuedTask>::empty()));
        s
    }

    /// Resets the balancing hint.
    pub fn reset_counter(&mut self)
        ensures
            final(self).spec_next_hart() == 0,
            final(self).queues() == old(self).queues(),
            final(self).wf() == old(self).wf(),
            final(self).pending() == old(self).pending(),
    {
        self.next_hart = 0;
    }

    /// Appends `t` to queue `i`.
    fn push_to(&mut self, i: usize, t: QueuedTask)
        requires
            old(self).queues@.len() == 4,
            i < 4,
        ensures
            final(self).queues@.len() == 4,
            final(self).queues() == old(self).queues().update(i as int, old(self).queues()[i as int].push(t)),
            final(self).total_count == old(self).total_count,
            final(self).next_hart == old(self).next_hart,
    {
        let mut q: VecDeque<QueuedTask> = VecDeque::new();
        self.queues.set_and_swap(i, &mut q);
        q.push_back(t);
        self.queues.set_and_swap(i, &mut q);
        assert(self.queues() =~= old(self).queues().update(i as int, old(self).queues()[i as int].push(t)));
    }

    /// Removes the front of queue `i`.
    fn pop_front_of(&mut self, i: usize) -> (r: Option<QueuedTask>)
        requires
            old(self).queues@.len() == 4,
            i < 4,
        ensures
            final(self).queues@.len() == 4,
            old(self).queues()[i as int].len() > 0 ==> r == Some(old(self).queues()[i as int][0])
                && final(self).queues() == old(self).queues().update(i as int, old(self).queues()[i as int].drop_first()),
            old(self).queues()[i as int].len() == 0 ==> r is None && final(self).queues() == old(self).queues(),
            final(self).total_count == old(self).total_count,
            final(self).next_hart == old(self).next_hart,
    {
        let mut q: VecDeque<QueuedTask> = VecDeque::new();
        self.queues.set_and_swap(i, &mut q);
        let r = q.pop_front();
        let ghost qv = q@;
        self.queues.set_and_swap(i, &mut q);
        assert(self.queues() =~= old(self).queues().update(i as int, qv));
        proof {
            if old(self).queues()[i as int].len() == 0 {
                assert(self.queues() =~= old(self).queues());
            }
        }
        r
    }

    /// Removes the back of queue `i`.
    fn pop_back_of(&mut self, i: usize) -> (r: Option<QueuedTask>)
        requires
            old(self).queues@.len() == 4,
            i < 4,
        ensures
            final(self).queues@.len() == 4,
            old(self).queues()[i as int].len() > 0 ==> r == Some(old(self).queues()[i as int].last())
                && final(self).queues() == old(self).queues().update(i as int, old(self).queues()[i as int].drop_last()),
            old(self).queues()[i as int].len() == 0 ==> r is None && final(self).queues() == old(self).queues(),
            final(self).total_count == old(self).total_count,
            final(self).next_hart == old(self).next_hart,
    {
        let mut q: VecDeque<QueuedTask> = VecDeque::new();
        self.queues.set_and_swap(i, &mut q);
        let r = q.pop_back();
        let ghost qv = q@;
        self.queues.set_and_swap(i, &mut q);
        assert(self.queues() =~= old(self).queues().update(i as int, qv));
        proof {
            if old(self).queues()[i as int].len() == 0 {
                assert(self.queues() =~= old(self).queues());
            }
        }
        r
    }

    /// Steals from queue `victim` for the hart with the empty queue
    /// `local_idx` (see `after_steal`) and returns the thread to run: the
    /// victim's last.
    #[verifier::rlimit(60)]
    fn steal(&mut self, local_idx: usize, victim: usize) -> (first: QueuedTask)
        requires
            old(self).wf(),
            local_idx < 4,
            victim < 4,
            victim != local_idx,
            old(self).queues()[local_idx as int].len() == 0,
            old(self).queues()[victim as int].len() > 1,
        ensures
            final(self).wf(),
            first == old(self).queues()[victim as int].last(),
            final(self).queues() == after_steal(old(self).queues(), local_idx as int, victim as int),
            old(self).pending().contains(first),
            final(self).pending() == old(self).pending().remove(first),
        {
                let ghost q0 = self.queues();
                let len = self.len_of(victim);
                let ghost q = q0[victim as int];
                let half = len / 2;
                let steal_count = if half < 1 { 1 } else { half };
                let mut stolen: Vec<QueuedTask> = Vec::new();
                let mut k: usize = 0;
                assert(q.take(len as int) =~= q);
                assert(q0.update(victim as int, q) =~= q0);
                while k < steal_count
                    invariant
                        k <= steal_count,
                        steal_count == len / 2,
                        len == q.len(),
                        len > 1,
                        victim < 4,
                        victim != local_idx,
                        q0.len() == 4,
                        q == q0[victim as int],
                        self.total_count == total_len(q0),
                        self.queues@.len() == 4,
                        self.total_count == old(self).total_count,
                        self.queues() == q0.update(victim as int, q.take(len - k)),
                        stolen@ == Seq::new(k as nat, |j: int| q[len - 1 - j]),
                    decreases steal_count - k,
                {
                    let ghost before = self.queues();
                    let t = self.pop_back_of(victim);
                    proof {
                        assert(before[victim as int] == q.take(len - k));
                    }
                    if let Some(t) = t {
                        stolen.push(t);
                    }
                    proof {
                        assert(q.take(len - k).drop_last() =~= q.take(len - k - 1));
                        assert(before.update(victim as int, q.take(len - k - 1)) =~= q0.update(victim as int, q.take(len - k - 1)));
                        assert(stolen@ =~= Seq::new((k + 1) as nat, |j: int| q[len - 1 - j]));
                    }
                    k = k + 1;
                }
                let first = stolen.remove(0);
                self.total_count = self.total_count - 1;
                let ghost rest = stolen@;
                proof {
                    assert(rest =~= q.subrange(len - steal_count, len - 1).reverse());
                    assert(rest.take(0) =~= Seq::<QueuedTask>::empty());
                    assert(q0[local_idx as int] =~= Seq::<QueuedTask>::empty());
                    assert(q0.update(victim as int, q.take(len - steal_count)).update(local_idx as int, rest.take(0))
                        =~= q0.update(victim as int, q.take(len - steal_count)));
                }
                let mut j: usize = 0;
                while j < stolen.len()
                    invariant
                        j <= stolen@.len(),
                        stolen@ == rest,
                        local_idx < 4,
                        victim < 4,
                        victim != local_idx,
                        q0.len() == 4,
                        self.queues@.len() == 4,
                        self.total_count == old(self).total_count - 1,
                        self.queues() == q0.update(victim as int, q.take(len - steal_count)).update(local_idx as int, rest.take(j as int)),
                    decreases stolen@.len() - j,
                {
                    let ghost before = self.queues();
                    self.push_to(local_idx, stolen[j]);
                    proof {
                        assert(rest.take(j as int).push(rest[j as int]) =~= rest.take(j + 1));
                        assert(self.queues() =~= q0.update(victim as int, q.take(len - steal_count)).update(local_idx as int, rest.take(j + 1)));
                    }
                    j = j + 1;
                }
                proof {
                    assert(rest.take(rest.len() as int) =~= rest);
                    assert(self.queues() == after_steal(q0, local_idx as int, victim as int));
                    assert(first == q.last());
                    // The threads: the victim's queue splits into what stays,
                    // what moves and the one taken.
                    let kept = q.take(len - steal_count);
                    let moved = q.subrange(len - steal_count, len - 1);
                    assert(q =~= kept + moved + seq![first]);
                    vstd::seq_lib::lemma_multiset_commutative(kept + moved, seq![first]);
                    vstd::seq_lib::lemma_multiset_commutative(kept, moved);
                    moved.lemma_reverse_to_multiset();
                    let q1 = q0.update(victim as int, kept);
                    lemma_all_tasks_update(q0, victim as int, kept);
                    lemma_all_tasks_update(q1, local_idx as int, rest);
                    assert(q1[local_idx as int] == q0[local_idx as int]);
                    assert(q0[local_idx as int].to_multiset() =~= Multiset::empty());
                    let a0 = all_tasks(q0);
                    let a2 = all_tasks(self.queues());
                    assert(a2.add(q.to_multiset()) =~= a0.add(kept.to_multiset()).add(rest.to_multiset()));
                    assert(q.to_multiset() =~= kept.to_multiset().add(rest.to_multiset()).insert(first));
                    assert forall|x: QueuedTask| a2.count(x) == a0.remove(first).count(x) by {
                        assert(a2.add(q.to_multiset()).count(x) == a0.add(kept.to_multiset()).add(rest.to_multiset()).count(x));
                    }
                    assert(a0.count(first) > 0) by {
                        assert(a2.add(q.to_multiset()).count(first) == a0.add(kept.to_multiset()).add(rest.to_multiset()).count(first));
                    }
                    assert(a2 =~= a0.remove(first));
                    lemma_all_tasks_update(q0, victim as int, kept);
                }
                first
            }

    /// Takes the front of the first queue that is not empty, whichever
    /// hart it belongs to; none when every queue is empty.
    fn take_any(&mut self) -> (r: Option<QueuedTask>)
        requires
            old(self).wf(),
        ensures
            final(self).wf(),
            match r {
                Some(t) => old(self).pending().contains(t) && final(self).pending() == old(self).pending().remove(t),
                None => old(self).pending() == Multiset::<QueuedTask>::empty() && final(self).pending() == old(self).pending(),
            },
    {
        let ghost q0 = self.queues();
        let mut i: usize = 0;
        while i < 4
            invariant
                i <= 4,
                self.queues@.len() == 4,
                self.queues() == q0,
                q0 == old(self).queues(),
                q0.len() == 4,
                self.total_count == total_len(q0),
                self.total_count == old(self).total_count,
                self.next_hart == old(self).next_hart,
                forall|j: int| 0 <= j < i ==> (#[trigger] q0[j]).len() == 0,
            decreases 4 - i,
        {
            if let Some(task) = self.pop_front_of(i) {
                self.total_count = self.total_count - 1;
                proof {
                    let l = i as int;
                    assert(q0[l] =~= seq![q0[l][0]] + q0[l].drop_first());
                    vstd::seq_lib::lemma_multiset_commutative(seq![q0[l][0]], q0[l].drop_first());
                    lemma_all_tasks_update(q0, l, q0[l].drop_first());
                    assert(q0[l].to_multiset() =~= q0[l].drop_first().to_multiset().insert(task));
                    assert(all_tasks(self.queues()).add(q0[l].to_multiset()) =~= all_tasks(self.queues()).insert(task).add(q0[l].drop_first().to_multiset()));
                    lemma_cancel(all_tasks(self.queues()).insert(task), q0[l].drop_first().to_multiset(), all_tasks(q0));
                    assert(all_tasks(q0).count(task) > 0);
                    assert(all_tasks(self.queues()) =~= all_tasks(q0).remove(task));
                }
                return Some(task);
            }
            i = i + 1;
        }
        proof {
            assert(q0[0] =~= Seq::<QueuedTask>::empty());
            assert(q0[1] =~= Seq::<QueuedTask>::empty());
            assert(q0[2] =~= Seq::<QueuedTask>::empty());
            assert(q0[3] =~= Seq::<QueuedTask>::empty());
            broadcast use vstd::multiset::group_multiset_axioms;
            assert(all_tasks(q0) =~= Multiset::<QueuedTask>::empty());
        }
        None
    }

    /// The length of queue `i`.
    fn len_of(&self, i: usize) -> (n: usize)
        requires
            self.queues@.len() == 4,
            i < 4,
        ensures
            n == self.queues()[i as int].len(),
    {
        self.queues[i].len()
    }
}

/// Multiset arithmetic for moving threads between queues: if `a + b` and
/// `c + b` agree, so do `a` and `c`.
pub proof fn lemma_cancel(a: Multiset<QueuedTask>, b: Multiset<QueuedTask>, c: Multiset<QueuedTask>)
    requires
        a.add(b) == c.add(b),
    ensures
        a == c,
{
    assert forall|x: QueuedTask| a.count(x) == c.count(x) by {
        vstd::multiset::axiom_multiset_add(a, b, x);
        vstd::multiset::axiom_multiset_add(c, b, x);
        assert(a.add(b).count(x) == c.add(b).count(x));
    }
    assert(a =~= c);
}

/// What work stealing leaves: the victim keeps all but its last `k`
/// threads; the thief's (empty) queue gets the second-to-last down to the
/// `k`-th last, in that order.
pub open spec fn after_steal(qs: Seq<Seq<QueuedTask>>, local: int, v: int) -> Seq<Seq<QueuedTask>> {
    let q = qs[v];
    let n = q.len() as int;
    let k = n / 2;
    qs.update(v, q.take(n - k)).update(local, q.subrange(n - k, n - 1).reverse())
}

/// A steal takes half of the victim's threads, rounded down (at least
/// one, as the victim holds more than one): the victim keeps the front of
/// its queue, the thief runs the victim's last thread and queues the
/// others it took, last first; no other queue changes.
pub proof fn law_steal_takes_half(qs: Seq<Seq<QueuedTask>>, local: int, v: int)
    requires
        qs.len() == 4,
        0 <= local < 4,
        0 <= v < 4,
        local != v,
        qs[v].len() > 1,
    ensures
        ({
            let a = after_steal(qs, local, v);
            let n = qs[v].len() as int;
            let taken = n - a[v].len();
            &&& a.len() == 4
            &&& 1 <= taken
            &&& 2 * taken <= n < 2 * taken + 2
            &&& a[v] == qs[v].take(a[v].len() as int)
            &&& a[local].len() + 1 == taken
            &&& forall|j: int| 0 <= j < a[local].len() ==> #[trigger] a[local][j] == qs[v][n - 2 - j]
            &&& forall|i: int| 0 <= i < 4 && i != v && i != local ==> #[trigger] a[i] == qs[i]
        }),
{
    let a = after_steal(qs, local, v);
    let n = qs[v].len() as int;
    assert(a[v] =~= qs[v].take(a[v].len() as int));
}

impl Scheduler for PerCpuWorkStealing {
    closed spec fn wf(&self) -> bool {
        &&& self.queues@.len() == 4
        &&& self.total_count == total_len(self.queues())
    }

    closed spec fn pending(&self) -> Multiset<QueuedTask> {
        all_tasks(self.queues())
    }

    /// Appends the thread to the queue of its pid modulo the active harts.
    fn add_task(&mut self, task: QueuedTask, harts: &Harts)
        ensures
            ({
                let target = (task.pid % harts.spec_active()) as int;
                final(self).queues() == old(self).queues().update(target, old(self).queues()[target].push(task))
            }),
    {
        let a = active_harts(harts);
        let active = if a < 1 { 1 } else { a };
        let target = task.pid % active;
        let ghost q0 = self.queues();
        self.push_to(target, task);
        self.total_count = self.total_count + 1;
        proof {
            let t = target as int;
            lemma_all_tasks_update(q0, t, q0[t].push(task));
            assert(all_tasks(q0).add(q0[t].push(task).to_multiset()) =~= all_tasks(q0).insert(task).add(q0[t].to_multiset()));
            lemma_cancel(all_tasks(self.queues()), q0[t].to_multiset(), all_tasks(q0).insert(task));
        }
    }

    /// Takes the front of the hart's own queue; else steals half (at least
    /// one) of the first queue, going round from the next hart, that holds
    /// more than one thread, runs the last of them and queues the rest
    /// locally (see `after_steal`); none for an inactive hart or when no
    /// queue can be robbed.
    fn fetch_task(&mut self, hart_id: usize, harts: &Harts) -> (r: Option<QueuedTask>)
        ensures
            stealing_fetch(old(self).queues(), final(self).queues(), *harts, hart_id, r),
    {
        let a = active_harts(harts);
        let active = if a < 1 { 1 } else { a };
        let local_idx = match logical_hart_index(harts, hart_id) {
            Some(idx) => idx,
            None => return None,
        };
        if local_idx >= active {
            return None;
        }
        let ghost q0 = self.queues();
        if let Some(task) = self.pop_front_of(local_idx) {
            self.total_count = self.total_count - 1;
            proof {
                let l = local_idx as int;
                assert(q0[l] =~= seq![q0[l][0]] + q0[l].drop_first());
                vstd::seq_lib::lemma_multiset_commutative(seq![q0[l][0]], q0[l].drop_first());
                lemma_all_tasks_update(q0, l, q0[l].drop_first());
                assert(q0[l].to_multiset() =~= q0[l].drop_first().to_multiset().insert(task));
                assert(all_tasks(self.queues()).add(q0[l].to_multiset()) =~= all_tasks(self.queues()).insert(task).add(q0[l].drop_first().to_multiset()));
                lemma_cancel(all_tasks(self.queues()).insert(task), q0[l].drop_first().to_multiset(), all_tasks(q0));
                assert(all_tasks(q0).count(task) > 0);
                assert(all_tasks(self.queues()) =~= all_tasks(q0).remove(task));
            }
            return Some(task);
        }
        let mut i: usize = 1;
        while i < active
            invariant
                1 <= i <= active,
                active == harts.spec_active(),
                local_idx < active <= 4,
                self.queues@.len() == 4,
                self.total_count == old(self).total_count,
                self.queues() == q0,
                q0 == old(self).queues(),
                q0.len() == 4,
                self.total_count == total_len(q0),
                harts.logical_index(hart_id) == Some(local_idx),
                self.wf(),
                q0[local_idx as int].len() == 0,
                steal_victim(q0, local_idx as int, active as int, 1) == steal_victim(q0, local_idx as int, active as int, i as int),
            decreases active - i,
        {
            let victim = (local_idx + i) % active;
            let len = self.len_of(victim);
            if len > 1 {
                proof {
                    lemma_steal_victim(q0, local_idx as int, active as int, i as int);
                    assert(steal_victim(q0, local_idx as int, active as int, i as int) == Some(victim as int));
                }
                let first = self.steal(local_idx, victim);
                proof {
                    assert(harts.logical_index(hart_id) == Some(local_idx));
                    assert(steal_victim(old(self).queues(), local_idx as int, harts.spec_active() as int, 1) == Some(victim as int));
                    assert(first == old(self).queues()[victim as int].last());
                    assert(self.queues() == after_steal(old(self).queues(), local_idx as int, victim as int));
                }
                return Some(first);
            }
            proof {
                assert(steal_victim(q0, local_idx as int, active as int, i as int) == steal_victim(q0, local_idx as int, active as int, i + 1));
            }
            i = i + 1;
        }
        None
    }

    fn task_count(&self) -> (n: usize) {
        self.total_count
    }

    /// "Per-CPU Work-Stealing".
    fn name(&self) -> (n: &'static str)
        ensures
            n@ == "Per-CPU Work-Stealing"@,
    {
        "Per-CPU Work-Stealing"
    }
}

/// What taking a thread for hart `hart_id` does to the per-hart queues
/// `qs` (now `qs1`), with result `r`: the front of the hart's own queue;
/// else, from the first queue to rob (see `steal_victim`), its last thread,
/// the queues becoming `after_steal`; none for a hart that is not active,
/// or when no queue can be robbed.
pub open spec fn stealing_fetch(qs: Seq<Seq<QueuedTask>>, qs1: Seq<Seq<QueuedTask>>, harts: Harts, hart_id: usize, r: Option<QueuedTask>) -> bool {
    let active = harts.spec_active() as int;
    match harts.logical_index(hart_id) {
        None => r is None && qs1 == qs,
        Some(l) => if qs[l as int].len() > 0 {
            r == Some(qs[l as int][0]) && qs1 == qs.update(l as int, qs[l as int].drop_first())
        } else {
            match steal_victim(qs, l as int, active, 1) {
                None => r is None && qs1 == qs,
                Some(v) => r == Some(qs[v].last()) && qs1 == after_steal(qs, l as int, v),
            }
        },
    }
}

/// What taking a thread does to the global ready queue `q` (now `q1`),
/// with result `r`: its front, or none when it is empty.
pub open spec fn queue_fetch(q: Seq<QueuedTask>, q1: Seq<QueuedTask>, r: Option<QueuedTask>) -> bool {
    if q.len() > 0 {
        r == Some(q[0]) && q1 == q.drop_first()
    } else {
        r is None && q1 == q
    }
}

/// Both schedulers and which one is in use.
pub struct Schedulers {
    pub active: SchedulerType,
    pub global: GlobalRoundRobin,
    pub percpu: PerCpuWorkStealing,
}

impl Schedulers {
    /// Both empty; the global round robin in use.
    pub fn new() -> (s: Self)
        ensures
            s.wf(),
            s.active == SchedulerType::GlobalRoundRobin,
            s.global.pending() == Multiset::<QueuedTask>::empty(),
            s.percpu.pending() == Multiset::<QueuedTask>::empty(),
    {
        let s = Schedulers { active: SchedulerType::GlobalRoundRobin, global: GlobalRoundRobin::new(), percpu: PerCpuWorkStealing::new() };
        proof {
            assert(s.global.pending() =~= Multiset::<QueuedTask>::empty());
            assert(s.percpu.pending() =~= Multiset::<QueuedTask>::empty());
        }
        s
    }

    /// Both schedulers are consistent.
    pub open spec fn wf(&self) -> bool {
        self.global.wf() && self.percpu.wf()
    }

    /// The threads queued in either scheduler.
    pub open spec fn all_pending(&self) -> Multiset<QueuedTask> {
        self.global.pending().add(self.percpu.pending())
    }
}

/// The strategy in use.
pub fn get_scheduler_type(s: &Schedulers) -> (t: SchedulerType)
    ensures
        t == s.active,
{
    s.active
}

/// Switches to strategy `stype`, moving every queued thread over: the old
/// scheduler is drained until it is empty (the global queue through hart
/// 0, the per-hart queues one after the other). No thread is lost or
/// duplicated.
pub fn set_scheduler(s: &mut Schedulers, stype: SchedulerType, harts: &Harts)
    requires
        old(s).wf(),
        harts.wf(),
        old(s).all_pending().len() < usize::MAX,
    ensures
        final(s).wf(),
        final(s).active == stype,
        final(s).all_pending() == old(s).all_pending(),
        old(s).active != stype && stype == SchedulerType::PerCpuWorkStealing ==> final(s).global.pending() == Multiset::<QueuedTask>::empty(),
        old(s).active != stype && stype == SchedulerType::GlobalRoundRobin ==> final(s).percpu.pending() == Multiset::<QueuedTask>::empty(),
        old(s).active == stype ==> *final(s) == *old(s),
{
    if s.active == stype {
        return;
    }
    s.active = stype;
    match stype {
        SchedulerType::PerCpuWorkStealing => {
            s.percpu.reset_counter();
            loop
                invariant
                    s.wf(),
                    harts.wf(),
                    s.all_pending() == old(s).all_pending(),
                    s.active == stype,
                    old(s).all_pending().len() < usize::MAX,
                ensures
                    s.wf(),
                    s.all_pending() == old(s).all_pending(),
                    s.active == stype,
                    s.global.pending() == Multiset::<QueuedTask>::empty(),
                decreases s.global.pending().len(),
            {
                let ghost before = s.all_pending();
                let ghost gp = s.global.pending();
                match s.global.fetch_task(0, harts) {
                    Some(task) => {
                        proof {
                            assert(s.percpu.pending().len() < usize::MAX) by {
                                assert(before.len() == gp.len() + s.percpu.pending().len());
                            }
                        }
                        s.percpu.add_task(task, harts);
                        proof {
                            assert(s.all_pending() =~= before);
                        }
                    },
                    None => {
                        proof {
                            if s.global.pending().len() > 0 {
                                let t = s.global.pending().choose();
                                assert(s.global.pending().contains(t));
                            }
                            assert(s.global.pending() =~= Multiset::<QueuedTask>::empty());
                        }
                        break;
                    },
                }
            }
        },
        SchedulerType::GlobalRoundRobin => {
            loop
                invariant
                    s.wf(),
                    harts.wf(),
                    s.all_pending() == old(s).all_pending(),
                    s.active == stype,
                    old(s).all_pending().len() < usize::MAX,
                ensures
                    s.wf(),
                    s.all_pending() == old(s).all_pending(),
                    s.active == stype,
                    s.percpu.pending() == Multiset::<QueuedTask>::empty(),
                decreases s.percpu.pending().len(),
            {
                let ghost before = s.all_pending();
                let ghost pp = s.percpu.pending();
                match s.percpu.take_any() {
                    Some(task) => {
                        proof {
                            assert(s.global.pending().len() < usize::MAX) by {
                                assert(before.len() == s.global.pending().len() + pp.len());
                            }
                        }
                        s.global.add_task(task, harts);
                        proof {
                            assert(s.all_pending() =~= before);
                        }
                    },
                    None => {
                        break;
                    },
                }
            }
        },
    }
}

/// Queues a thread in the scheduler in use.
pub fn add_task(s: &mut Schedulers, task: QueuedTask, harts: &Harts)
    requires
        old(s).wf(),
        harts.wf(),
        old(s).all_pending().len() < usize::MAX,
    ensures
        final(s).wf(),
        final(s).active == old(s).active,
        old(s).active == SchedulerType::GlobalRoundRobin ==> final(s).global.pending() == old(s).global.pending().insert(task)
            && final(s).percpu.pending() == old(s).percpu.pending(),
        old(s).active == SchedulerType::PerCpuWorkStealing ==> final(s).percpu.pending() == old(s).percpu.pending().insert(task)
            && final(s).global.pending() == old(s).global.pending(),
{
    match s.active {
        SchedulerType::GlobalRoundRobin => s.global.add_task(task, harts),
        SchedulerType::PerCpuWorkStealing => s.percpu.add_task(task, harts),
    }
}

/// Takes a thread for hart `hart_id` from the scheduler in use.
pub fn fetch_task(s: &mut Schedulers, hart_id: usize, harts: &Harts) -> (r: Option<QueuedTask>)
    requires
        old(s).wf(),
        harts.wf(),
    ensures
        final(s).wf(),
        final(s).active == old(s).active,
        old(s).active == SchedulerType::GlobalRoundRobin ==> queue_fetch(old(s).global.queue(), final(s).global.queue(), r)
            && final(s).percpu.queues() == old(s).percpu.queues(),
        old(s).active == SchedulerType::PerCpuWorkStealing ==> stealing_fetch(old(s).percpu.queues(), final(s).percpu.queues(), *harts, hart_id, r)
            && final(s).global.queue() == old(s).global.queue(),
        old(s).active == SchedulerType::GlobalRoundRobin ==> final(s).percpu.pending() == old(s).percpu.pending()
            && match r {
                Some(t) => old(s).global.pending().contains(t) && final(s).global.pending() == old(s).global.pending().remove(t),
                None => final(s).global.pending() == old(s).global.pending(),
            },
        old(s).active == SchedulerType::PerCpuWorkStealing ==> final(s).global.pending() == old(s).global.pending()
            && match r {
                Some(t) => old(s).percpu.pending().contains(t) && final(s).percpu.pending() == old(s).percpu.pending().remove(t),
                None => final(s).percpu.pending() == old(s).percpu.pending(),
            },
{
    match s.active {
        SchedulerType::GlobalRoundRobin => s.global.fetch_task(hart_id, harts),
        SchedulerType::PerCpuWorkStealing => s.percpu.fetch_task(hart_id, harts),
    }
}

/// The number of threads queued in the scheduler in use.
pub fn task_count(s: &Schedulers) -> (n: usize)
    requires
        s.wf(),
    ensures
        n == (match s.active {
            SchedulerType::GlobalRoundRobin => s.global.pending().len(),
            SchedulerType::PerCpuWorkStealing => s.percpu.pending().len(),
        }),
{
    match s.active {
        SchedulerType::GlobalRoundRobin => s.global.task_count(),
        SchedulerType::PerCpuWorkStealing => s.percpu.task_count(),
    }
}

} // verus!
