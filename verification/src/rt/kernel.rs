use vstd::prelude::*;
use crate::rt::event::{Event, EventType};
use crate::rt::mutex::{PiMutex, unlock_post, try_lock_post};
use crate::rt::scheduler::{EdfScheduler, is_edf_choice, no_ready_task};
use crate::rt::task::{Task, TaskState, Segment, seg_mutex, seg_duration};

verus! {

/// Every mutex that a segment of `segs` names is below `nm`.
pub open spec fn segment_mutexes_below(segs: Seq<Segment>, nm: nat) -> bool {
    forall|k: int| 0 <= k < segs.len() ==> (#[trigger] seg_mutex(segs[k]) matches Some(m) ==> m
        < nm)
}

/// The static part of a task's well-formedness: what never changes while
/// the simulation runs.
pub open spec fn task_config_ok(t: Task, nm: nat, sim: u32) -> bool {
    &&& t.segments@.len() > 0
    &&& segment_mutexes_below(t.segments@, nm)
    &&& sim + t.period <= u32::MAX
    &&& sim + t.relative_deadline <= u32::MAX
    &&& t.segments@.len() + sim < usize::MAX
}

/// A task's dynamic state is consistent at time `now` after `c` ticks.
pub open spec fn task_state_ok(t: Task, nm: nat, now: u32, c: nat) -> bool {
    &&& (t.held_mutex matches Some(m) ==> m < nm)
    &&& t.current_job_release <= now
    &&& t.current_segment_idx <= t.segments@.len() + c
    &&& t.jobs_completed <= 2 * c
    &&& t.deadline_misses <= 2 * c
    &&& counts_ok(t)
}

/// The configuration of task `a` equals that of `b`.
pub open spec fn same_config(a: Task, b: Task) -> bool {
    &&& a.id == b.id
    &&& a.name == b.name
    &&& a.base_priority == b.base_priority
    &&& a.period == b.period
    &&& a.relative_deadline == b.relative_deadline
    &&& a.segments == b.segments
}

/// How a task may change within one simulation tick: its configuration is
/// kept, every counter grows by at most `k`, and it only runs if it already
/// ran.
pub open spec fn task_step(a: Task, b: Task, nm: nat, now: u32, k: nat) -> bool {
    &&& same_config(a, b)
    &&& (b.held_mutex matches Some(m) ==> m < nm)
    &&& b.jobs_completed <= a.jobs_completed + k
    &&& b.deadline_misses <= a.deadline_misses + k
    &&& b.current_segment_idx <= a.current_segment_idx + k
    &&& b.current_job_release <= now
    &&& counts_ok(a) ==> counts_ok(b)
}

/// One response time is recorded per completed job, and no more deadlines
/// were missed than jobs completed.
pub open spec fn counts_ok(t: Task) -> bool {
    t.response_times@.len() == t.jobs_completed && t.deadline_misses <= t.jobs_completed
}

/// Every mutex names only tasks below `n` and has an index below the number
/// of mutexes as its id.
pub open spec fn mutexes_ok(ms: Seq<PiMutex>, n: nat) -> bool {
    forall|m: int|
        0 <= m < ms.len() ==> (#[trigger] ms[m]).names_tasks_below(n) && ms[m].id < ms.len()
}

pub proof fn lemma_task_step_trans(a: Task, b: Task, c: Task, nm: nat, now: u32, k1: nat, k2: nat)
    requires
        task_step(a, b, nm, now, k1),
        task_step(b, c, nm, now, k2),
    ensures
        task_step(a, c, nm, now, k1 + k2),
{
}

pub proof fn lemma_prefix_trans(a: Seq<Event>, b: Seq<Event>, c: Seq<Event>)
    requires
        a.is_prefix_of(b),
        b.is_prefix_of(c),
    ensures
        a.is_prefix_of(c),
{
    assert forall|k: int| 0 <= k < a.len() implies a[k] == c[k] by {
        assert(a[k] == b.subrange(0, a.len() as int)[k]);
        assert(b[k] == c.subrange(0, b.len() as int)[k]);
    }
    assert(a =~= c.subrange(0, a.len() as int));
}

pub proof fn lemma_mutexes_ok_update(a: Seq<PiMutex>, b: Seq<PiMutex>, k: int, n: nat)
    requires
        mutexes_ok(a, n),
        0 <= k < a.len(),
        b.len() == a.len(),
        b[k].names_tasks_below(n),
        b[k].id == a[k].id,
        forall|j: int| 0 <= j < a.len() && j != k ==> #[trigger] b[j] == a[j],
    ensures
        mutexes_ok(b, n),
{
    assert forall|m: int| 0 <= m < b.len() implies (#[trigger] b[m]).names_tasks_below(n) && b[m].id
        < b.len() by {
        if m != k {
            assert(b[m] == a[m]);
        }
    }
}

/// Inputs from which the simulation runs without fault: every index that a
/// task or mutex holds is in range, no task is running yet, and the
/// simulation is short enough that no counter overflows.
pub open spec fn inputs_ok(tasks: Seq<Task>, mutexes: Seq<PiMutex>, sim: u32) -> bool {
    &&& sim < 0x8000_0000
    &&& mutexes_ok(mutexes, tasks.len() as nat)
    &&& forall|i: int|
        0 <= i < tasks.len() ==> task_config_ok(#[trigger] tasks[i], mutexes.len() as nat, sim)
    &&& forall|i: int|
        0 <= i < tasks.len() ==> task_state_ok(#[trigger] tasks[i], mutexes.len() as nat, 0, 0)
    &&& forall|i: int| 0 <= i < tasks.len() ==> (#[trigger] tasks[i]).state != TaskState::Running
}

/// What completing the running job of `task_id` at tick `ct` does to the
/// tasks (`t0` to `t1`), the events (`e0` to `e1`) and the running task
/// (`r0` to `r1`): the response time is recorded, a late job counts a
/// deadline miss, and the task is suspended until its next release.
pub open spec fn job_completed(
    t0: Seq<Task>,
    e0: Seq<Event>,
    r0: Option<usize>,
    t1: Seq<Task>,
    e1: Seq<Event>,
    r1: Option<usize>,
    task_id: usize,
    ct: u32,
) -> bool {
                let t = t0[task_id as int];
                let n = t1[task_id as int];
                let rt = (ct + 1 - t.current_job_release) as u32;
                let late = ct + 1 > t.absolute_deadline;
                &&& t1.len() == t0.len()
                &&& forall|j: int|
                    0 <= j < t0.len() && j != task_id ==> #[trigger] t1[j]
                        == t0[j]
                &&& n == Task {
                    response_times: n.response_times,
                    jobs_completed: (t.jobs_completed + 1) as u32,
                    state: TaskState::Suspended,
                    deadline_misses: if late {
                        (t.deadline_misses + 1) as u32
                    } else {
                        t.deadline_misses
                    },
                    ..t
                }
                &&& n.response_times@ == t.response_times@.push(rt)
                &&& e1 == (if late {
                    e0.push(
                        Event::new_spec(
                            ct,
                            task_id,
                            EventType::DeadlineMissed {
                                deadline: t.absolute_deadline,
                                completed_at: (ct + 1) as u32,
                            },
                        ),
                    )
                } else {
                    e0
                }).push(Event::new_spec(ct, task_id, EventType::JobCompleted { response_time: rt }))
                &&& r1 == (if r0 == Some(task_id) {
                    None
                } else {
                    r0
                })
}

/// A completed job counts a deadline miss exactly when it finishes (at
/// tick `ct` + 1) after its absolute deadline: the miss count and the
/// missed-deadline event come together with that, and the job's response
/// time is its finish time less its release.
pub proof fn law_miss_exactly_when_late(
    t0: Seq<Task>,
    e0: Seq<Event>,
    r0: Option<usize>,
    t1: Seq<Task>,
    e1: Seq<Event>,
    r1: Option<usize>,
    task_id: usize,
    ct: u32,
)
    requires
        job_completed(t0, e0, r0, t1, e1, r1, task_id, ct),
        task_id < t0.len(),
        t0[task_id as int].current_job_release <= ct,
        t0[task_id as int].deadline_misses < u32::MAX,
        ct < u32::MAX,
    ensures
        (t1[task_id as int].deadline_misses == t0[task_id as int].deadline_misses + 1) <==> ct + 1 > t0[task_id as int].absolute_deadline,
        ct + 1 <= t0[task_id as int].absolute_deadline ==> t1[task_id as int].deadline_misses == t0[task_id as int].deadline_misses,
        (e1.len() == e0.len() + 2) <==> ct + 1 > t0[task_id as int].absolute_deadline,
        ct + 1 > t0[task_id as int].absolute_deadline ==> e1[e0.len() as int] == Event::new_spec(ct, task_id,
            EventType::DeadlineMissed { deadline: t0[task_id as int].absolute_deadline, completed_at: (ct + 1) as u32 }),
        t1[task_id as int].response_times@.last() + t0[task_id as int].current_job_release == ct + 1,
{
}

/// The mutex of the current segment of `t`, if it is a critical section.
pub open spec fn cur_mutex(t: Task) -> Option<usize> {
    if t.current_segment_idx < t.segments@.len() {
        seg_mutex(t.segments@[t.current_segment_idx as int])
    } else {
        None
    }
}

/// `t` moved to its next segment (see `Task::advance_to_next_segment`).
pub open spec fn advanced(t: Task) -> Task {
    let idx = t.current_segment_idx + 1;
    if idx < t.segments@.len() {
        Task { current_segment_idx: idx as usize, segment_remaining: seg_duration(t.segments@[idx]), ..t }
    } else {
        Task { current_segment_idx: idx as usize, ..t }
    }
}

/// The first step of ending a segment of `task_id` at `now`: the mutex of a
/// critical section is unlocked (see `PiMutex::unlock`); tasks, mutexes and
/// events go from `t0`, `m0`, `e0` to `t1`, `m1`, `e1`.
pub open spec fn segment_unlocked(t0: Seq<Task>, m0: Seq<PiMutex>, e0: Seq<Event>, t1: Seq<Task>, m1: Seq<PiMutex>, e1: Seq<Event>, task_id: usize, now: u32) -> bool {
    match cur_mutex(t0[task_id as int]) {
        Some(m) => unlock_post(m0[m as int], m1[m as int], t0, t1, e0, e1, task_id, now) && m1 == m0.update(m as int, m1[m as int]),
        None => t1 == t0 && m1 == m0 && e1 == e0,
    }
}

/// The rest of ending a segment of `task_id` at `now`, from `t1`, `m1`,
/// `e1` and running task `r0` to `t2`, `m2`, `e2`, `r2`: the task moves to
/// its next segment; with none left the job completes (see
/// `job_completed`), else a critical section tries to take its mutex (see
/// `PiMutex::try_lock`).
pub open spec fn segment_advanced(t1: Seq<Task>, m1: Seq<PiMutex>, e1: Seq<Event>, r0: Option<usize>, t2: Seq<Task>, m2: Seq<PiMutex>, e2: Seq<Event>, r2: Option<usize>, task_id: usize, now: u32) -> bool {
    let ta = t1.update(task_id as int, advanced(t1[task_id as int]));
    if ta[task_id as int].current_segment_idx >= ta[task_id as int].segments@.len() {
        job_completed(ta, e1, r0, t2, e2, r2, task_id, now) && m2 == m1
    } else {
        &&& r2 == r0
        &&& match cur_mutex(ta[task_id as int]) {
            Some(m) => try_lock_post(m1[m as int], m2[m as int], ta, t2, e1, e2, task_id, now) && m2 == m1.update(m as int, m2[m as int]),
            None => t2 == ta && m2 == m1 && e2 == e1,
        }
    }
}

/// `x` with a new job released at `time` (see `Task::release_job`).
pub open spec fn released(x: Task, time: u32) -> Task {
    Task {
        state: TaskState::Ready,
        absolute_deadline: (time + x.relative_deadline) as u32,
        effective_deadline: (time + x.relative_deadline) as u32,
        current_segment_idx: 0,
        segment_remaining: seg_duration(x.segments@[0]),
        held_mutex: None,
        current_job_release: time,
        blocked_at: None,
        next_release: (x.next_release + x.period) as u32,
        ..x
    }
}

/// A job of task `i` still active at its next release gives up the mutex
/// it holds (see `PiMutex::unlock`): from `t0`, `m0`, `e0` to `t1`, `m1`,
/// `e1` at time `t`.
pub open spec fn overrun_unlocked(t0: Seq<Task>, m0: Seq<PiMutex>, e0: Seq<Event>, t1: Seq<Task>, m1: Seq<PiMutex>, e1: Seq<Event>, i: usize, t: u32) -> bool {
    match t0[i as int].held_mutex {
        Some(m) => unlock_post(m0[m as int], m1[m as int], t0, t1, e0, e1, i, t) && m1 == m0.update(m as int, m1[m as int]),
        None => t1 == t0 && m1 == m0 && e1 == e0,
    }
}

/// What happens at time `t` to a job of task `i` that is still active at
/// its next release, from `t0`, `m0`, `e0` to `t1`, `m1`, `e1`: it counts a
/// deadline miss, gives up its mutex, and is completed (suspended, its
/// response time recorded) with a missed-deadline event. A suspended task
/// is left alone.
pub open spec fn overrun_ended(t0: Seq<Task>, m0: Seq<PiMutex>, e0: Seq<Event>, t1: Seq<Task>, m1: Seq<PiMutex>, e1: Seq<Event>, i: usize, t: u32) -> bool {
    if t0[i as int].state == TaskState::Suspended {
        t1 == t0 && m1 == m0 && e1 == e0
    } else {
        let tm = t0.update(i as int, Task { deadline_misses: (t0[i as int].deadline_misses + 1) as u32, ..t0[i as int] });
        exists|tb: Seq<Task>, eb: Seq<Event>| {
            &&& #[trigger] overrun_unlocked(tm, m0, e0, tb, m1, eb, i, t)
            &&& t1.len() == tb.len()
            &&& forall|j: int| 0 <= j < tb.len() && j != i ==> #[trigger] t1[j] == tb[j]
            &&& t1[i as int] == Task {
                response_times: t1[i as int].response_times,
                state: TaskState::Suspended,
                jobs_completed: (tb[i as int].jobs_completed + 1) as u32,
                ..tb[i as int]
            }
            &&& t1[i as int].response_times@ == tb[i as int].response_times@.push((t - tb[i as int].current_job_release) as u32)
            &&& e1 == eb.push(Event::new_spec(t, i, EventType::DeadlineMissed { deadline: tb[i as int].absolute_deadline, completed_at: t }))
        }
    }
}

/// The new job of task `i` starts at time `t`, from `t0`, `m0`, `e0` to
/// `t1`, `m1`, `e1`: it is released with a released event, and when its
/// first segment is a critical section it tries to take the mutex (see
/// `PiMutex::try_lock`).
pub open spec fn new_job_started(t0: Seq<Task>, m0: Seq<PiMutex>, e0: Seq<Event>, t1: Seq<Task>, m1: Seq<PiMutex>, e1: Seq<Event>, i: usize, t: u32) -> bool {
    let tr = t0.update(i as int, released(t0[i as int], t));
    let er = e0.push(Event::new_spec(t, i, EventType::Released));
    match cur_mutex(tr[i as int]) {
        Some(m) => try_lock_post(m0[m as int], m1[m as int], tr, t1, er, e1, i, t) && m1 == m0.update(m as int, m1[m as int]),
        None => t1 == tr && m1 == m0 && e1 == er,
    }
}

/// What releasing the due jobs at time `t` does for task `i`, from `t0`,
/// `m0`, `e0` to `t1`, `m1`, `e1`: nothing unless its next release is at
/// `t`; then an overrunning job ends (see `overrun_ended`) and the new job
/// starts (see `new_job_started`).
pub open spec fn job_released(t0: Seq<Task>, m0: Seq<PiMutex>, e0: Seq<Event>, t1: Seq<Task>, m1: Seq<PiMutex>, e1: Seq<Event>, i: usize, t: u32) -> bool {
    if t0[i as int].next_release != t {
        t1 == t0 && m1 == m0 && e1 == e0
    } else {
        exists|ta: Seq<Task>, ma: Seq<PiMutex>, ea: Seq<Event>| {
            &&& #[trigger] overrun_ended(t0, m0, e0, ta, ma, ea, i, t)
            &&& new_job_started(ta, ma, ea, t1, m1, e1, i, t)
        }
    }
}

/// The tasks at the start of a tick: the task that ran at the last tick,
/// if it is still running, is ready again.
pub open spec fn paused(t0: Seq<Task>, prev: Option<usize>) -> Seq<Task> {
    match prev {
        Some(c) => if c < t0.len() && t0[c as int].state == TaskState::Running {
            t0.update(c as int, Task { state: TaskState::Ready, ..t0[c as int] })
        } else {
            t0
        },
        None => t0,
    }
}

/// The jobs due at time `t` released, task by task in index order (see
/// `job_released`), from `t0`, `m0`, `e0` to `t1`, `m1`, `e1`.
pub open spec fn jobs_released(t0: Seq<Task>, m0: Seq<PiMutex>, e0: Seq<Event>, t1: Seq<Task>, m1: Seq<PiMutex>, e1: Seq<Event>, t: u32) -> bool {
    exists|st: Seq<(Seq<Task>, Seq<PiMutex>, Seq<Event>)>| {
        &&& st.len() == t0.len() + 1
        &&& st[0] == (t0, m0, e0)
        &&& st.last() == (t1, m1, e1)
        &&& forall|j: int| 0 <= j < t0.len() ==> #[trigger] job_released(st[j].0, st[j].1, st[j].2,
            st[j + 1].0, st[j + 1].1, st[j + 1].2, j as usize, t)
    }
}

/// `x` after running for one tick: running, with one tick less left of its
/// segment (the count wraps below 0).
pub open spec fn ran(x: Task) -> Task {
    Task {
        state: TaskState::Running,
        segment_remaining: if x.segment_remaining == 0 { u32::MAX } else { (x.segment_remaining - 1) as u32 },
        ..x
    }
}

/// The scheduling step of a tick at `now`, after the releases, from
/// `t2`, `m2`, `e2` and the previous runner `prev` to `t3`, `m3`, `e3` and
/// running task `r3`, where `next` runs this tick. With no ready task
/// nothing runs. Else `next` is the EDF choice; the previous runner, when
/// it is another task and ready, is preempted; `next` is scheduled and runs
/// one tick, and the end of its segment is handled (see
/// `segment_unlocked`, `segment_advanced`).
pub open spec fn tick_scheduled(
    t2: Seq<Task>,
    m2: Seq<PiMutex>,
    e2: Seq<Event>,
    prev: Option<usize>,
    next: Option<usize>,
    t3: Seq<Task>,
    m3: Seq<PiMutex>,
    e3: Seq<Event>,
    r3: Option<usize>,
    now: u32,
) -> bool {
    match next {
        None => no_ready_task(t2) && t3 == t2 && m3 == m2 && e3 == e2 && r3 is None,
        Some(n) => {
            let ep = if prev is Some && prev->0 != n && t2[prev->0 as int].state == TaskState::Ready {
                e2.push(Event::new_spec(now, prev->0, EventType::Preempted))
            } else {
                e2
            };
            let es = ep.push(Event::new_spec(now, n, EventType::Scheduled));
            let ts = t2.update(n as int, ran(t2[n as int]));
            &&& is_edf_choice(t2, n as int)
            &&& ts[n as int].segment_remaining == 0 ==> segment_ended(ts, m2, es, t3, m3, e3, r3, n, now)
            &&& ts[n as int].segment_remaining != 0 ==> t3 == ts && m3 == m2 && e3 == es && r3 == Some(n)
        },
    }
}

/// The end of the segment of the running task `n` at `now`, from `t0`,
/// `m0`, `e0` to `t1`, `m1`, `e1` and running task `r1` (see
/// `segment_unlocked`, `segment_advanced`).
pub open spec fn segment_ended(t0: Seq<Task>, m0: Seq<PiMutex>, e0: Seq<Event>, t1: Seq<Task>, m1: Seq<PiMutex>, e1: Seq<Event>, r1: Option<usize>, n: usize, now: u32) -> bool {
    exists|tu: Seq<Task>, mu: Seq<PiMutex>, eu: Seq<Event>| {
        &&& #[trigger] segment_unlocked(t0, m0, e0, tu, mu, eu, n, now)
        &&& segment_advanced(tu, mu, eu, Some(n), t1, m1, e1, r1, n, now)
    }
}

/// A snapshot of the simulator between ticks: tasks, mutexes, events, the
/// running task and which task ran at each tick so far.
pub type Snapshot = (Seq<Task>, Seq<PiMutex>, Seq<Event>, Option<usize>, Seq<Option<usize>>);

/// What the tick at time `now` does, from snapshot `a` to snapshot `b`:
/// the last runner is paused, the due jobs are released (see
/// `jobs_released`) and the scheduling step follows (see
/// `tick_scheduled`); the task that ran is appended to the per-tick record.
pub open spec fn ticked(a: Snapshot, b: Snapshot, now: u32) -> bool {
    &&& b.4.len() == a.4.len() + 1
    &&& b.4.drop_last() == a.4
    &&& exists|t2: Seq<Task>, m2: Seq<PiMutex>, e2: Seq<Event>| {
        &&& #[trigger] jobs_released(paused(a.0, a.3), a.1, a.2, t2, m2, e2, now)
        &&& tick_scheduled(t2, m2, e2, a.3, b.4.last(), b.0, b.1, b.2, b.3, now)
    }
}

/// A simulation of `d` ticks from tasks `t0` and mutexes `m0` at time 0,
/// with nothing recorded yet, ends in snapshot `fin`: every tick is as
/// `ticked` says.
pub open spec fn simulated(t0: Seq<Task>, m0: Seq<PiMutex>, d: u32, fin: Snapshot) -> bool {
    exists|snaps: Seq<Snapshot>| {
        &&& snaps.len() == d + 1
        &&& #[trigger] snaps[0] == (t0, m0, Seq::<Event>::empty(), None::<usize>, Seq::<Option<usize>>::empty())
        &&& snaps.last() == fin
        &&& forall|k: int| 0 <= k < d ==> #[trigger] ticked(snaps[k], snaps[k + 1], k as u32)
    }
}

proof fn lemma_ticked(a: Snapshot, b: Snapshot, now: u32, t2: Seq<Task>, m2: Seq<PiMutex>, e2: Seq<Event>)
    requires
        b.4.len() == a.4.len() + 1,
        b.4.drop_last() == a.4,
        jobs_released(paused(a.0, a.3), a.1, a.2, t2, m2, e2, now),
        tick_scheduled(t2, m2, e2, a.3, b.4.last(), b.0, b.1, b.2, b.3, now),
    ensures
        ticked(a, b, now),
{
}

proof fn lemma_tick_scheduled_some(
    t2: Seq<Task>,
    m2: Seq<PiMutex>,
    e2: Seq<Event>,
    prev: Option<usize>,
    n: usize,
    es: Seq<Event>,
    t3: Seq<Task>,
    m3: Seq<PiMutex>,
    e3: Seq<Event>,
    r3: Option<usize>,
    now: u32,
)
    requires
        es == (if prev is Some && prev->0 != n && t2[prev->0 as int].state == TaskState::Ready {
            e2.push(Event::new_spec(now, prev->0, EventType::Preempted))
        } else {
            e2
        }).push(Event::new_spec(now, n, EventType::Scheduled)),
        is_edf_choice(t2, n as int),
        ran(t2[n as int]).segment_remaining == 0 ==> segment_ended(t2.update(n as int, ran(t2[n as int])), m2, es, t3, m3, e3, r3, n, now),
        ran(t2[n as int]).segment_remaining != 0 ==> t3 == t2.update(n as int, ran(t2[n as int])) && m3 == m2 && e3 == es
            && r3 == Some(n),
    ensures
        tick_scheduled(t2, m2, e2, prev, Some(n), t3, m3, e3, r3, now),
{
    assert(t2.update(n as int, ran(t2[n as int]))[n as int] == ran(t2[n as int]));
}

/// Tick-based discrete-event RTOS kernel simulator.
pub struct Kernel {
    pub tasks: Vec<Task>,
    pub mutexes: Vec<PiMutex>,
    pub current_time: u32,
    pub sim_duration: u32,
    pub events: Vec<Event>,
    /// Which task ran at each tick.
    pub tick_runner: Vec<Option<usize>>,
    /// The task that ran at the last tick, if it is still running.
    pub running_task_id: Option<usize>,
}

impl Kernel {
    /// The simulator's state is consistent, `c` ticks having been counted
    /// for the per-task counters.
    pub closed spec fn wf_with(&self, c: nat) -> bool {
        &&& self.current_time <= self.sim_duration
        &&& self.sim_duration < 0x8000_0000
        &&& c <= self.sim_duration
        &&& mutexes_ok(self.mutexes@, self.tasks@.len() as nat)
        &&& forall|i: int|
            0 <= i < self.tasks@.len() ==> task_config_ok(
                #[trigger] self.tasks@[i],
                self.mutexes@.len() as nat,
                self.sim_duration,
            )
        &&& forall|i: int|
            0 <= i < self.tasks@.len() ==> task_state_ok(
                #[trigger] self.tasks@[i],
                self.mutexes@.len() as nat,
                self.current_time,
                c,
            )
        &&& (self.running_task_id matches Some(r) ==> r < self.tasks@.len())
        &&& forall|i: int|
            0 <= i < self.tasks@.len() && (#[trigger] self.tasks@[i]).state == TaskState::Running
                ==> (self.running_task_id matches Some(r) && r == i)
    }

    pub closed spec fn wf(&self) -> bool {
        self.wf_with(self.current_time as nat)
    }

    /// The state that the ticks change.
    pub open spec fn snapshot(&self) -> Snapshot {
        (self.tasks@, self.mutexes@, self.events@, self.running_task_id, self.tick_runner@)
    }

    /// A fresh kernel at time 0.
    pub fn new(tasks: Vec<Task>, mutexes: Vec<PiMutex>, sim_duration: u32) -> (k: Self)
        ensures
            k.tasks@ == tasks@,
            k.mutexes@ == mutexes@,
            k.current_time == 0,
            k.sim_duration == sim_duration,
            k.events@ == Seq::<Event>::empty(),
            k.tick_runner@ == Seq::<Option<usize>>::empty(),
            k.running_task_id is None,
            inputs_ok(tasks@, mutexes@, sim_duration) ==> k.wf(),
    {
        Kernel {
            tasks,
            mutexes,
            current_time: 0,
            sim_duration,
            events: Vec::new(),
            tick_runner: Vec::with_capacity(sim_duration as usize),
            running_task_id: None,
        }
    }

    /// Records the completion of the running job of `task_id` at the current
    /// tick: its response time, a deadline miss when it finished late, and
    /// the task is suspended until its next release.
    fn handle_job_complete(&mut self, task_id: usize)
        requires
            task_id < old(self).tasks@.len(),
            old(self).tasks@[task_id as int].current_job_release <= old(self).current_time,
            old(self).current_time < u32::MAX,
            old(self).tasks@[task_id as int].jobs_completed < u32::MAX,
            old(self).tasks@[task_id as int].deadline_misses < u32::MAX,
        ensures
            job_completed(old(self).tasks@, old(self).events@, old(self).running_task_id, final(self).tasks@, final(self).events@,
                final(self).running_task_id, task_id, old(self).current_time),
            final(self).mutexes@ == old(self).mutexes@,
            final(self).current_time == old(self).current_time,
            final(self).sim_duration == old(self).sim_duration,
            final(self).tick_runner@ == old(self).tick_runner@,
    {
        let completion_time = self.current_time;
        let deadline = self.tasks[task_id].absolute_deadline;
        let release_time = self.tasks[task_id].current_job_release;
        let response_time = completion_time + 1 - release_time;
        self.tasks[task_id].response_times.push(response_time);
        self.tasks[task_id].jobs_completed = self.tasks[task_id].jobs_completed + 1;
        self.tasks[task_id].state = TaskState::Suspended;
        if completion_time + 1 > deadline {
            self.tasks[task_id].deadline_misses = self.tasks[task_id].deadline_misses + 1;
            self.events.push(
                Event::new(
                    completion_time,
                    task_id,
                    EventType::DeadlineMissed { deadline, completed_at: completion_time + 1 },
                ),
            );
        }
        self.events.push(
            Event::new(completion_time, task_id, EventType::JobCompleted { response_time }),
        );
        if self.running_task_id == Some(task_id) {
            self.running_task_id = None;
        }
    }

    /// Ends the current segment of `task_id`: releases its mutex if the
    /// segment was a critical section, moves to the next segment, completes
    /// the job when none is left, and otherwise tries to take the mutex of
    /// the next segment.
    #[verifier::rlimit(60)]
    #[verifier::spinoff_prover]
    fn handle_segment_done(&mut self, task_id: usize)
        requires
            task_id < old(self).tasks@.len(),
            mutexes_ok(old(self).mutexes@, old(self).tasks@.len() as nat),
            segment_mutexes_below(
                old(self).tasks@[task_id as int].segments@,
                old(self).mutexes@.len() as nat,
            ),
            forall|j: int|
                0 <= j < old(self).tasks@.len() ==> ((#[trigger] old(self).tasks@[j]).held_mutex matches Some(m) ==> m < old(self).mutexes@.len()),
            old(self).tasks@[task_id as int].current_segment_idx < usize::MAX,
            old(self).running_task_id == Some(task_id),
            forall|j: int|
                0 <= j < old(self).tasks@.len() ==> (#[trigger] old(self).tasks@[j]).current_job_release
                    <= old(self).current_time,
            old(self).current_time < u32::MAX,
            old(self).tasks@[task_id as int].jobs_completed < u32::MAX,
            old(self).tasks@[task_id as int].deadline_misses < u32::MAX,
        ensures
            final(self).tasks@.len() == old(self).tasks@.len(),
            final(self).mutexes@.len() == old(self).mutexes@.len(),
            mutexes_ok(final(self).mutexes@, final(self).tasks@.len() as nat),
            forall|j: int|
                0 <= j < old(self).tasks@.len() ==> task_step(
                    #[trigger] old(self).tasks@[j],
                    final(self).tasks@[j],
                    old(self).mutexes@.len() as nat,
                    old(self).current_time,
                    if j == task_id {
                        1
                    } else {
                        0
                    },
                ),
            final(self).running_task_id == old(self).running_task_id
                || final(self).running_task_id is None,
            final(self).running_task_id is None ==> final(self).tasks@[task_id as int].state
                != TaskState::Running,
            forall|j: int|
                0 <= j < old(self).tasks@.len() && (#[trigger] final(self).tasks@[j]).state
                    == TaskState::Running ==> old(self).tasks@[j].state == TaskState::Running,
            old(self).events@.is_prefix_of(final(self).events@),
            final(self).current_time == old(self).current_time,
            final(self).sim_duration == old(self).sim_duration,
            final(self).tick_runner@ == old(self).tick_runner@,
            exists|t1: Seq<Task>, m1: Seq<PiMutex>, e1: Seq<Event>| {
                &&& #[trigger] segment_unlocked(old(self).tasks@, old(self).mutexes@, old(self).events@, t1, m1, e1, task_id, old(self).current_time)
                &&& segment_advanced(t1, m1, e1, old(self).running_task_id, final(self).tasks@, final(self).mutexes@, final(self).events@,
                    final(self).running_task_id, task_id, old(self).current_time)
            },
    {
        let ghost nm = self.mutexes@.len() as nat;
        let ghost now = self.current_time;
        let ghost t0 = self.tasks@;
        let cur_mutex = self.tasks[task_id].current_segment_mutex();
        if let Some(mutex_id) = cur_mutex {
            proof {
                assert(seg_mutex(t0[task_id as int].segments@[t0[task_id as int].current_segment_idx as int]) == cur_mutex);
            }
            let now = self.current_time;
            self.mutexes[mutex_id].unlock(task_id, &mut self.tasks, &mut self.events, now);
            proof {
                lemma_mutexes_ok_update(old(self).mutexes@, self.mutexes@, mutex_id as int, t0.len() as nat);
            }
        }
        let ghost t1 = self.tasks@;
        let ghost m1 = self.mutexes@;
        let ghost e1 = self.events@;
        proof {
            if let Some(mutex_id) = cur_mutex {
                assert(m1 =~= old(self).mutexes@.update(mutex_id as int, m1[mutex_id as int]));
            }
            assert(segment_unlocked(old(self).tasks@, old(self).mutexes@, old(self).events@, t1, m1, e1, task_id, now));
        }
        assert forall|j: int| 0 <= j < t0.len() implies task_step(#[trigger] t0[j], t1[j], nm, now, 0)
            && (t1[j].state == TaskState::Running ==> t0[j].state == TaskState::Running) by {}
        self.tasks[task_id].advance_to_next_segment();
        let ghost t2 = self.tasks@;
        assert forall|j: int| 0 <= j < t0.len() implies task_step(#[trigger] t0[j], t2[j], nm, now, if j == task_id { 1 } else { 0 })
            && (t2[j].state == TaskState::Running ==> t0[j].state == TaskState::Running) by {
            assert(task_step(t0[j], t1[j], nm, now, 0));
            assert(t1[j].state == TaskState::Running ==> t0[j].state == TaskState::Running);
        }
        proof {
            assert(t2 =~= t1.update(task_id as int, advanced(t1[task_id as int])));
        }
        if self.tasks[task_id].is_job_complete() {
            self.handle_job_complete(task_id);
            proof {
                assert(segment_advanced(t1, m1, e1, old(self).running_task_id, self.tasks@, self.mutexes@, self.events@,
                    self.running_task_id, task_id, now));
            }
            assert forall|j: int| 0 <= j < t0.len() implies task_step(#[trigger] t0[j], self.tasks@[j], nm, now, if j == task_id { 1 } else { 0 })
                && (self.tasks@[j].state == TaskState::Running ==> t0[j].state == TaskState::Running) by {
                assert(task_step(t0[j], t2[j], nm, now, if j == task_id { 1 } else { 0 }));
                assert(t2[j].state == TaskState::Running ==> t0[j].state == TaskState::Running);
            }
            return;
        }
        let next_mutex = self.tasks[task_id].current_segment_mutex();
        if let Some(mutex_id) = next_mutex {
            proof {
                let t = t2[task_id as int];
                assert(seg_mutex(t.segments@[t.current_segment_idx as int]) == next_mutex);
            }
            let now = self.current_time;
            let ghost m0 = self.mutexes@;
            self.mutexes[mutex_id].try_lock(task_id, &mut self.tasks, &mut self.events, now);
            proof {
                lemma_mutexes_ok_update(m0, self.mutexes@, mutex_id as int, t0.len() as nat);
                assert(self.mutexes@ =~= m1.update(mutex_id as int, self.mutexes@[mutex_id as int]));
            }
            assert forall|j: int| 0 <= j < t0.len() implies task_step(#[trigger] t0[j], self.tasks@[j], nm, now, if j == task_id { 1 } else { 0 })
                && (self.tasks@[j].state == TaskState::Running ==> t0[j].state == TaskState::Running) by {
                assert(task_step(t0[j], t2[j], nm, now, if j == task_id { 1 } else { 0 }));
                assert(t2[j].state == TaskState::Running ==> t0[j].state == TaskState::Running);
            }
        }
    }

    /// Releases every job that is due at the current time. A job that is
    /// still active at its next release counts as a deadline miss: it gives
    /// up its mutex and is completed before the new job starts. A new job
    /// whose first segment is a critical section tries to take its mutex.
    #[verifier::rlimit(60)]
    #[verifier::spinoff_prover]
    fn release_jobs(&mut self)
        requires
            old(self).current_time < old(self).sim_duration,
            old(self).sim_duration < 0x8000_0000,
            mutexes_ok(old(self).mutexes@, old(self).tasks@.len() as nat),
            forall|j: int|
                0 <= j < old(self).tasks@.len() ==> task_config_ok(
                    #[trigger] old(self).tasks@[j],
                    old(self).mutexes@.len() as nat,
                    old(self).sim_duration,
                ),
            forall|j: int|
                0 <= j < old(self).tasks@.len() ==> task_state_ok(
                    #[trigger] old(self).tasks@[j],
                    old(self).mutexes@.len() as nat,
                    old(self).current_time,
                    old(self).current_time as nat,
                ),
            forall|j: int|
                0 <= j < old(self).tasks@.len() ==> (#[trigger] old(self).tasks@[j]).state
                    != TaskState::Running,
        ensures
            final(self).tasks@.len() == old(self).tasks@.len(),
            final(self).mutexes@.len() == old(self).mutexes@.len(),
            mutexes_ok(final(self).mutexes@, final(self).tasks@.len() as nat),
            forall|j: int|
                0 <= j < old(self).tasks@.len() ==> task_step(
                    #[trigger] old(self).tasks@[j],
                    final(self).tasks@[j],
                    old(self).mutexes@.len() as nat,
                    old(self).current_time,
                    1,
                ),
            forall|j: int|
                0 <= j < final(self).tasks@.len() ==> (#[trigger] final(self).tasks@[j]).state
                    != TaskState::Running,
            forall|j: int|
                0 <= j < final(self).tasks@.len() ==> (#[trigger] final(self).tasks@[j]).current_segment_idx
                    <= old(self).tasks@[j].current_segment_idx,
            old(self).events@.is_prefix_of(final(self).events@),
            final(self).running_task_id == old(self).running_task_id,
            final(self).current_time == old(self).current_time,
            final(self).sim_duration == old(self).sim_duration,
            final(self).tick_runner@ == old(self).tick_runner@,
            exists|st: Seq<(Seq<Task>, Seq<PiMutex>, Seq<Event>)>| {
                &&& st.len() == old(self).tasks@.len() + 1
                &&& st[0] == (old(self).tasks@, old(self).mutexes@, old(self).events@)
                &&& st.last() == (final(self).tasks@, final(self).mutexes@, final(self).events@)
                &&& forall|j: int| 0 <= j < old(self).tasks@.len() ==> #[trigger] job_released(st[j].0, st[j].1, st[j].2,
                    st[j + 1].0, st[j + 1].1, st[j + 1].2, j as usize, old(self).current_time)
            },
    {
        let t = self.current_time;
        let ghost mut st: Seq<(Seq<Task>, Seq<PiMutex>, Seq<Event>)> = seq![(self.tasks@, self.mutexes@, self.events@)];
        let ghost nm = self.mutexes@.len() as nat;
        let ghost t0 = self.tasks@;
        let mut i: usize = 0;
        while i < self.tasks.len()
            invariant
                i <= self.tasks@.len(),
                self.tasks@.len() == t0.len(),
                self.mutexes@.len() == nm,
                t == self.current_time,
                t == old(self).current_time,
                self.current_time < self.sim_duration,
                self.sim_duration == old(self).sim_duration,
                self.sim_duration < 0x8000_0000,
                self.running_task_id == old(self).running_task_id,
                self.tick_runner@ == old(self).tick_runner@,
                t0 == old(self).tasks@,
                nm == old(self).mutexes@.len(),
                mutexes_ok(self.mutexes@, t0.len() as nat),
                forall|j: int|
                    0 <= j < t0.len() ==> task_config_ok(#[trigger] t0[j], nm, self.sim_duration),
                forall|j: int|
                    0 <= j < t0.len() ==> task_state_ok(#[trigger] t0[j], nm, t, t as nat),
                forall|j: int|
                    0 <= j < t0.len() ==> task_step(
                        #[trigger] t0[j],
                        self.tasks@[j],
                        nm,
                        t,
                        if j < i {
                            1
                        } else {
                            0
                        },
                    ),
                forall|j: int|
                    0 <= j < t0.len() ==> (#[trigger] self.tasks@[j]).state != TaskState::Running,
                forall|j: int|
                    0 <= j < t0.len() ==> (#[trigger] self.tasks@[j]).current_segment_idx
                        <= t0[j].current_segment_idx,
                old(self).events@.is_prefix_of(self.events@),
                st.len() == i + 1,
                st[0] == (old(self).tasks@, old(self).mutexes@, old(self).events@),
                st.last() == (self.tasks@, self.mutexes@, self.events@),
                forall|j: int| 0 <= j < i ==> #[trigger] job_released(st[j].0, st[j].1, st[j].2,
                    st[j + 1].0, st[j + 1].1, st[j + 1].2, j as usize, t),
            decreases t0.len() - i,
        {
            let ghost ti = self.tasks@;
            let ghost ei = self.events@;
            let ghost mi = self.mutexes@;
            let ghost mut tm = ti;
            let ghost mut tb = ti;
            let ghost mut eb = ei;
            let ghost mut t3 = ti;
            let ghost mut m3 = mi;
            let ghost mut e3 = ei;
            proof {
                assert(task_step(t0[i as int], ti[i as int], nm, t, 0));
                assert(task_config_ok(t0[i as int], nm, self.sim_duration));
                assert(task_state_ok(t0[i as int], nm, t, t as nat));
            }
            if self.tasks[i].next_release == t {
                if self.tasks[i].state != TaskState::Suspended {
                    self.tasks[i].deadline_misses = self.tasks[i].deadline_misses + 1;
                    proof {
                        tm = self.tasks@;
                        assert(tm =~= ti.update(i as int, Task { deadline_misses: (ti[i as int].deadline_misses + 1) as u32, ..ti[i as int] }));
                    }
                    if let Some(mux_id) = self.tasks[i].held_mutex {
                        let ghost m0 = self.mutexes@;
                        let ghost ta = self.tasks@;
                        self.mutexes[mux_id].unlock(i, &mut self.tasks, &mut self.events, t);
                        proof {
                            assert(self.mutexes@ =~= mi.update(mux_id as int, self.mutexes@[mux_id as int]));
                            lemma_mutexes_ok_update(m0, self.mutexes@, mux_id as int, t0.len() as nat);
                            assert forall|j: int| 0 <= j < t0.len() implies task_step(
                                #[trigger] ta[j],
                                self.tasks@[j],
                                nm,
                                t,
                                0,
                            ) && self.tasks@[j].state != TaskState::Running
                                && self.tasks@[j].current_segment_idx == ta[j].current_segment_idx by {
                                assert(task_step(t0[j], ti[j], nm, t, if j < i { 1 } else { 0 }));
                            }
                        }
                    }
                    proof {
                        tb = self.tasks@;
                        eb = self.events@;
                        m3 = self.mutexes@;
                        assert(overrun_unlocked(tm, mi, ei, tb, m3, eb, i, t));
                    }
                    self.tasks[i].state = TaskState::Suspended;
                    let rt = t - self.tasks[i].current_job_release;
                    self.tasks[i].response_times.push(rt);
                    self.tasks[i].jobs_completed = self.tasks[i].jobs_completed + 1;
                    let deadline = self.tasks[i].absolute_deadline;
                    self.events.push(
                        Event::new(
                            t,
                            i,
                            EventType::DeadlineMissed { deadline, completed_at: t },
                        ),
                    );
                    proof {
                        t3 = self.tasks@;
                        e3 = self.events@;
                    }
                }
                proof {
                    assert(overrun_ended(ti, mi, ei, t3, m3, e3, i, t));
                }
                self.tasks[i].release_job(t);
                self.events.push(Event::new(t, i, EventType::Released));
                proof {
                    assert(self.tasks@ =~= t3.update(i as int, released(t3[i as int], t)));
                }
                let ghost tb = self.tasks@;
                let first_mutex = self.tasks[i].current_segment_mutex();
                if let Some(mutex_id) = first_mutex {
                    if self.tasks[i].held_mutex.is_none() {
                        proof {
                            let tt = self.tasks@[i as int];
                            assert(seg_mutex(tt.segments@[tt.current_segment_idx as int])
                                == first_mutex);
                        }
                        let ghost m0 = self.mutexes@;
                        self.mutexes[mutex_id].try_lock(i, &mut self.tasks, &mut self.events, t);
                        proof {
                            lemma_mutexes_ok_update(m0, self.mutexes@, mutex_id as int, t0.len() as nat);
                            assert(self.mutexes@ =~= m3.update(mutex_id as int, self.mutexes@[mutex_id as int]));
                        }
                    }
                }
                proof {
                    assert forall|j: int| 0 <= j < t0.len() implies task_step(
                        #[trigger] t0[j],
                        self.tasks@[j],
                        nm,
                        t,
                        if j < i + 1 {
                            1
                        } else {
                            0
                        },
                    ) && self.tasks@[j].state != TaskState::Running
                        && self.tasks@[j].current_segment_idx <= t0[j].current_segment_idx by {
                        assert(task_step(t0[j], ti[j], nm, t, if j < i { 1 } else { 0 }));
                    }
                }
            }
            proof {
                assert forall|j: int| 0 <= j < t0.len() implies task_step(
                    #[trigger] t0[j],
                    self.tasks@[j],
                    nm,
                    t,
                    if j < i + 1 {
                        1
                    } else {
                        0
                    },
                ) by {
                    assert(task_step(t0[j], ti[j], nm, t, if j < i { 1 } else { 0 }));
                }
                lemma_prefix_trans(old(self).events@, ei, self.events@);
                if ti[i as int].next_release == t {
                    assert(new_job_started(t3, m3, e3, self.tasks@, self.mutexes@, self.events@, i, t));
                }
                assert(job_released(ti, mi, ei, self.tasks@, self.mutexes@, self.events@, i, t));
                let st0 = st;
                st = st.push((self.tasks@, self.mutexes@, self.events@));
                assert forall|j: int| 0 <= j < i + 1 implies #[trigger] job_released(st[j].0, st[j].1, st[j].2,
                    st[j + 1].0, st[j + 1].1, st[j + 1].2, j as usize, t) by {
                    if j < i {
                        assert(st[j] == st0[j] && st[j + 1] == st0[j + 1]);
                    }
                }
            }
            i = i + 1;
        }
    }

    /// Simulates one tick: releases due jobs, runs the EDF choice among the
    /// ready tasks for one tick and handles the end of its segment (see
    /// `ticked`).
    #[verifier::rlimit(40)]
    #[verifier::spinoff_prover]
    fn tick(&mut self)
        requires
            old(self).wf(),
            old(self).current_time < old(self).sim_duration,
        ensures
            final(self).wf_with(old(self).current_time as nat + 1),
            final(self).current_time == old(self).current_time,
            final(self).sim_duration == old(self).sim_duration,
            final(self).tasks@.len() == old(self).tasks@.len(),
            final(self).mutexes@.len() == old(self).mutexes@.len(),
            forall|j: int|
                0 <= j < old(self).tasks@.len() ==> same_config(
                    #[trigger] old(self).tasks@[j],
                    final(self).tasks@[j],
                ),
            final(self).tick_runner@.len() == old(self).tick_runner@.len() + 1,
            final(self).tick_runner@.drop_last() == old(self).tick_runner@,

            final(self).tick_runner@.last() matches Some(id) ==> id < old(self).tasks@.len(),
            final(self).tick_runner@.last() is None ==> forall|j: int|
                0 <= j < final(self).tasks@.len() ==> ((#[trigger] final(self).tasks@[j]).state
                    == TaskState::Suspended || final(self).tasks@[j].state == TaskState::Blocked),
            old(self).events@.is_prefix_of(final(self).events@),
            ticked(old(self).snapshot(), final(self).snapshot(), old(self).current_time),
    {
        let t = self.current_time;
        let ghost nm = self.mutexes@.len() as nat;
        let ghost t0 = self.tasks@;
        let ghost e0 = self.events@;
        let prev_running = self.running_task_id;
        if let Some(cur) = self.running_task_id {
            if self.tasks[cur].state == TaskState::Running {
                self.tasks[cur].state = TaskState::Ready;
            }
            assert(self.tasks@[cur as int].state != TaskState::Running);
            assert(forall|j: int| 0 <= j < t0.len() && j != cur ==> self.tasks@[j] == t0[j]);
        }
        assert(forall|j: int|
            0 <= j < t0.len() && !(prev_running matches Some(c) && c == j) ==> self.tasks@[j] == t0[j]);
        assert(forall|j: int|
            0 <= j < t0.len() && (prev_running matches Some(c) && c == j) ==> self.tasks@[j].state
                != TaskState::Running && self.tasks@[j] == (Task { state: self.tasks@[j].state, ..t0[j] }));
        proof {
            assert forall|j: int| 0 <= j < t0.len() implies task_config_ok(#[trigger] self.tasks@[j], nm, self.sim_duration)
                && task_state_ok(self.tasks@[j], nm, t, t as nat)
                && self.tasks@[j].state != TaskState::Running
                && task_step(t0[j], self.tasks@[j], nm, t, 0)
                && self.tasks@[j].current_segment_idx == t0[j].current_segment_idx by {
                assert(task_config_ok(t0[j], nm, self.sim_duration));
                assert(task_state_ok(t0[j], nm, t, t as nat));
                if (prev_running matches Some(c) && c == j) {
                    assert(self.tasks@[j].state != TaskState::Running);
                } else {
                    assert(self.tasks@[j] == t0[j]);
                }
            }
        }
        let ghost t1 = self.tasks@;
        proof {
            assert(t1 =~= paused(t0, prev_running));
        }
        self.release_jobs();
        let ghost t2 = self.tasks@;
        let ghost e2 = self.events@;
        let ghost m2 = self.mutexes@;
        proof {
            assert(jobs_released(t1, old(self).mutexes@, e0, t2, m2, e2, t));
        }
        proof {
            assert forall|j: int| 0 <= j < t0.len() implies task_step(#[trigger] t0[j], t2[j], nm, t, 1)
                && t2[j].current_segment_idx <= t0[j].current_segment_idx by {
                assert(task_step(t0[j], t1[j], nm, t, 0));
                assert(task_step(t1[j], t2[j], nm, t, 1));
                lemma_task_step_trans(t0[j], t1[j], t2[j], nm, t, 0, 1);
            }
        }
        let next = EdfScheduler::pick_next(self.tasks.as_slice());
        if let Some(next_id) = next {
            if let Some(prev) = prev_running {
                if prev != next_id && self.tasks[prev].state == TaskState::Ready {
                    self.events.push(Event::new(t, prev, EventType::Preempted));
                }
            }
            let ghost ep = self.events@;
            proof {
                assert(ep == (if prev_running is Some && prev_running->0 != next_id
                    && t2[prev_running->0 as int].state == TaskState::Ready {
                    e2.push(Event::new_spec(t, prev_running->0, EventType::Preempted))
                } else {
                    e2
                }));
            }
            self.tasks[next_id].state = TaskState::Running;
            self.running_task_id = Some(next_id);
            self.events.push(Event::new(t, next_id, EventType::Scheduled));
            let ghost es = self.events@;
            proof {
                assert(es == ep.push(Event::new_spec(t, next_id, EventType::Scheduled)));
            }
            self.tasks[next_id].segment_remaining = self.tasks[next_id].segment_remaining.wrapping_sub(1);
            let ghost t3 = self.tasks@;
            proof {
                assert(t3 =~= t2.update(next_id as int, ran(t2[next_id as int])));
            }
            proof {
                assert forall|j: int| 0 <= j < t0.len() implies task_step(#[trigger] t0[j], t3[j], nm, t, 1)
                    && t3[j].current_segment_idx <= t0[j].current_segment_idx
                    && (t3[j].state == TaskState::Running ==> j == next_id) by {
                    assert(task_step(t0[j], t2[j], nm, t, 1));
                    assert(task_state_ok(t0[j], nm, t, t as nat));
                }
                lemma_prefix_trans(e0, e2, self.events@);
                assert(task_config_ok(t0[next_id as int], nm, self.sim_duration));
                assert(task_state_ok(t0[next_id as int], nm, t, t as nat));
            }
            let ghost e3 = self.events@;
            proof {
                assert(e3 == es);
                assert(self.mutexes@ == m2);
                assert(self.running_task_id == Some(next_id));
                assert(is_edf_choice(t2, next_id as int));
            }
            let done = self.tasks[next_id].segment_remaining == 0;
            if done {
                self.handle_segment_done(next_id);
                proof {
                    let ts = t2.update(next_id as int, ran(t2[next_id as int]));
                    assert(ts == t3);
                    assert(segment_ended(ts, m2, es, self.tasks@, self.mutexes@, self.events@, self.running_task_id, next_id, t));
                    assert forall|j: int| 0 <= j < t0.len() implies task_step(#[trigger] t0[j], self.tasks@[j], nm, t, 2)
                        && self.tasks@[j].current_segment_idx <= t0[j].current_segment_idx + 1
                        && (self.tasks@[j].state == TaskState::Running ==> (self.running_task_id matches Some(r) && r == j)) by {
                        assert(task_step(t0[j], t3[j], nm, t, 1));
                        assert(task_step(t3[j], self.tasks@[j], nm, t, if j == next_id { 1 } else { 0 }));
                        assert(self.tasks@[j].state == TaskState::Running ==> t3[j].state == TaskState::Running);
                        lemma_task_step_trans(t0[j], t3[j], self.tasks@[j], nm, t, 1, if j == next_id { 1 } else { 0 });
                    }
                    lemma_prefix_trans(e0, e3, self.events@);
                }
            }
            let ghost tf = self.tasks@;
            let ghost mf = self.mutexes@;
            let ghost ef = self.events@;
            let ghost rf = self.running_task_id;
            self.tick_runner.push(Some(next_id));
            proof {
                assert(self.tick_runner@.last() == Some(next_id));
                if !done {
                    assert(tf == t3 && mf == m2 && ef == es && rf == Some(next_id));
                }
                assert(t3[next_id as int] == ran(t2[next_id as int]));
                lemma_tick_scheduled_some(t2, m2, e2, prev_running, next_id, es, self.tasks@, self.mutexes@, self.events@,
                    self.running_task_id, t);
            }
        } else {
            self.running_task_id = None;
            self.tick_runner.push(None);
            proof {
                assert(self.tick_runner@.last() == None::<usize>);
                assert(tick_scheduled(t2, m2, e2, prev_running, None, self.tasks@, self.mutexes@, self.events@,
                    self.running_task_id, t));
            }
        }
        proof {
            assert(self.tick_runner@.drop_last() =~= old(self).tick_runner@);
            assert(jobs_released(paused(t0, prev_running), old(self).mutexes@, e0, t2, m2, e2, t));
            assert(tick_scheduled(t2, m2, e2, prev_running, self.tick_runner@.last(), self.tasks@, self.mutexes@,
                self.events@, self.running_task_id, t));
            lemma_ticked(old(self).snapshot(), self.snapshot(), t, t2, m2, e2);
            assert forall|j: int| 0 <= j < t0.len() implies task_state_ok(#[trigger] self.tasks@[j], nm, t, t as nat + 1)
                && task_config_ok(self.tasks@[j], nm, self.sim_duration)
                && same_config(t0[j], self.tasks@[j]) by {
                assert(task_step(t0[j], t2[j], nm, t, 1));
                assert(task_state_ok(t0[j], nm, t, t as nat));
                assert(task_config_ok(t0[j], nm, self.sim_duration));
            }
        }
    }

    /// Runs the simulation from the current time to its end.
    pub fn run(&mut self)
        requires
            old(self).wf(),
        ensures
            final(self).wf(),
            final(self).current_time == final(self).sim_duration,
            final(self).sim_duration == old(self).sim_duration,
            final(self).tasks@.len() == old(self).tasks@.len(),
            forall|j: int|
                0 <= j < old(self).tasks@.len() ==> same_config(
                    #[trigger] old(self).tasks@[j],
                    final(self).tasks@[j],
                ),
            final(self).tick_runner@.len() == old(self).tick_runner@.len() + (
            old(self).sim_duration - old(self).current_time),
            old(self).tick_runner@.is_prefix_of(final(self).tick_runner@),
            forall|k: int|
                old(self).tick_runner@.len() <= k < final(self).tick_runner@.len() ==> (
                #[trigger] final(self).tick_runner@[k] matches Some(id) ==> id
                    < old(self).tasks@.len()),
            old(self).events@.is_prefix_of(final(self).events@),
            forall|j: int|
                0 <= j < final(self).tasks@.len() ==> (#[trigger] final(self).tasks@[j]).deadline_misses
                    <= 2 * final(self).sim_duration,
            forall|j: int| 0 <= j < final(self).tasks@.len() ==> counts_ok(#[trigger] final(self).tasks@[j]),
            exists|snaps: Seq<Snapshot>| {
                &&& snaps.len() == old(self).sim_duration - old(self).current_time + 1
                &&& snaps[0] == old(self).snapshot()
                &&& snaps.last() == final(self).snapshot()
                &&& forall|k: int| 0 <= k < snaps.len() - 1 ==> #[trigger] ticked(snaps[k], snaps[k + 1],
                    (old(self).current_time + k) as u32)
            },
    {
        let ghost mut snaps: Seq<Snapshot> = seq![self.snapshot()];
        while self.current_time < self.sim_duration
            invariant
                self.wf(),
                self.sim_duration == old(self).sim_duration,
                self.tasks@.len() == old(self).tasks@.len(),
                forall|j: int|
                    0 <= j < old(self).tasks@.len() ==> same_config(
                        #[trigger] old(self).tasks@[j],
                        self.tasks@[j],
                    ),
                self.tick_runner@.len() == old(self).tick_runner@.len() + (self.current_time
                    - old(self).current_time),
                old(self).current_time <= self.current_time,
                old(self).tick_runner@.is_prefix_of(self.tick_runner@),
                forall|k: int|
                    old(self).tick_runner@.len() <= k < self.tick_runner@.len() ==> (
                    #[trigger] self.tick_runner@[k] matches Some(id) ==> id < old(self).tasks@.len()),
                old(self).events@.is_prefix_of(self.events@),
                snaps.len() == self.current_time - old(self).current_time + 1,
                snaps[0] == old(self).snapshot(),
                snaps.last() == self.snapshot(),
                forall|k: int| 0 <= k < snaps.len() - 1 ==> #[trigger] ticked(snaps[k], snaps[k + 1],
                    (old(self).current_time + k) as u32),
            decreases self.sim_duration - self.current_time,
        {
            let ghost r0 = self.tick_runner@;
            let ghost s0 = snaps;
            let ghost e0 = self.events@;
            let ghost ts0 = self.tasks@;
            self.tick();
            self.current_time = self.current_time + 1;
            proof {
                snaps = snaps.push(self.snapshot());
                assert forall|k: int| 0 <= k < snaps.len() - 1 implies #[trigger] ticked(snaps[k], snaps[k + 1],
                    (old(self).current_time + k) as u32) by {
                    if k < snaps.len() - 2 {
                        assert(snaps[k] == s0[k] && snaps[k + 1] == s0[k + 1]);
                    }
                }
                assert forall|j: int| 0 <= j < old(self).tasks@.len() implies same_config(
                    #[trigger] old(self).tasks@[j],
                    self.tasks@[j],
                ) by {
                    assert(same_config(old(self).tasks@[j], ts0[j]));
                    assert(same_config(ts0[j], self.tasks@[j]));
                }
                lemma_prefix_trans(old(self).events@, e0, self.events@);
                assert(r0 =~= self.tick_runner@.drop_last());
                assert(self.wf());
                assert forall|k: int| 0 <= k < old(self).tick_runner@.len() implies old(self).tick_runner@[k]
                    == self.tick_runner@[k] by {
                    assert(old(self).tick_runner@[k] == r0[k]);
                    assert(r0[k] == self.tick_runner@.drop_last()[k]);
                }
                assert(old(self).tick_runner@ =~= self.tick_runner@.subrange(0, old(self).tick_runner@.len() as int));
                assert forall|k: int|
                    old(self).tick_runner@.len() <= k < self.tick_runner@.len() implies (
                    #[trigger] self.tick_runner@[k] matches Some(id) ==> id < old(self).tasks@.len()) by {
                    if k < self.tick_runner@.len() - 1 {
                        assert(self.tick_runner@[k] == r0[k]);
                    }
                }
            }
        }
        assert forall|j: int| 0 <= j < self.tasks@.len() implies (#[trigger] self.tasks@[j]).deadline_misses
            <= 2 * self.sim_duration && counts_ok(self.tasks@[j]) by {
            assert(task_state_ok(self.tasks@[j], self.mutexes@.len() as nat, self.current_time, self.current_time as nat));
        }
    }

    /// The name of task `id`.
    pub fn task_name(&self, id: usize) -> (name: &str)
        requires
            id < self.tasks@.len(),
        ensures
            name@ == self.tasks@[id as int].name@,
    {
        self.tasks[id].name.as_str()
    }
}

} // verus!
