use vstd::prelude::*;
use crate::rt::event::{Event, EventType};
use crate::rt::kernel::{Kernel, Snapshot, simulated, inputs_ok, task_config_ok, task_state_ok, mutexes_ok, same_config, segment_mutexes_below};
use crate::rt::mutex::PiMutex;
use crate::rt::task::{Segment, Task, TaskState, seg_mutex};

verus! {

/// The three tasks of the priority-inversion scenario:
/// L (low): period 200, deadline 200, Compute(5), CS(20, mutex 0), Compute(15), released at 0;
/// H (high): period 60, deadline 60, Compute(5), CS(5, mutex 0), Compute(10), released at 10;
/// M (medium): period 100, deadline 100, Compute(30), released at 15.
pub fn build_tasks() -> (tasks: Vec<Task>)
    ensures
        tasks@.len() == 3,
        scenario_task(tasks@[0], 0, "L"@, 3, 200, 200, 0),
        tasks@[0].segments@ == seq![
            Segment::Compute(5),
            Segment::CriticalSection { duration: 20, mutex_id: 0 },
            Segment::Compute(15),
        ],
        scenario_task(tasks@[1], 1, "H"@, 1, 60, 60, 10),
        tasks@[1].segments@ == seq![
            Segment::Compute(5),
            Segment::CriticalSection { duration: 5, mutex_id: 0 },
            Segment::Compute(10),
        ],
        scenario_task(tasks@[2], 2, "M"@, 2, 100, 100, 15),
        tasks@[2].segments@ == seq![Segment::Compute(30)],
        scenario(tasks@),
{
    let task_l = Task::new(
        0,
        "L",
        3,
        200,
        200,
        vec![
            Segment::Compute(5),
            Segment::CriticalSection { duration: 20, mutex_id: 0 },
            Segment::Compute(15),
        ],
        0,
    );
    let task_h = Task::new(
        1,
        "H",
        1,
        60,
        60,
        vec![
            Segment::Compute(5),
            Segment::CriticalSection { duration: 5, mutex_id: 0 },
            Segment::Compute(10),
        ],
        10,
    );
    let task_m = Task::new(2, "M", 2, 100, 100, vec![Segment::Compute(30)], 15);
    let mut tasks: Vec<Task> = Vec::new();
    tasks.push(task_l);
    tasks.push(task_h);
    tasks.push(task_m);
    proof {
        assert(tasks@[0].segments@ =~= seq![
            Segment::Compute(5),
            Segment::CriticalSection { duration: 20, mutex_id: 0 },
            Segment::Compute(15),
        ]);
        assert(tasks@[1].segments@ =~= seq![
            Segment::Compute(5),
            Segment::CriticalSection { duration: 5, mutex_id: 0 },
            Segment::Compute(10),
        ]);
        assert(tasks@[2].segments@ =~= seq![Segment::Compute(30)]);
    }
    tasks
}

/// `t` is a freshly created task with the given configuration.
pub open spec fn scenario_task(
    t: Task,
    id: usize,
    name: Seq<char>,
    prio: u32,
    period: u32,
    deadline: u32,
    first_release: u32,
) -> bool {
    &&& t.id == id
    &&& t.name@ == name
    &&& t.base_priority == prio
    &&& t.period == period
    &&& t.relative_deadline == deadline
    &&& t.state == TaskState::Suspended
    &&& t.absolute_deadline == u32::MAX
    &&& t.effective_deadline == u32::MAX
    &&& t.next_release == first_release
    &&& t.current_segment_idx == 0
    &&& t.segment_remaining == 0
    &&& t.held_mutex is None
    &&& t.jobs_completed == 0
    &&& t.deadline_misses == 0
    &&& t.current_job_release == 0
    &&& t.response_times@.len() == 0
    &&& t.blocked_at is None
}

/// Outcome of one simulation of the scenario.
pub struct SingleRunResult {
    pub pi_enabled: bool,
    /// Ticks from H's last blocking to its last unblocking.
    pub h_inversion_duration: Option<u32>,
    /// H's response time for its first job.
    pub h_response_time: Option<u32>,
    pub h_deadline_missed: bool,
    pub total_deadline_misses: u32,
    /// Per task: its name and its deadline misses.
    pub per_task_misses: Vec<(String, u32)>,
    /// Per task: its name and the response times of all its jobs.
    pub per_task_response_times: Vec<(String, Vec<u32>)>,
    pub events: Vec<Event>,
    pub tick_runner: Vec<Option<usize>>,
}

/// Times of the last `Blocked` and the last `Unblocked` event of task `tid`.
pub open spec fn last_block_times(events: Seq<Event>, tid: usize) -> (Option<u32>, Option<u32>)
    decreases events.len(),
{
    if events.len() == 0 {
        (None, None)
    } else {
        let (b, u) = last_block_times(events.drop_last(), tid);
        let e = events.last();
        if e.task_id == tid {
            match e.event_type {
                EventType::Blocked(_) => (Some(e.time), u),
                EventType::Unblocked(_) => (b, Some(e.time)),
                _ => (b, u),
            }
        } else {
            (b, u)
        }
    }
}

/// Ticks that task `tid` waited in its last blocking, when it both blocked
/// and was unblocked.
pub open spec fn inversion_duration(events: Seq<Event>, tid: usize) -> Option<u32> {
    match last_block_times(events, tid) {
        (Some(b), Some(u)) => Some(sub_wrapping(u, b)),
        _ => None,
    }
}

pub open spec fn sub_wrapping(a: u32, b: u32) -> u32 {
    if a >= b {
        (a - b) as u32
    } else {
        (a - b + 0x1_0000_0000) as u32
    }
}

fn inversion_of(events: &Vec<Event>, tid: usize) -> (r: Option<u32>)
    ensures
        r == inversion_duration(events@, tid),
{
    let mut block: Option<u32> = None;
    let mut unblock: Option<u32> = None;
    let mut i: usize = 0;
    while i < events.len()
        invariant
            i <= events.len(),
            (block, unblock) == last_block_times(events@.take(i as int), tid),
        decreases events.len() - i,
    {
        proof {
            assert(events@.take(i + 1).drop_last() =~= events@.take(i as int));
        }
        let ev = events[i];
        if ev.task_id == tid {
            match ev.event_type {
                EventType::Blocked(_) => {
                    block = Some(ev.time);
                },
                EventType::Unblocked(_) => {
                    unblock = Some(ev.time);
                },
                _ => {},
            }
        }
        i = i + 1;
    }
    proof {
        assert(events@.take(i as int) =~= events@);
    }
    match (block, unblock) {
        (Some(b), Some(u)) => Some(u.wrapping_sub(b)),
        _ => None,
    }
}

/// The tasks can stand in the scenario: three of them, each with a
/// segment and only mutex 0, not started, over a simulation short enough
/// for every counter.
pub open spec fn scenario_tasks_ok(tasks: Seq<Task>, sim_duration: u32) -> bool {
    &&& tasks.len() == 3
    &&& sim_duration < 0x2000_0000
    &&& forall|i: int| 0 <= i < 3 ==> task_config_ok(#[trigger] tasks[i], 1, sim_duration)
    &&& forall|i: int| 0 <= i < 3 ==> task_state_ok(#[trigger] tasks[i], 1, 0, 0)
    &&& forall|i: int| 0 <= i < 3 ==> (#[trigger] tasks[i]).state != TaskState::Running
}

/// Whether `tasks` can stand in the scenario (see `scenario_tasks_ok`).
pub fn check_scenario_tasks(tasks: &Vec<Task>, sim_duration: u32) -> (b: bool)
    ensures
        b == scenario_tasks_ok(tasks@, sim_duration),
{
    if tasks.len() != 3 || sim_duration >= 0x2000_0000 {
        return false;
    }
    let mut i: usize = 0;
    while i < 3
        invariant
            i <= 3,
            tasks@.len() == 3,
            sim_duration < 0x2000_0000,
            forall|j: int| 0 <= j < i ==> task_config_ok(#[trigger] tasks@[j], 1, sim_duration),
            forall|j: int| 0 <= j < i ==> task_state_ok(#[trigger] tasks@[j], 1, 0, 0),
            forall|j: int| 0 <= j < i ==> (#[trigger] tasks@[j]).state != TaskState::Running,
        decreases 3 - i,
    {
        let t = &tasks[i];
        if t.segments.len() == 0 || t.period > u32::MAX - sim_duration || t.relative_deadline > u32::MAX - sim_duration
            || t.segments.len() >= usize::MAX - sim_duration as usize {
            proof {
                assert(!task_config_ok(tasks@[i as int], 1, sim_duration));
            }
            return false;
        }
        let mut k: usize = 0;
        while k < t.segments.len()
            invariant
                k <= t.segments@.len(),
                i < 3,
                tasks@.len() == 3,
                *t == tasks@[i as int],
                forall|q: int| 0 <= q < k ==> (#[trigger] seg_mutex(t.segments@[q]) matches Some(m) ==> m < 1),
            decreases t.segments@.len() - k,
        {
            match t.segments[k] {
                Segment::CriticalSection { mutex_id, .. } => {
                    if mutex_id != 0 {
                        proof {
                            assert(seg_mutex(t.segments@[k as int]) == Some(mutex_id));
                            assert(!segment_mutexes_below(t.segments@, 1));
                            assert(!task_config_ok(tasks@[i as int], 1, sim_duration));
                        }
                        return false;
                    }
                },
                Segment::Compute(_) => {},
            }
            k = k + 1;
        }
        match t.held_mutex {
            Some(m) => {
                if m != 0 {
                    proof {
                        assert(!task_state_ok(tasks@[i as int], 1, 0, 0));
                    }
                    return false;
                }
            },
            None => {},
        }
        if t.current_job_release != 0 || t.current_segment_idx > t.segments.len() || t.jobs_completed != 0
            || t.deadline_misses != 0 || t.response_times.len() != 0 {
            proof {
                assert(!task_state_ok(tasks@[i as int], 1, 0, 0));
            }
            return false;
        }
        match t.state {
            TaskState::Running => {
                proof {
                    assert(tasks@[i as int].state == TaskState::Running);
                }
                return false;
            },
            _ => {},
        }
        i = i + 1;
    }
    true
}

/// The one mutex of the scenario, free, with inheritance on or off.
pub open spec fn scenario_mutexes(m0: Seq<PiMutex>, pi_enabled: bool) -> bool {
    &&& m0.len() == 1
    &&& m0[0].id == 0
    &&& m0[0].owner is None
    &&& m0[0].wait_queue@ == Seq::<usize>::empty()
    &&& m0[0].pi_enabled == pi_enabled
}

/// `r` measures the simulation of tasks `t0` and mutexes `m0` for `d`
/// ticks: its events and per-tick record are those of the simulation's end
/// `fin`, its per-task counts those of the tasks there, and its figures for
/// task H (index 1) follow from them.
pub open spec fn measured(t0: Seq<Task>, m0: Seq<PiMutex>, pi_enabled: bool, d: u32, r: SingleRunResult) -> bool {
    exists|fin: Snapshot| {
        &&& #[trigger] simulated(t0, m0, d, fin)
        &&& fin.0.len() == 3
        &&& r.pi_enabled == pi_enabled
        &&& r.events@ == fin.2
        &&& r.tick_runner@ == fin.4
        &&& r.per_task_misses@.len() == 3
        &&& r.per_task_response_times@.len() == 3
        &&& forall|k: int| 0 <= k < 3 ==> (#[trigger] r.per_task_misses@[k]).0@ == fin.0[k].name@
            && r.per_task_misses@[k].1 == fin.0[k].deadline_misses
        &&& forall|k: int| 0 <= k < 3 ==> (#[trigger] r.per_task_response_times@[k]).0@ == fin.0[k].name@
            && r.per_task_response_times@[k].1@ == fin.0[k].response_times@
        &&& r.h_inversion_duration == inversion_duration(r.events@, 1)
        &&& r.h_deadline_missed == (r.per_task_misses@[1].1 > 0)
        &&& r.total_deadline_misses == r.per_task_misses@[0].1 + r.per_task_misses@[1].1 + r.per_task_misses@[2].1
        &&& r.h_response_time == (if r.per_task_response_times@[1].1@.len() > 0 {
            Some(r.per_task_response_times@[1].1@[0])
        } else {
            None
        })
    }
}

/// The three tasks that `build_tasks` makes.
pub open spec fn scenario(t: Seq<Task>) -> bool {
    &&& t.len() == 3
    &&& scenario_task(t[0], 0, "L"@, 3, 200, 200, 0)
    &&& t[0].segments@ == seq![
        Segment::Compute(5),
        Segment::CriticalSection { duration: 20, mutex_id: 0 },
        Segment::Compute(15),
    ]
    &&& scenario_task(t[1], 1, "H"@, 1, 60, 60, 10)
    &&& t[1].segments@ == seq![
        Segment::Compute(5),
        Segment::CriticalSection { duration: 5, mutex_id: 0 },
        Segment::Compute(10),
    ]
    &&& scenario_task(t[2], 2, "M"@, 2, 100, 100, 15)
    &&& t[2].segments@ == seq![Segment::Compute(30)]
}

/// `r` is the measurement of one simulation of the scenario for `d` ticks
/// with inheritance on or off.
pub open spec fn single_run(pi_enabled: bool, d: u32, r: SingleRunResult) -> bool {
    exists|t0: Seq<Task>, m0: Seq<PiMutex>| {
        &&& scenario(t0)
        &&& scenario_mutexes(m0, pi_enabled)
        &&& #[trigger] measured(t0, m0, pi_enabled, d, r)
    }
}

/// How many of the first `n` runs saw H miss a deadline.
pub open spec fn h_miss_runs(runs: Seq<SingleRunResult>, n: int) -> nat
    decreases n,
{
    if n <= 0 {
        0
    } else {
        h_miss_runs(runs, n - 1) + if runs[n - 1].h_deadline_missed { 1nat } else { 0nat }
    }
}

proof fn lemma_h_miss_runs_prefix(a: Seq<SingleRunResult>, b: Seq<SingleRunResult>, n: int)
    requires
        n <= a.len(),
        n <= b.len(),
        forall|k: int| 0 <= k < n ==> a[k] == b[k],
    ensures
        h_miss_runs(a, n) == h_miss_runs(b, n),
    decreases n,
{
    if n > 0 {
        lemma_h_miss_runs_prefix(a, b, n - 1);
    }
}

/// Simulates the scenario once with inheritance on or off and measures it.
pub fn run_single(pi_enabled: bool, sim_duration: u32) -> (r: SingleRunResult)
    requires
        sim_duration < 0x2000_0000,
    ensures
        single_run(pi_enabled, sim_duration, r),
        r.pi_enabled == pi_enabled,
        r.tick_runner@.len() == sim_duration,
        forall|k: int| 0 <= k < r.tick_runner@.len() ==> (#[trigger] r.tick_runner@[k] matches Some(id) ==> id < 3),
        r.h_inversion_duration == inversion_duration(r.events@, 1),
        r.per_task_misses@.len() == 3,
        r.per_task_response_times@.len() == 3,
        r.per_task_misses@[0].0@ == "L"@,
        r.per_task_misses@[1].0@ == "H"@,
        r.per_task_misses@[2].0@ == "M"@,
        forall|k: int| 0 <= k < 3 ==> #[trigger] r.per_task_response_times@[k].0@ == r.per_task_misses@[k].0@,
        r.h_deadline_missed == (r.per_task_misses@[1].1 > 0),
        r.total_deadline_misses == r.per_task_misses@[0].1 + r.per_task_misses@[1].1 + r.per_task_misses@[2].1,
        r.h_response_time == (if r.per_task_response_times@[1].1@.len() > 0 {
            Some(r.per_task_response_times@[1].1@[0])
        } else {
            None
        }),
{
    let tasks = build_tasks();
    proof {
        assert forall|i: int| 0 <= i < 3 implies task_config_ok(#[trigger] tasks@[i], 1, sim_duration) by {
            let segs = tasks@[i].segments@;
            assert forall|k: int| 0 <= k < segs.len() implies (#[trigger] seg_mutex(segs[k]) matches Some(m) ==> m < 1) by {}
        }
    }
    let ghost t0 = tasks@;
    let r = run_with_tasks(tasks, pi_enabled, sim_duration);
    proof {
        let m0 = choose|m0: Seq<PiMutex>| scenario_mutexes(m0, pi_enabled) && #[trigger] measured(t0, m0, pi_enabled, sim_duration, r);
        assert(scenario(t0));
    }
    r
}

/// Simulates the scenario with `tasks` in place of the built-in three
/// (task 1 is the one whose blocking is measured) and measures the run.
pub fn run_with_tasks(tasks: Vec<Task>, pi_enabled: bool, sim_duration: u32) -> (r: SingleRunResult)
    requires
        scenario_tasks_ok(tasks@, sim_duration),
    ensures
        exists|m0: Seq<PiMutex>| scenario_mutexes(m0, pi_enabled) && #[trigger] measured(tasks@, m0, pi_enabled, sim_duration, r),
        r.pi_enabled == pi_enabled,
        r.tick_runner@.len() == sim_duration,
        forall|k: int| 0 <= k < r.tick_runner@.len() ==> (#[trigger] r.tick_runner@[k] matches Some(id) ==> id < 3),
        r.h_inversion_duration == inversion_duration(r.events@, 1),
        r.per_task_misses@.len() == 3,
        r.per_task_response_times@.len() == 3,
        forall|k: int| 0 <= k < 3 ==> (#[trigger] r.per_task_misses@[k]).0@ == tasks@[k].name@,
        forall|k: int| 0 <= k < 3 ==> #[trigger] r.per_task_response_times@[k].0@ == r.per_task_misses@[k].0@,
        r.h_deadline_missed == (r.per_task_misses@[1].1 > 0),
        r.total_deadline_misses == r.per_task_misses@[0].1 + r.per_task_misses@[1].1 + r.per_task_misses@[2].1,
        r.h_response_time == (if r.per_task_response_times@[1].1@.len() > 0 {
            Some(r.per_task_response_times@[1].1@[0])
        } else {
            None
        }),
{
    let ghost orig = tasks@;
    let mutex = PiMutex::new(0, pi_enabled);
    let mut mutexes: Vec<PiMutex> = Vec::new();
    mutexes.push(mutex);
    proof {
        assert(mutexes_ok(mutexes@, 3));
        assert(inputs_ok(tasks@, mutexes@, sim_duration));
    }
    let ghost m0 = mutexes@;
    let mut kernel = Kernel::new(tasks, mutexes, sim_duration);
    kernel.run();
    let ghost fin = kernel.snapshot();
    proof {
        let snaps = choose|snaps: Seq<Snapshot>| {
            &&& snaps.len() == sim_duration - 0 + 1
            &&& snaps[0] == (orig, m0, Seq::<Event>::empty(), None::<usize>, Seq::<Option<usize>>::empty())
            &&& snaps.last() == fin
            &&& forall|k: int| 0 <= k < snaps.len() - 1 ==> #[trigger] crate::rt::kernel::ticked(snaps[k], snaps[k + 1],
                (0 + k) as u32)
        };
        assert forall|k: int| 0 <= k < sim_duration implies #[trigger] crate::rt::kernel::ticked(snaps[k], snaps[k + 1], k as u32) by {
            assert(crate::rt::kernel::ticked(snaps[k], snaps[k + 1], (0 + k) as u32));
        }
        assert(simulated(orig, m0, sim_duration, fin));
    }
    let Kernel { tasks, events, tick_runner, .. } = kernel;
    let h_inversion_duration = inversion_of(&events, 1);
    let h_response_time = if tasks[1].response_times.len() > 0 {
        Some(tasks[1].response_times[0])
    } else {
        None
    };
    let h_deadline_missed = tasks[1].deadline_misses > 0;
    let total_deadline_misses = tasks[0].deadline_misses + tasks[1].deadline_misses
        + tasks[2].deadline_misses;
    let mut per_task_misses: Vec<(String, u32)> = Vec::new();
    let mut per_task_response_times: Vec<(String, Vec<u32>)> = Vec::new();
    let mut i: usize = 0;
    while i < 3
        invariant
            i <= 3,
            tasks@.len() == 3,
            per_task_misses@.len() == i,
            per_task_response_times@.len() == i,
            forall|k: int| 0 <= k < i ==> (#[trigger] per_task_misses@[k]).0@ == tasks@[k].name@
                && per_task_misses@[k].1 == tasks@[k].deadline_misses,
            forall|k: int| 0 <= k < i ==> (#[trigger] per_task_response_times@[k]).0@ == tasks@[k].name@
                && per_task_response_times@[k].1@ == tasks@[k].response_times@,
        decreases 3 - i,
    {
        per_task_misses.push((tasks[i].name.clone(), tasks[i].deadline_misses));
        per_task_response_times.push((tasks[i].name.clone(), tasks[i].response_times.clone()));
        i = i + 1;
    }
    proof {
        assert forall|k: int| 0 <= k < 3 implies (#[trigger] per_task_misses@[k]).0@ == orig[k].name@ by {
            assert(same_config(orig[k], tasks@[k]));
        }
    }
    let r = SingleRunResult {
        pi_enabled,
        h_inversion_duration,
        h_response_time,
        h_deadline_missed,
        total_deadline_misses,
        per_task_misses,
        per_task_response_times,
        events,
        tick_runner,
    };
    proof {
        assert(fin.0 == tasks@ && fin.2 == r.events@ && fin.4 == r.tick_runner@);
        assert(measured(orig, m0, pi_enabled, sim_duration, r));
    }
    r
}

/// Results of `n_runs` simulations of the scenario.
pub struct BatchResult {
    pub pi_enabled: bool,
    pub n_runs: usize,
    pub h_inversion_durations: Vec<Option<u32>>,
    pub h_response_times: Vec<Option<u32>>,
    pub h_deadline_miss_count: u32,
    pub total_deadline_misses: Vec<u32>,
    pub first_run_events: Vec<Event>,
    pub first_run_tick_runner: Vec<Option<usize>>,
}

/// Simulates the scenario `n_runs` times and collects the measurements of
/// every run.
pub fn run_batch(n_runs: usize, pi_enabled: bool, sim_duration: u32) -> (r: BatchResult)
    requires
        sim_duration < 0x2000_0000,
        n_runs <= u32::MAX,
    ensures
        r.pi_enabled == pi_enabled,
        r.n_runs == n_runs,
        r.h_inversion_durations@.len() == n_runs,
        r.h_response_times@.len() == n_runs,
        r.total_deadline_misses@.len() == n_runs,
        r.h_deadline_miss_count <= n_runs,
        n_runs > 0 ==> r.first_run_tick_runner@.len() == sim_duration,
        n_runs > 0 ==> r.h_inversion_durations@[0] == inversion_duration(r.first_run_events@, 1),
        n_runs == 0 ==> r.first_run_events@.len() == 0 && r.first_run_tick_runner@.len() == 0,
        exists|runs: Seq<SingleRunResult>| {
            &&& runs.len() == n_runs
            &&& forall|k: int| 0 <= k < n_runs ==> #[trigger] single_run(pi_enabled, sim_duration, runs[k])
            &&& forall|k: int| 0 <= k < n_runs ==> r.h_inversion_durations@[k] == (#[trigger] runs[k]).h_inversion_duration
                && r.h_response_times@[k] == runs[k].h_response_time
                && r.total_deadline_misses@[k] == runs[k].total_deadline_misses
            &&& r.h_deadline_miss_count == h_miss_runs(runs, n_runs as int)
            &&& n_runs > 0 ==> r.first_run_events@ == runs[0].events@ && r.first_run_tick_runner@ == runs[0].tick_runner@
        },
{
    let ghost mut runs: Seq<SingleRunResult> = Seq::empty();
    let mut h_inversion_durations: Vec<Option<u32>> = Vec::new();
    let mut h_response_times: Vec<Option<u32>> = Vec::new();
    let mut total_deadline_misses: Vec<u32> = Vec::new();
    let mut first_run_events: Vec<Event> = Vec::new();
    let mut first_run_tick_runner: Vec<Option<usize>> = Vec::new();
    let mut h_deadline_miss_count: u32 = 0;
    let mut i: usize = 0;
    while i < n_runs
        invariant
            i <= n_runs,
            n_runs <= u32::MAX,
            sim_duration < 0x2000_0000,
            h_inversion_durations@.len() == i,
            h_response_times@.len() == i,
            total_deadline_misses@.len() == i,
            h_deadline_miss_count <= i,
            i > 0 ==> first_run_tick_runner@.len() == sim_duration,
            i > 0 ==> h_inversion_durations@[0] == inversion_duration(first_run_events@, 1),
            i == 0 ==> first_run_events@.len() == 0 && first_run_tick_runner@.len() == 0,
            runs.len() == i,
            forall|k: int| 0 <= k < i ==> #[trigger] single_run(pi_enabled, sim_duration, runs[k]),
            forall|k: int| 0 <= k < i ==> h_inversion_durations@[k] == (#[trigger] runs[k]).h_inversion_duration
                && h_response_times@[k] == runs[k].h_response_time
                && total_deadline_misses@[k] == runs[k].total_deadline_misses,
            h_deadline_miss_count == h_miss_runs(runs, i as int),
            i > 0 ==> first_run_events@ == runs[0].events@ && first_run_tick_runner@ == runs[0].tick_runner@,
        decreases n_runs - i,
    {
        let result = run_single(pi_enabled, sim_duration);
        let ghost r0 = result;
        let ghost runs0 = runs;
        proof {
            runs = runs.push(r0);
            assert(h_miss_runs(runs, i as int) == h_miss_runs(runs0, i as int)) by {
                lemma_h_miss_runs_prefix(runs0, runs, i as int);
            }
        }
        let SingleRunResult {
            h_inversion_duration,
            h_response_time,
            h_deadline_missed,
            total_deadline_misses: misses,
            events,
            tick_runner,
            ..
        } = result;
        if i == 0 {
            first_run_events = events;
            first_run_tick_runner = tick_runner;
        }
        h_inversion_durations.push(h_inversion_duration);
        h_response_times.push(h_response_time);
        total_deadline_misses.push(misses);
        if h_deadline_missed {
            h_deadline_miss_count = h_deadline_miss_count + 1;
        }
        proof {
            assert forall|k: int| 0 <= k < i + 1 implies #[trigger] single_run(pi_enabled, sim_duration, runs[k]) by {
                if k < i {
                    assert(runs[k] == runs0[k]);
                }
            }
            assert forall|k: int| 0 <= k < i + 1 implies h_inversion_durations@[k] == (#[trigger] runs[k]).h_inversion_duration
                && h_response_times@[k] == runs[k].h_response_time
                && total_deadline_misses@[k] == runs[k].total_deadline_misses by {
                if k < i {
                    assert(runs[k] == runs0[k]);
                }
            }
        }
        i = i + 1;
    }
    BatchResult {
        pi_enabled,
        n_runs,
        h_inversion_durations,
        h_response_times,
        h_deadline_miss_count,
        total_deadline_misses,
        first_run_events,
        first_run_tick_runner,
    }
}

} // verus!
