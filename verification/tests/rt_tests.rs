use oslab::rt::event::{Event, EventType};
use oslab::rt::experiment::{build_tasks, run_batch, run_single};
use oslab::rt::kernel::Kernel;
use oslab::rt::mutex::PiMutex;
use oslab::rt::scheduler::EdfScheduler;
use oslab::rt::task::{Segment, Task, TaskState};

fn task(id: usize, name: &str, prio: u32, period: u32, segs: Vec<Segment>, first: u32) -> Task {
    Task::new(id, name, prio, period, period, segs, first)
}

#[test]
fn task_jobs_and_segments() {
    let mut t = task(0, "L", 3, 200, vec![
        Segment::Compute(5),
        Segment::CriticalSection { duration: 20, mutex_id: 0 },
        Segment::Compute(15),
    ], 0);
    assert_eq!(t.wcet(), 40);
    assert_eq!(t.state, TaskState::Suspended);
    t.release_job(0);
    assert_eq!(t.state, TaskState::Ready);
    assert_eq!(t.absolute_deadline, 200);
    assert_eq!(t.effective_deadline, 200);
    assert_eq!(t.segment_remaining, 5);
    assert_eq!(t.next_release, 200);
    assert_eq!(t.current_segment_mutex(), None);
    assert_eq!(t.advance_to_next_segment(), Some(Segment::CriticalSection { duration: 20, mutex_id: 0 }));
    assert_eq!(t.current_segment_mutex(), Some(0));
    assert_eq!(t.segment_remaining, 20);
    assert_eq!(t.advance_to_next_segment(), Some(Segment::Compute(15)));
    assert!(!t.is_job_complete());
    assert_eq!(t.advance_to_next_segment(), None);
    assert!(t.is_job_complete());
    assert_eq!(TaskState::Blocked.name(), "BLOCKED");
}

#[test]
fn edf_picks_the_earliest_deadline_then_the_priority() {
    let mut ts = vec![
        task(0, "a", 3, 100, vec![Segment::Compute(1)], 0),
        task(1, "b", 1, 50, vec![Segment::Compute(1)], 0),
        task(2, "c", 2, 50, vec![Segment::Compute(1)], 0),
    ];
    assert_eq!(EdfScheduler::pick_next(&ts), None);
    for t in ts.iter_mut() {
        t.release_job(0);
    }
    assert_eq!(EdfScheduler::pick_next(&ts), Some(1));
    ts[1].state = TaskState::Blocked;
    assert_eq!(EdfScheduler::pick_next(&ts), Some(2));
    ts[2].effective_deadline = 500;
    assert_eq!(EdfScheduler::pick_next(&ts), Some(0));
}

#[test]
fn inheritance_lends_the_waiters_deadline_and_unlock_returns_it() {
    let mut tasks = vec![
        task(0, "L", 3, 200, vec![Segment::CriticalSection { duration: 5, mutex_id: 0 }], 0),
        task(1, "H", 1, 60, vec![Segment::CriticalSection { duration: 5, mutex_id: 0 }], 0),
    ];
    tasks[0].release_job(0);
    tasks[1].release_job(0);
    let mut events: Vec<Event> = Vec::new();
    let mut m = PiMutex::new(0, true);
    assert!(m.try_lock(0, &mut tasks, &mut events, 1));
    assert_eq!(m.owner, Some(0));
    assert!(!m.try_lock(1, &mut tasks, &mut events, 2));
    assert_eq!(tasks[1].state, TaskState::Blocked);
    assert_eq!(m.wait_queue, vec![1]);
    assert_eq!(tasks[0].effective_deadline, 60);
    assert_eq!(m.unlock(1, &mut tasks, &mut events, 3), None);
    assert_eq!(m.unlock(0, &mut tasks, &mut events, 4), Some(1));
    assert_eq!(tasks[0].effective_deadline, 200);
    assert_eq!(m.owner, Some(1));
    assert_eq!(tasks[1].state, TaskState::Ready);
    assert!(events.contains(&Event::new(2, 1, EventType::Blocked(0))));
}

#[test]
fn without_inheritance_the_owner_keeps_its_deadline() {
    let mut tasks = vec![
        task(0, "L", 3, 200, vec![Segment::CriticalSection { duration: 5, mutex_id: 0 }], 0),
        task(1, "H", 1, 60, vec![Segment::CriticalSection { duration: 5, mutex_id: 0 }], 0),
    ];
    tasks[0].release_job(0);
    tasks[1].release_job(0);
    let mut events: Vec<Event> = Vec::new();
    let mut m = PiMutex::new(0, false);
    assert!(m.try_lock(0, &mut tasks, &mut events, 1));
    assert!(!m.try_lock(1, &mut tasks, &mut events, 2));
    assert_eq!(tasks[0].effective_deadline, 200);
}

#[test]
fn kernel_records_one_runner_per_tick() {
    let tasks = build_tasks();
    assert_eq!(tasks.len(), 3);
    assert_eq!(tasks[1].name, "H");
    let mut k = Kernel::new(tasks, vec![PiMutex::new(0, true)], 100);
    k.run();
    assert_eq!(k.current_time, 100);
    assert_eq!(k.tick_runner.len(), 100);
    assert_eq!(k.task_name(2), "M");
    // L runs first: it is the only task released at time 0.
    assert_eq!(k.tick_runner[0], Some(0));
}

#[test]
fn inheritance_shortens_the_high_priority_inversion() {
    let off = run_single(false, 200);
    let on = run_single(true, 200);
    assert!(!off.pi_enabled && on.pi_enabled);
    assert_eq!(off.tick_runner.len(), 200);
    let d_off = off.h_inversion_duration.unwrap();
    let d_on = on.h_inversion_duration.unwrap();
    assert!(d_on < d_off);
    assert_eq!(on.per_task_misses[0].0, "L");
    assert_eq!(on.per_task_misses[1].0, "H");
}

#[test]
fn a_batch_repeats_the_deterministic_run() {
    let b = run_batch(3, true, 150);
    let single = run_single(true, 150);
    assert_eq!(b.n_runs, 3);
    assert_eq!(b.h_inversion_durations, vec![single.h_inversion_duration; 3]);
    assert_eq!(b.h_response_times, vec![single.h_response_time; 3]);
    assert_eq!(b.first_run_tick_runner, single.tick_runner);
}

#[test]
fn two_ticks_of_a_single_task() {
    let t = Task::new(0, "A", 1, 10, 10, vec![Segment::Compute(3)], 0);
    let mut k = Kernel::new(vec![t], vec![], 2);
    k.run();
    assert_eq!(k.tick_runner, vec![Some(0), Some(0)]);
    assert_eq!(k.tasks[0].state, TaskState::Running);
    assert_eq!(k.tasks[0].segment_remaining, 1);
    assert_eq!(k.tasks[0].jobs_completed, 0);
    let kinds: Vec<(EventType, u32)> = k.events.iter().map(|e| (e.event_type, e.time)).collect();
    assert_eq!(kinds, vec![(EventType::Released, 0), (EventType::Scheduled, 0), (EventType::Scheduled, 1)]);
}
