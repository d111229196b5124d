use vstd::prelude::*;

verus! {

/// What happened at a simulation tick.
#[derive(Debug, Clone, Copy, PartialEq, Eq, Structural)]
pub enum EventType {
    Released,
    Scheduled,
    Preempted,
    Blocked(usize),
    Unblocked(usize),
    MutexAcquired(usize),
    MutexReleased(usize),
    JobCompleted { response_time: u32 },
    DeadlineMissed { deadline: u32, completed_at: u32 },
    PriorityInherited { new_effective_deadline: u32 },
    PriorityRestored { original_deadline: u32 },
}

/// An event recorded during simulation.
#[derive(Debug, Clone, Copy, PartialEq, Eq, Structural)]
pub struct Event {
    pub time: u32,
    pub task_id: usize,
    pub event_type: EventType,
}

impl Event {
    pub fn new(time: u32, task_id: usize, event_type: EventType) -> (e: Self)
        ensures
            e == (Event { time, task_id, event_type }),
    {
        Event { time, task_id, event_type }
    }
}

} // verus!
