use vstd::prelude::*;
use crate::rt::task::{Task, TaskState};

verus! {

/// `a` is scheduled before `b` under EDF: earlier effective deadline, ties
/// broken by the lower base priority value.
pub open spec fn edf_before(a: Task, b: Task) -> bool {
    a.effective_deadline < b.effective_deadline || (a.effective_deadline
        == b.effective_deadline && a.base_priority < b.base_priority)
}

/// The EDF choice among `tasks`: the first ready task that no ready task
/// precedes.
pub open spec fn is_edf_choice(tasks: Seq<Task>, i: int) -> bool {
    &&& 0 <= i < tasks.len()
    &&& tasks[i].state == TaskState::Ready
    &&& forall|j: int|
        #![trigger tasks[j]]
        0 <= j < tasks.len() && tasks[j].state == TaskState::Ready ==> !edf_before(
            tasks[j],
            tasks[i],
        )
    &&& forall|j: int|
        #![trigger tasks[j]]
        0 <= j < i && tasks[j].state == TaskState::Ready ==> edf_before(
            tasks[i],
            tasks[j],
        )
}

pub open spec fn no_ready_task(tasks: Seq<Task>) -> bool {
    forall|j: int| 0 <= j < tasks.len() ==> #[trigger] tasks[j].state != TaskState::Ready
}

/// Earliest Deadline First (EDF) scheduler.
pub struct EdfScheduler;

impl EdfScheduler {
    /// Picks the ready task with the smallest effective deadline, ties
    /// broken by base priority, the first such task when several are equal.
    pub fn pick_next(tasks: &[Task]) -> (r: Option<usize>)
        ensures
            match r {
                None => no_ready_task(tasks@),
                Some(i) => is_edf_choice(tasks@, i as int),
            },
    {
        let mut best: Option<usize> = None;
        let mut i: usize = 0;
        while i < tasks.len()
            invariant
                i <= tasks.len(),
                best is None ==> forall|j: int|
                    0 <= j < i ==> #[trigger] tasks@[j].state != TaskState::Ready,
                best is Some ==> best->0 < i && tasks@[best->0 as int].state == TaskState::Ready,
                best is Some ==> forall|j: int|
                    #![trigger tasks@[j]]
                    0 <= j < i && tasks@[j].state == TaskState::Ready ==> !edf_before(
                        tasks@[j],
                        tasks@[best->0 as int],
                    ),
                best is Some ==> forall|j: int|
                    #![trigger tasks@[j]]
                    0 <= j < best->0 && tasks@[j].state == TaskState::Ready ==> edf_before(
                        tasks@[best->0 as int],
                        tasks@[j],
                    ),
            decreases tasks.len() - i,
        {
            let ready = tasks[i].state == TaskState::Ready;
            assert(ready == (tasks@[i as int].state == TaskState::Ready));
            if ready {
                match best {
                    None => {
                        best = Some(i);
                    },
                    Some(b) => {
                        let better = tasks[i].effective_deadline < tasks[b].effective_deadline
                            || (tasks[i].effective_deadline == tasks[b].effective_deadline
                                && tasks[i].base_priority < tasks[b].base_priority);
                        if better {
                            best = Some(i);
                        }
                    },
                }
            }
            proof {
                if best is Some {
                    assert(tasks@[i as int] == tasks@[i as int]);
                }
                if best is None {
                    assert forall|j: int| 0 <= j < i + 1 implies #[trigger] tasks@[j].state
                        != TaskState::Ready by {
                        if j < i {
                        } else {
                            assert(j == i);
                        }
                    }
                }
            }
            i = i + 1;
        }
        best
    }
}

} // verus!
