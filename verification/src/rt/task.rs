use vstd::prelude::*;

verus! {

/// Scheduling state of a task.
#[derive(Debug, Clone, Copy, PartialEq, Eq, Structural)]
pub enum TaskState {
    Suspended,
    Ready,
    Running,
    Blocked,
}

impl TaskState {
    /// The upper-case name used in printed traces.
    pub fn name(&self) -> (s: &'static str)
        ensures
            s@ == task_state_name(*self)@,
    {
        match self {
            TaskState::Suspended => "SUSPENDED",
            TaskState::Ready => "READY",
            TaskState::Running => "RUNNING",
            TaskState::Blocked => "BLOCKED",
        }
    }
}

pub open spec fn task_state_name(s: TaskState) -> &'static str {
    match s {
        TaskState::Suspended => "SUSPENDED",
        TaskState::Ready => "READY",
        TaskState::Running => "RUNNING",
        TaskState::Blocked => "BLOCKED",
    }
}

/// A segment of a job: plain computation, or a critical section that holds
/// a mutex for its whole duration.
#[derive(Debug, Clone, Copy, PartialEq, Eq, Structural)]
pub enum Segment {
    Compute(u32),
    CriticalSection { duration: u32, mutex_id: usize },
}

pub open spec fn seg_duration(s: Segment) -> u32 {
    match s {
        Segment::Compute(d) => d,
        Segment::CriticalSection { duration, .. } => duration,
    }
}

pub open spec fn seg_mutex(s: Segment) -> Option<usize> {
    match s {
        Segment::Compute(_) => None,
        Segment::CriticalSection { mutex_id, .. } => Some(mutex_id),
    }
}

/// Sum of the durations of `segs`.
pub open spec fn total_duration(segs: Seq<Segment>) -> nat
    decreases segs.len(),
{
    if segs.len() == 0 {
        0
    } else {
        total_duration(segs.drop_last()) + seg_duration(segs.last()) as nat
    }
}

pub proof fn lemma_total_duration_prefix(segs: Seq<Segment>, i: int)
    requires
        0 <= i <= segs.len(),
    ensures
        total_duration(segs.take(i)) <= total_duration(segs),
    decreases segs.len() - i,
{
    if i < segs.len() {
        lemma_total_duration_prefix(segs, i + 1);
        assert(segs.take(i + 1).drop_last() =~= segs.take(i));
    } else {
        assert(segs.take(i) =~= segs);
    }
}

fn segment_duration(s: &Segment) -> (d: u32)
    ensures
        d == seg_duration(*s),
{
    match s {
        Segment::Compute(d) => *d,
        Segment::CriticalSection { duration, .. } => *duration,
    }
}

/// A periodic real-time task together with the state of its current job.
#[derive(Debug, Clone)]
pub struct Task {
    pub id: usize,
    pub name: String,
    /// Static base priority; lower value = higher priority.
    pub base_priority: u32,
    pub period: u32,
    pub relative_deadline: u32,
    pub segments: Vec<Segment>,
    pub state: TaskState,
    pub absolute_deadline: u32,
    /// Deadline used by EDF; lowered by priority inheritance.
    pub effective_deadline: u32,
    pub next_release: u32,
    pub current_segment_idx: usize,
    pub segment_remaining: u32,
    pub held_mutex: Option<usize>,
    pub jobs_completed: u32,
    pub deadline_misses: u32,
    pub current_job_release: u32,
    pub response_times: Vec<u32>,
    pub blocked_at: Option<u32>,
}

impl Task {
    pub fn new(
        id: usize,
        name: &str,
        base_priority: u32,
        period: u32,
        relative_deadline: u32,
        segments: Vec<Segment>,
        first_release: u32,
    ) -> (t: Self)
        ensures
            t.id == id,
            t.name@ == name@,
            t.base_priority == base_priority,
            t.period == period,
            t.relative_deadline == relative_deadline,
            t.segments@ == segments@,
            t.state == TaskState::Suspended,
            t.absolute_deadline == u32::MAX,
            t.effective_deadline == u32::MAX,
            t.next_release == first_release,
            t.current_segment_idx == 0,
            t.segment_remaining == 0,
            t.held_mutex is None,
            t.jobs_completed == 0,
            t.deadline_misses == 0,
            t.current_job_release == 0,
            t.response_times@ == Seq::<u32>::empty(),
            t.blocked_at is None,
    {
        Task {
            id,
            name: name.to_owned(),
            base_priority,
            period,
            relative_deadline,
            segments,
            state: TaskState::Suspended,
            absolute_deadline: u32::MAX,
            effective_deadline: u32::MAX,
            next_release: first_release,
            current_segment_idx: 0,
            segment_remaining: 0,
            held_mutex: None,
            jobs_completed: 0,
            deadline_misses: 0,
            current_job_release: 0,
            response_times: Vec::new(),
            blocked_at: None,
        }
    }

    /// Worst-case execution time: the sum of all segment durations.
    pub fn wcet(&self) -> (w: u32)
        requires
            total_duration(self.segments@) <= u32::MAX,
        ensures
            w == total_duration(self.segments@),
    {
        let mut sum: u32 = 0;
        let mut i: usize = 0;
        while i < self.segments.len()
            invariant
                i <= self.segments.len(),
                total_duration(self.segments@) <= u32::MAX,
                sum == total_duration(self.segments@.take(i as int)),
            decreases self.segments.len() - i,
        {
            proof {
                assert(self.segments@.take(i + 1).drop_last() =~= self.segments@.take(i as int));
                lemma_total_duration_prefix(self.segments@, i + 1);
            }
            sum = sum + segment_duration(&self.segments[i]);
            i = i + 1;
        }
        proof {
            assert(self.segments@.take(i as int) =~= self.segments@);
        }
        sum
    }

    /// Releases a new job at `time`.
    pub fn release_job(&mut self, time: u32)
        requires
            old(self).segments.len() > 0,
            time + old(self).relative_deadline <= u32::MAX,
            old(self).next_release + old(self).period <= u32::MAX,
        ensures
            *final(self) == (Task {
                state: TaskState::Ready,
                absolute_deadline: (time + old(self).relative_deadline) as u32,
                effective_deadline: (time + old(self).relative_deadline) as u32,
                current_segment_idx: 0,
                segment_remaining: seg_duration(old(self).segments@[0]),
                held_mutex: None,
                current_job_release: time,
                blocked_at: None,
                next_release: (old(self).next_release + old(self).period) as u32,
                ..*old(self)
            }),
    {
        self.state = TaskState::Ready;
        self.absolute_deadline = time + self.relative_deadline;
        self.effective_deadline = self.absolute_deadline;
        self.current_segment_idx = 0;
        self.segment_remaining = segment_duration(&self.segments[0]);
        self.held_mutex = None;
        self.current_job_release = time;
        self.blocked_at = None;
        self.next_release = self.next_release + self.period;
    }

    /// True when every segment of the current job has been executed.
    pub fn is_job_complete(&self) -> (b: bool)
        ensures
            b == (self.current_segment_idx >= self.segments.len()),
    {
        self.current_segment_idx >= self.segments.len()
    }

    /// Moves to the next segment and returns it, or `None` when the job has
    /// no segment left.
    pub fn advance_to_next_segment(&mut self) -> (r: Option<Segment>)
        requires
            old(self).current_segment_idx < usize::MAX,
        ensures
            ({
                let idx = old(self).current_segment_idx + 1;
                if idx < old(self).segments.len() {
                    &&& r == Some(old(self).segments@[idx])
                    &&& *final(self) == (Task {
                        current_segment_idx: idx as usize,
                        segment_remaining: seg_duration(old(self).segments@[idx]),
                        ..*old(self)
                    })
                } else {
                    &&& r is None
                    &&& *final(self) == (Task { current_segment_idx: idx as usize, ..*old(self) })
                }
            }),
    {
        self.current_segment_idx = self.current_segment_idx + 1;
        if self.current_segment_idx < self.segments.len() {
            let segment = self.segments[self.current_segment_idx];
            self.segment_remaining = segment_duration(&segment);
            Some(segment)
        } else {
            None
        }
    }

    /// The mutex of the current segment, if it is a critical section.
    pub fn current_segment_mutex(&self) -> (r: Option<usize>)
        ensures
            r == (if self.current_segment_idx < self.segments.len() {
                seg_mutex(self.segments@[self.current_segment_idx as int])
            } else {
                None
            }),
    {
        if self.current_segment_idx < self.segments.len() {
            match &self.segments[self.current_segment_idx] {
                Segment::CriticalSection { mutex_id, .. } => Some(*mutex_id),
                _ => None,
            }
        } else {
            None
        }
    }
}

} // verus!
