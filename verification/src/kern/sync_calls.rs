use vstd::prelude::*;
use crate::kern::sync::{MutexBlocking, Semaphore};
use crate::kern::sched::{Harts, QueuedTask, Schedulers};
use crate::kern::task::{ProcessInner, ThreadInfo, ThreadStatus, unblock_task};

verus! {

/// The mutexes and semaphores that system calls create, by id.
pub struct SyncTables {
    mutexes: Vec<MutexBlocking>,
    sems: Vec<Semaphore>,
}

impl SyncTables {
    /// The mutexes, as lock flag and waiters.
    pub closed spec fn mutex_states(&self) -> Seq<(bool, Seq<usize>)> {
        Seq::new(self.mutexes@.len(), |i: int| (self.mutexes@[i].mutex.is_locked(), self.mutexes@[i].mutex.waiters()))
    }

    /// The semaphores, as count and waiters.
    pub closed spec fn sem_states(&self) -> Seq<(isize, Seq<usize>)> {
        Seq::new(self.sems@.len(), |i: int| (self.sems@[i].spec_count(), self.sems@[i].waiters()))
    }

    /// No mutex, no semaphore.
    pub fn new() -> (t: Self)
        ensures
            t.mutex_states() == Seq::<(bool, Seq<usize>)>::empty(),
            t.sem_states() == Seq::<(isize, Seq<usize>)>::empty(),
    {
        let t = SyncTables { mutexes: Vec::new(), sems: Vec::new() };
        assert(t.mutex_states() =~= Seq::<(bool, Seq<usize>)>::empty());
        assert(t.sem_states() =~= Seq::<(isize, Seq<usize>)>::empty());
        t
    }
}

/// Creates a free mutex and returns its id.
pub fn sys_mutex_create(t: &mut SyncTables) -> (id: isize)
    requires
        old(t).mutex_states().len() < isize::MAX,
    ensures
        id == old(t).mutex_states().len(),
        final(t).mutex_states() == old(t).mutex_states().push((false, Seq::<usize>::empty())),
        final(t).sem_states() == old(t).sem_states(),
{
    let id = t.mutexes.len();
    t.mutexes.push(MutexBlocking::new());
    assert(t.mutex_states() =~= old(t).mutex_states().push((false, Seq::<usize>::empty())));
    assert(t.sem_states() =~= old(t).sem_states());
    id as isize
}

/// Locks mutex `id` for thread `tid`: -1 for no such mutex; else 0, and
/// whether the thread must block (the mutex was held: the thread is
/// queued).
pub fn sys_mutex_lock(t: &mut SyncTables, id: usize, tid: usize) -> (r: (isize, bool))
    ensures
        final(t).sem_states() == old(t).sem_states(),
        id >= old(t).mutex_states().len() ==> r == (-1isize, false) && final(t).mutex_states() == old(t).mutex_states(),
        id < old(t).mutex_states().len() ==> {
            let (locked, waiters) = old(t).mutex_states()[id as int];
            &&& r == (0isize, locked)
            &&& final(t).mutex_states() == old(t).mutex_states().update(id as int, (true, if locked { waiters.push(tid) } else { waiters }))
        },
{
    if id >= t.mutexes.len() {
        return (-1, false);
    }
    let mut m = MutexBlocking::new();
    t.mutexes.set_and_swap(id, &mut m);
    let got = m.mutex.lock();
    if !got {
        m.mutex.add_waiter(tid);
    }
    t.mutexes.set_and_swap(id, &mut m);
    assert(t.mutex_states() =~= old(t).mutex_states().update(id as int, (true, if got { old(t).mutex_states()[id as int].1 } else { old(t).mutex_states()[id as int].1.push(tid) })));
    assert(t.sem_states() =~= old(t).sem_states());
    (0, !got)
}

/// Unlocks mutex `id`: -1 for no such mutex; else 0 and the waiter that
/// now holds it, if any.
pub fn sys_mutex_unlock(t: &mut SyncTables, id: usize) -> (r: (isize, Option<usize>))
    ensures
        final(t).sem_states() == old(t).sem_states(),
        id >= old(t).mutex_states().len() ==> r == (-1isize, None::<usize>) && final(t).mutex_states() == old(t).mutex_states(),
        id < old(t).mutex_states().len() ==> {
            let (locked, waiters) = old(t).mutex_states()[id as int];
            if waiters.len() > 0 {
                r == (0isize, Some(waiters[0])) && final(t).mutex_states() == old(t).mutex_states().update(id as int, (locked, waiters.drop_first()))
            } else {
                r == (0isize, None::<usize>) && final(t).mutex_states() == old(t).mutex_states().update(id as int, (false, waiters))
            }
        },
{
    if id >= t.mutexes.len() {
        return (-1, None);
    }
    let mut m = MutexBlocking::new();
    t.mutexes.set_and_swap(id, &mut m);
    let next = m.mutex.unlock();
    let ghost ms = (m.mutex.is_locked(), m.mutex.waiters());
    t.mutexes.set_and_swap(id, &mut m);
    assert(t.mutex_states() =~= old(t).mutex_states().update(id as int, ms));
    assert(t.sem_states() =~= old(t).sem_states());
    (0, next)
}

/// Unlocks mutex `id` (see `sys_mutex_unlock`) and wakes the waiter that
/// now holds it: its thread in `inner`, of process `pid`, is ready again
/// and queued (see `unblock_task`). A waiter with no thread there is left
/// alone. -1 for no such mutex, else 0.
pub fn sys_mutex_unlock_wake(
    t: &mut SyncTables,
    id: usize,
    inner: &mut ProcessInner,
    pid: usize,
    s: &mut Schedulers,
    harts: &Harts,
) -> (r: isize)
    requires
        old(s).wf(),
        harts.wf(),
        old(s).all_pending().len() < usize::MAX,
    ensures
        final(t).sem_states() == old(t).sem_states(),
        final(s).wf(),
        final(inner).children == old(inner).children,
        final(inner).next_user_stack_top == old(inner).next_user_stack_top,
        id >= old(t).mutex_states().len() ==> r == -1 && final(t).mutex_states() == old(t).mutex_states()
            && final(inner).threads@ == old(inner).threads@ && *final(s) == *old(s),
        id < old(t).mutex_states().len() ==> r == 0 && {
            let (locked, waiters) = old(t).mutex_states()[id as int];
            if waiters.len() > 0 {
                let w = waiters[0];
                &&& final(t).mutex_states() == old(t).mutex_states().update(id as int, (locked, waiters.drop_first()))
                &&& if w < old(inner).threads@.len() && old(inner).threads@[w as int] is Some {
                    let th = old(inner).threads@[w as int]->0;
                    &&& final(inner).threads@ == old(inner).threads@.update(w as int, Some(ThreadInfo { status: ThreadStatus::Ready, ..th }))
                    &&& final(s).all_pending() == old(s).all_pending().insert(QueuedTask { pid, tid: th.tid })
                    &&& final(s).active == old(s).active
                } else {
                    final(inner).threads@ == old(inner).threads@ && *final(s) == *old(s)
                }
            } else {
                &&& final(t).mutex_states() == old(t).mutex_states().update(id as int, (false, waiters))
                &&& final(inner).threads@ == old(inner).threads@
                &&& *final(s) == *old(s)
            }
        },
{
    let (r, next) = sys_mutex_unlock(t, id);
    if let Some(w) = next {
        if w < inner.threads.len() {
            let mut slot: Option<ThreadInfo> = None;
            inner.threads.set_and_swap(w, &mut slot);
            match slot {
                Some(mut th) => {
                    unblock_task(&mut th, pid, s, harts);
                    let mut back = Some(th);
                    inner.threads.set_and_swap(w, &mut back);
                    proof {
                        assert(inner.threads@ =~= old(inner).threads@.update(w as int, Some(ThreadInfo { status: ThreadStatus::Ready, ..old(inner).threads@[w as int]->0 })));
                    }
                },
                None => {
                    inner.threads.set_and_swap(w, &mut slot);
                    proof {
                        assert(inner.threads@ =~= old(inner).threads@);
                    }
                },
            }
        }
    }
    r
}

/// Creates a semaphore with `count` permits and returns its id.
pub fn sys_semaphore_create(t: &mut SyncTables, count: usize) -> (id: isize)
    requires
        old(t).sem_states().len() < isize::MAX,
        count <= isize::MAX,
    ensures
        id == old(t).sem_states().len(),
        final(t).sem_states() == old(t).sem_states().push((count as isize, Seq::<usize>::empty())),
        final(t).mutex_states() == old(t).mutex_states(),
{
    let id = t.sems.len();
    t.sems.push(Semaphore::new(count));
    assert(t.sem_states() =~= old(t).sem_states().push((count as isize, Seq::<usize>::empty())));
    assert(t.mutex_states() =~= old(t).mutex_states());
    id as isize
}

/// Releases a permit of semaphore `id`: -1 for no such semaphore; else 0
/// and the first waiter to wake, if any.
pub fn sys_semaphore_up(t: &mut SyncTables, id: usize) -> (r: (isize, Option<usize>))
    requires
        id < old(t).sem_states().len() ==> old(t).sem_states()[id as int].0 < isize::MAX,
    ensures
        final(t).mutex_states() == old(t).mutex_states(),
        id >= old(t).sem_states().len() ==> r == (-1isize, None::<usize>) && final(t).sem_states() == old(t).sem_states(),
        id < old(t).sem_states().len() ==> {
            let (count, waiters) = old(t).sem_states()[id as int];
            if waiters.len() > 0 {
                r == (0isize, Some(waiters[0])) && final(t).sem_states() == old(t).sem_states().update(id as int, ((count + 1) as isize, waiters.drop_first()))
            } else {
                r == (0isize, None::<usize>) && final(t).sem_states() == old(t).sem_states().update(id as int, ((count + 1) as isize, waiters))
            }
        },
{
    if id >= t.sems.len() {
        return (-1, None);
    }
    let mut s = Semaphore::new(0);
    t.sems.set_and_swap(id, &mut s);
    let next = s.up();
    let ghost ss = (s.spec_count(), s.waiters());
    t.sems.set_and_swap(id, &mut s);
    assert(t.sem_states() =~= old(t).sem_states().update(id as int, ss));
    assert(t.mutex_states() =~= old(t).mutex_states());
    (0, next)
}

/// Takes a permit of semaphore `id`: -1 for no such semaphore; else 0,
/// and whether the caller must block (no permit was left).
pub fn sys_semaphore_down(t: &mut SyncTables, id: usize) -> (r: (isize, bool))
    requires
        id < old(t).sem_states().len() ==> old(t).sem_states()[id as int].0 > isize::MIN,
    ensures
        final(t).mutex_states() == old(t).mutex_states(),
        id >= old(t).sem_states().len() ==> r == (-1isize, false) && final(t).sem_states() == old(t).sem_states(),
        id < old(t).sem_states().len() ==> {
            let (count, waiters) = old(t).sem_states()[id as int];
            &&& r == (0isize, count - 1 < 0)
            &&& final(t).sem_states() == old(t).sem_states().update(id as int, ((count - 1) as isize, waiters))
        },
{
    if id >= t.sems.len() {
        return (-1, false);
    }
    let mut s = Semaphore::new(0);
    t.sems.set_and_swap(id, &mut s);
    let got = s.down();
    let ghost ss = (s.spec_count(), s.waiters());
    t.sems.set_and_swap(id, &mut s);
    assert(t.sem_states() =~= old(t).sem_states().update(id as int, ss));
    assert(t.mutex_states() =~= old(t).mutex_states());
    (0, !got)
}

} // verus!
