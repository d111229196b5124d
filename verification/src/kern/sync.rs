use vstd::prelude::*;
use std::collections::VecDeque;

verus! {

/// A blocking mutex: a lock flag and the threads waiting for it, in
/// arrival order.
pub struct Mutex {
    locked: bool,
    wait_queue: VecDeque<usize>,
}

impl Mutex {
    /// Whether the mutex is held.
    pub closed spec fn is_locked(&self) -> bool {
        self.locked
    }

    /// The waiting thread ids, first to be woken first.
    pub closed spec fn waiters(&self) -> Seq<usize> {
        self.wait_queue@
    }

    /// A free mutex with no waiters.
    pub fn new() -> (m: Self)
        ensures
            !m.is_locked(),
            m.waiters() == Seq::<usize>::empty(),
    {
        Mutex { locked: false, wait_queue: VecDeque::new() }
    }

    /// Takes the mutex if it is free; whether it was taken.
    pub fn lock(&mut self) -> (b: bool)
        ensures
            b == !old(self).is_locked(),
            final(self).is_locked(),
            final(self).waiters() == old(self).waiters(),
    {
        if !self.locked {
            self.locked = true;
            true
        } else {
            false
        }
    }

    /// Hands the mutex to the first waiter and returns it; with no waiter,
    /// frees the mutex.
    pub fn unlock(&mut self) -> (next: Option<usize>)
        ensures
            old(self).waiters().len() > 0 ==> next == Some(old(self).waiters()[0])
                && final(self).waiters() == old(self).waiters().drop_first()
                && final(self).is_locked() == old(self).is_locked(),
            old(self).waiters().len() == 0 ==> next is None && !final(self).is_locked()
                && final(self).waiters() == old(self).waiters(),
    {
        match self.wait_queue.pop_front() {
            Some(tid) => Some(tid),
            None => {
                self.locked = false;
                None
            },
        }
    }

    /// Queues thread `tid` for the mutex.
    pub fn add_waiter(&mut self, tid: usize)
        ensures
            final(self).waiters() == old(self).waiters().push(tid),
            final(self).is_locked() == old(self).is_locked(),
    {
        self.wait_queue.push_back(tid);
    }
}

/// A mutex as the system call layer holds it.
pub struct MutexBlocking {
    pub mutex: Mutex,
}

impl MutexBlocking {
    /// A free mutex with no waiters.
    pub fn new() -> (m: Self)
        ensures
            !m.mutex.is_locked(),
            m.mutex.waiters() == Seq::<usize>::empty(),
    {
        MutexBlocking { mutex: Mutex::new() }
    }
}

/// A counting semaphore with the threads waiting on it.
pub struct Semaphore {
    count: isize,
    wait_queue: VecDeque<usize>,
}

impl Semaphore {
    /// The count: when negative, minus the number of threads that had to
    /// block.
    pub closed spec fn spec_count(&self) -> isize {
        self.count
    }

    /// The waiting thread ids, first to be woken first.
    pub closed spec fn waiters(&self) -> Seq<usize> {
        self.wait_queue@
    }

    /// A semaphore with `count` permits.
    pub fn new(count: usize) -> (s: Self)
        requires
            count <= isize::MAX,
        ensures
            s.spec_count() == count,
            s.waiters() == Seq::<usize>::empty(),
    {
        Semaphore { count: count as isize, wait_queue: VecDeque::new() }
    }

    /// Takes a permit; whether one was there (else the caller blocks).
    pub fn down(&mut self) -> (b: bool)
        requires
            old(self).spec_count() > isize::MIN,
        ensures
            final(self).spec_count() == old(self).spec_count() - 1,
            b == (final(self).spec_count() >= 0),
            final(self).waiters() == old(self).waiters(),
    {
        self.count = self.count - 1;
        self.count >= 0
    }

    /// Queues thread `tid` on the semaphore.
    pub fn add_waiter(&mut self, tid: usize)
        ensures
            final(self).waiters() == old(self).waiters().push(tid),
            final(self).spec_count() == old(self).spec_count(),
    {
        self.wait_queue.push_back(tid);
    }

    /// Returns a permit and hands back the first waiter to wake, if any.
    pub fn up(&mut self) -> (next: Option<usize>)
        requires
            old(self).spec_count() < isize::MAX,
        ensures
            final(self).spec_count() == old(self).spec_count() + 1,
            old(self).waiters().len() > 0 ==> next == Some(old(self).waiters()[0])
                && final(self).waiters() == old(self).waiters().drop_first(),
            old(self).waiters().len() == 0 ==> next is None && final(self).waiters() == old(self).waiters(),
    {
        self.count = self.count + 1;
        self.wait_queue.pop_front()
    }
}

} // verus!
