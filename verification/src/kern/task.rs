use vstd::prelude::*;
use crate::kern::config::{PAGE_SIZE, USER_STACK_SIZE};
use crate::kern::proc::{ProcInfo, ProcessTable, find_process, remove_process};
use crate::kern::sched::{Harts, QueuedTask, Schedulers, add_task};
use crate::kern::context::{TrapContext, user_sstatus};
use crate::kern::elf::{ElfSegment, elf_loadable};
use crate::kern::mm::{Frames, KernelLayout, MemorySet, elf_space};

verus! {

/// Where a thread stands.
#[derive(Clone, Copy, Debug, PartialEq, Eq, Structural)]
pub enum ThreadStatus {
    Ready,
    /// Running on the hart with this id.
    Running(usize),
    Blocked,
    Exited,
}

/// What a process keeps of one of its threads.
#[derive(Clone, Copy, Debug)]
pub struct ThreadInfo {
    pub tid: usize,
    pub status: ThreadStatus,
    pub exit_code: Option<i32>,
}

/// A thread that was just made: ready, not exited.
pub open spec fn fresh_thread(t: ThreadInfo, tid: usize) -> bool {
    t.tid == tid && t.status == ThreadStatus::Ready && t.exit_code is None
}

/// The per-process state that exiting, waiting and thread creation work
/// on: the pids of the children, the thread slots by tid (`None` once a
/// thread is gone) and the top of the next thread's user stack.
pub struct ProcessInner {
    pub children: Vec<usize>,
    pub threads: Vec<Option<ThreadInfo>>,
    pub next_user_stack_top: usize,
}

/// Every thread slot is empty.
pub open spec fn all_gone(threads: Seq<Option<ThreadInfo>>) -> bool {
    forall|i: int| 0 <= i < threads.len() ==> #[trigger] threads[i] is None
}

/// The state of a new process whose main thread starts with user stack
/// `user_sp`: one ready thread (tid 0), no children, and the next stack
/// above a guard page.
pub fn new_process_inner(user_sp: usize) -> (p: ProcessInner)
    requires
        user_sp + PAGE_SIZE + USER_STACK_SIZE <= usize::MAX,
    ensures
        p.children@ == Seq::<usize>::empty(),
        p.threads@.len() == 1,
        p.threads@[0] matches Some(t) && fresh_thread(t, 0),
        p.next_user_stack_top == user_sp + PAGE_SIZE + USER_STACK_SIZE,
{
    let mut threads: Vec<Option<ThreadInfo>> = Vec::new();
    threads.push(Some(ThreadInfo { tid: 0, status: ThreadStatus::Ready, exit_code: None }));
    ProcessInner { children: Vec::new(), threads, next_user_stack_top: user_sp + PAGE_SIZE + USER_STACK_SIZE }
}

/// Forks the process bookkeeping: the child, with pid `child_pid`, has one
/// ready thread and no children, takes over the signal mask (with nothing
/// pending) and the next stack top; the parent records the child.
pub fn fork_process_inner(parent: &mut ProcessInner, parent_info: &ProcInfo, child_pid: usize) -> (r: (ProcessInner, ProcInfo))
    ensures
        final(parent).children@ == old(parent).children@.push(child_pid),
        final(parent).threads@ == old(parent).threads@,
        final(parent).next_user_stack_top == old(parent).next_user_stack_top,
        r.0.children@ == Seq::<usize>::empty(),
        r.0.threads@.len() == 1,
        r.0.threads@[0] matches Some(t) && fresh_thread(t, 0),
        r.0.next_user_stack_top == old(parent).next_user_stack_top,
        r.1 == (ProcInfo {
            pid: child_pid,
            is_zombie: false,
            exit_code: 0,
            signal_pending: 0,
            signal_mask: parent_info.signal_mask,
        }),
{
    let mut threads: Vec<Option<ThreadInfo>> = Vec::new();
    threads.push(Some(ThreadInfo { tid: 0, status: ThreadStatus::Ready, exit_code: None }));
    let child = ProcessInner { children: Vec::new(), threads, next_user_stack_top: parent.next_user_stack_top };
    let info = ProcInfo {
        pid: child_pid,
        is_zombie: false,
        exit_code: 0,
        signal_pending: 0,
        signal_mask: parent_info.signal_mask,
    };
    parent.children.push(child_pid);
    (child, info)
}

/// Replacing the program clears the pending signals.
pub fn exec_reset(info: &mut ProcInfo)
    ensures
        *final(info) == (ProcInfo { signal_pending: 0, ..*old(info) }),
{
    info.signal_pending = 0;
}

/// Replaces the program of a process with the one of program headers
/// `segs` and entry point `entry`: a fresh user address space (see
/// `MemorySet::from_elf`), no signal pending, and the main thread's
/// context starting the program at `entry` on the new stack, entering the
/// kernel with table `kernel_satp`, stack `kernel_sp` and `trap_handler`
/// (`sstatus` is the status register's current value).
pub fn exec(
    info: &mut ProcInfo,
    segs: &Vec<ElfSegment>,
    entry: usize,
    layout: &KernelLayout,
    frames: &mut Frames,
    kernel_satp: usize,
    kernel_sp: usize,
    trap_handler: usize,
    sstatus: usize,
) -> (r: (MemorySet, TrapContext))
    requires
        old(frames).wf(),
        layout.wf(),
        elf_loadable(segs@, *layout, old(frames).allocator.available()),
    ensures
        *final(info) == (ProcInfo { signal_pending: 0, ..*old(info) }),
        elf_space(segs@, *layout, r.0, r.1.x@[2], *final(frames)),
        r.1.x@ == Seq::new(32, |i: int| if i == 2 { r.1.x@[2] } else { 0usize }),
        r.1.sstatus == user_sstatus(sstatus),
        r.1.sepc == entry,
        r.1.kernel_satp == kernel_satp,
        r.1.kernel_sp == kernel_sp,
        r.1.trap_handler == trap_handler,
        final(frames).wf(),
        final(frames).refcounts == old(frames).refcounts,
{
    let (ms, user_sp, entry_point) = MemorySet::from_elf(segs, entry, layout, frames);
    exec_reset(info);
    let cx = TrapContext::app_init_context(entry_point, user_sp, kernel_satp, kernel_sp, trap_handler, sstatus);
    proof {
        assert(elf_space(segs@, *layout, ms, user_sp, *frames));
        assert(cx.x@ == Seq::new(32, |i: int| if i == 2 { user_sp } else { 0usize }));
    }
    (ms, cx)
}

/// Thread `tid` exits with `exit_code`: its slot empties; when no thread
/// is left the process becomes a zombie with that exit code and forgets its
/// children. Returns whether the process became a zombie.
pub fn exit_current(info: &mut ProcInfo, inner: &mut ProcessInner, tid: usize, exit_code: i32) -> (zombie: bool)
    ensures
        final(inner).threads@ == (if tid < old(inner).threads@.len() {
            old(inner).threads@.update(tid as int, None)
        } else {
            old(inner).threads@
        }),
        final(inner).next_user_stack_top == old(inner).next_user_stack_top,
        zombie == all_gone(final(inner).threads@),
        zombie ==> *final(info) == (ProcInfo { is_zombie: true, exit_code, ..*old(info) })
            && final(inner).children@ == Seq::<usize>::empty(),
        !zombie ==> *final(info) == *old(info) && final(inner).children@ == old(inner).children@,
{
    if tid < inner.threads.len() {
        inner.threads.set(tid, None);
    }
    let mut i: usize = 0;
    let mut all = true;
    while i < inner.threads.len()
        invariant
            i <= inner.threads@.len(),
            all == (forall|j: int| 0 <= j < i ==> #[trigger] inner.threads@[j] is None),
        decreases inner.threads@.len() - i,
    {
        if inner.threads[i].is_some() {
            all = false;
        }
        i = i + 1;
    }
    if all {
        info.is_zombie = true;
        info.exit_code = exit_code;
        inner.children.clear();
    }
    all
}

/// What one round of `waitpid` finds.
#[derive(Clone, Copy, Debug, PartialEq, Eq, Structural)]
pub enum WaitOutcome {
    /// No child matches: the call returns -1.
    NoChild,
    /// The child `pid` had exited with `exit_code`; it is reaped.
    Reaped { pid: usize, exit_code: i32 },
    /// Matching children are all alive: yield and ask again.
    Pending,
}

/// Child pid `c` is one that `waitpid(pid)` waits for.
pub open spec fn wanted(pid: isize, c: usize) -> bool {
    pid == -1 || c == pid as usize
}

/// Child pid `c` has exited.
pub open spec fn exited(table: ProcessTable, c: usize) -> bool {
    table.get(c) matches Some(p) && p.is_zombie
}

/// The position in `children`, from `k` on, of the first child that
/// `waitpid(pid)` can reap.
pub open spec fn first_reapable(table: ProcessTable, children: Seq<usize>, pid: isize, k: int) -> Option<int>
    decreases children.len() - k,
{
    if k < 0 || k >= children.len() {
        None
    } else if wanted(pid, children[k]) && exited(table, children[k]) {
        Some(k)
    } else {
        first_reapable(table, children, pid, k + 1)
    }
}

/// `children` without its entry at position `k`.
pub open spec fn without_at(children: Seq<usize>, k: int) -> Seq<usize> {
    children.subrange(0, k) + children.subrange(k + 1, children.len() as int)
}

proof fn lemma_first_reapable(table: ProcessTable, children: Seq<usize>, pid: isize, k: int)
    requires
        0 <= k,
    ensures
        first_reapable(table, children, pid, k) matches Some(i) ==> k <= i < children.len()
            && wanted(pid, children[i]) && exited(table, children[i]),
        first_reapable(table, children, pid, k) is None ==> forall|j: int|
            k <= j < children.len() ==> !(wanted(pid, #[trigger] children[j]) && exited(table, children[j])),
    decreases children.len() - k,
{
    if k < children.len() {
        lemma_first_reapable(table, children, pid, k + 1);
    }
}

/// One round of `waitpid(pid)` (`-1`: any child): with no matching child,
/// `NoChild`; else the first matching child, in the order the children were
/// made, that has exited is reaped: it leaves `children` and the process
/// table. With none exited, `Pending`.
pub fn sys_waitpid(table: &mut ProcessTable, inner: &mut ProcessInner, pid: isize) -> (r: WaitOutcome)
    ensures
        final(inner).threads@ == old(inner).threads@,
        final(inner).next_user_stack_top == old(inner).next_user_stack_top,
        (r == WaitOutcome::NoChild) <==> (forall|j: int| 0 <= j < old(inner).children@.len() ==> !wanted(pid, #[trigger] old(inner).children@[j])),
        match first_reapable(*old(table), old(inner).children@, pid, 0) {
            Some(k) => {
                let c = old(inner).children@[k];
                &&& r == WaitOutcome::Reaped { pid: c, exit_code: old(table).get(c)->0.exit_code }
                &&& final(inner).children@ == without_at(old(inner).children@, k)
                &&& final(table).get(c) is None
                &&& forall|q: usize| q != c ==> #[trigger] final(table).get(q) == old(table).get(q)
            },
            None => {
                &&& (r == WaitOutcome::NoChild || r == WaitOutcome::Pending)
                &&& final(inner).children@ == old(inner).children@
                &&& forall|q: usize| #[trigger] final(table).get(q) == old(table).get(q)
            },
        },
{
    proof {
        lemma_first_reapable(*table, inner.children@, pid, 0);
    }
    let mut any = false;
    let mut i: usize = 0;
    while i < inner.children.len()
        invariant
            i <= inner.children@.len(),
            inner.children@ == old(inner).children@,
            inner.threads@ == old(inner).threads@,
            inner.next_user_stack_top == old(inner).next_user_stack_top,
            *table == *old(table),
            first_reapable(*table, inner.children@, pid, 0) == first_reapable(*table, inner.children@, pid, i as int),
            any == (exists|j: int| 0 <= j < i && wanted(pid, #[trigger] inner.children@[j])),
        decreases inner.children@.len() - i,
    {
        let c = inner.children[i];
        let matches = pid == -1 || c == pid as usize;
        if matches {
            any = true;
            match find_process(table, c) {
                Some(p) => {
                    if p.is_zombie {
                        let code = p.exit_code;
                        let ghost before = inner.children@;
                        inner.children.remove(i);
                        remove_process(table, c);
                        proof {
                            assert(inner.children@ =~= without_at(before, i as int));
                        }
                        return WaitOutcome::Reaped { pid: c, exit_code: code };
                    }
                },
                None => {},
            }
        }
        i = i + 1;
    }
    if any {
        WaitOutcome::Pending
    } else {
        WaitOutcome::NoChild
    }
}

/// Plans a new thread of the process: with `user_sp` 0 it gets the next
/// user stack (whose top is returned, and which the caller maps) and the
/// next one moves a guard page and a stack further; its tid is the number
/// of slots so far. Returns the tid and the thread's stack pointer.
pub fn sys_thread_create(inner: &mut ProcessInner, user_sp: usize) -> (r: (usize, usize))
    requires
        user_sp == 0 ==> old(inner).next_user_stack_top + PAGE_SIZE + USER_STACK_SIZE <= usize::MAX,
    ensures
        r.0 == old(inner).threads@.len(),
        final(inner).threads@.len() == old(inner).threads@.len() + 1,
        final(inner).threads@.drop_last() == old(inner).threads@,
        final(inner).threads@.last() matches Some(t) && fresh_thread(t, r.0),
        final(inner).children@ == old(inner).children@,
        user_sp == 0 ==> r.1 == old(inner).next_user_stack_top
            && final(inner).next_user_stack_top == old(inner).next_user_stack_top + PAGE_SIZE + USER_STACK_SIZE,
        user_sp != 0 ==> r.1 == user_sp && final(inner).next_user_stack_top == old(inner).next_user_stack_top,
{
    let sp = if user_sp == 0 {
        let top = inner.next_user_stack_top;
        inner.next_user_stack_top = top + PAGE_SIZE + USER_STACK_SIZE;
        top
    } else {
        user_sp
    };
    let tid = inner.threads.len();
    inner.threads.push(Some(ThreadInfo { tid, status: ThreadStatus::Ready, exit_code: None }));
    proof {
        assert(inner.threads@.drop_last() =~= old(inner).threads@);
    }
    (tid, sp)
}

/// What one round of `waittid` finds.
#[derive(Clone, Copy, Debug, PartialEq, Eq, Structural)]
pub enum WaitTid {
    /// No thread has that tid: -1.
    NoSuchThread,
    /// The thread is gone already: 0.
    Gone,
    /// The thread exited with this code; its slot is cleared.
    Exited(i32),
    /// The thread runs: yield and ask again.
    Pending,
}

/// One round of `waittid(tid)`.
pub fn sys_waittid(inner: &mut ProcessInner, tid: usize) -> (r: WaitTid)
    ensures
        final(inner).children@ == old(inner).children@,
        final(inner).next_user_stack_top == old(inner).next_user_stack_top,
        tid >= old(inner).threads@.len() ==> r == WaitTid::NoSuchThread && final(inner).threads@ == old(inner).threads@,
        tid < old(inner).threads@.len() ==> match old(inner).threads@[tid as int] {
            None => r == WaitTid::Gone && final(inner).threads@ == old(inner).threads@,
            Some(t) => match t.exit_code {
                Some(c) => r == WaitTid::Exited(c) && final(inner).threads@ == old(inner).threads@.update(tid as int, None),
                None => r == WaitTid::Pending && final(inner).threads@ == old(inner).threads@,
            },
        },
{
    if tid >= inner.threads.len() {
        return WaitTid::NoSuchThread;
    }
    match inner.threads[tid] {
        None => WaitTid::Gone,
        Some(t) => match t.exit_code {
            Some(c) => {
                inner.threads.set(tid, None);
                WaitTid::Exited(c)
            },
            None => WaitTid::Pending,
        },
    }
}

/// The pid of the calling process.
pub fn sys_getpid(info: &ProcInfo) -> (r: isize)
    requires
        info.pid <= isize::MAX,
    ensures
        r == info.pid,
{
    info.pid as isize
}

/// The tid of the calling thread.
pub fn sys_gettid(t: &ThreadInfo) -> (r: isize)
    requires
        t.tid <= isize::MAX,
    ensures
        r == t.tid,
{
    t.tid as isize
}

/// The calling thread gives up the hart: it is ready again.
pub fn suspend_thread(t: &mut ThreadInfo)
    ensures
        *final(t) == (ThreadInfo { status: ThreadStatus::Ready, ..*old(t) }),
{
    t.status = ThreadStatus::Ready;
}

/// The calling thread waits on a lock or a semaphore.
pub fn block_current_task(t: &mut ThreadInfo)
    ensures
        *final(t) == (ThreadInfo { status: ThreadStatus::Blocked, ..*old(t) }),
{
    t.status = ThreadStatus::Blocked;
}

/// A blocked thread `t` of process `pid` becomes ready and is queued.
pub fn unblock_task(t: &mut ThreadInfo, pid: usize, s: &mut Schedulers, harts: &Harts)
    requires
        old(s).wf(),
        harts.wf(),
        old(s).all_pending().len() < usize::MAX,
    ensures
        *final(t) == (ThreadInfo { status: ThreadStatus::Ready, ..*old(t) }),
        final(s).wf(),
        final(s).active == old(s).active,
        final(s).all_pending() == old(s).all_pending().insert(QueuedTask { pid, tid: old(t).tid }),
{
    t.status = ThreadStatus::Ready;
    add_task(s, QueuedTask { pid, tid: t.tid }, harts);
    proof {
        broadcast use vstd::multiset::group_multiset_axioms;
        assert(s.all_pending() =~= old(s).all_pending().insert(QueuedTask { pid, tid: old(t).tid }));
    }
}

} // verus!
