use vstd::prelude::*;
use crate::kern::sched::{Harts, SchedulerType, Schedulers, set_scheduler, set_active_harts};

verus! {

pub const SYSCALL_READ: usize = 63;
pub const SYSCALL_WRITE: usize = 64;
pub const SYSCALL_EXIT: usize = 93;
pub const SYSCALL_YIELD: usize = 124;
pub const SYSCALL_GET_TIME: usize = 169;
pub const SYSCALL_GETPID: usize = 172;
pub const SYSCALL_FORK: usize = 220;
pub const SYSCALL_EXEC: usize = 221;
pub const SYSCALL_WAITPID: usize = 260;
pub const SYSCALL_THREAD_CREATE: usize = 1000;
pub const SYSCALL_GETTID: usize = 1001;
pub const SYSCALL_WAITTID: usize = 1002;
pub const SYSCALL_MUTEX_CREATE: usize = 1010;
pub const SYSCALL_MUTEX_LOCK: usize = 1011;
pub const SYSCALL_MUTEX_UNLOCK: usize = 1012;
pub const SYSCALL_SEMAPHORE_CREATE: usize = 1020;
pub const SYSCALL_SEMAPHORE_UP: usize = 1021;
pub const SYSCALL_SEMAPHORE_DOWN: usize = 1022;
pub const SYSCALL_SCHED_SET: usize = 1030;
pub const SYSCALL_HART_ID: usize = 1031;
pub const SYSCALL_KERNEL_STATS: usize = 1032;
pub const SYSCALL_KERNEL_IRQ_SET: usize = 1033;
pub const SYSCALL_ACTIVE_HARTS_SET: usize = 1034;
pub const SYSCALL_SIG_SEND: usize = 1040;
pub const SYSCALL_SIG_MASK: usize = 1041;
pub const SYSCALL_SIG_PENDING: usize = 1042;
pub const SYSCALL_OPEN: usize = 1050;
pub const SYSCALL_CLOSE: usize = 1051;
pub const SYSCALL_LSEEK: usize = 1052;
pub const SYSCALL_UNLINK: usize = 1053;
pub const SYSCALL_FSIZE: usize = 1054;

/// The system calls.
#[derive(Clone, Copy, Debug, PartialEq, Eq, Structural)]
pub enum Syscall {
    Read,
    Write,
    Exit,
    Yield,
    GetTime,
    GetPid,
    Fork,
    Exec,
    WaitPid,
    ThreadCreate,
    GetTid,
    WaitTid,
    MutexCreate,
    MutexLock,
    MutexUnlock,
    SemaphoreCreate,
    SemaphoreUp,
    SemaphoreDown,
    SchedSet,
    HartId,
    KernelStats,
    KernelIrqSet,
    ActiveHartsSet,
    SigSend,
    SigMask,
    SigPending,
    Open,
    Close,
    Lseek,
    Unlink,
    Fsize,
}

/// The number of each system call.
pub open spec fn syscall_number(c: Syscall) -> usize {
    match c {
        Syscall::Read => SYSCALL_READ,
        Syscall::Write => SYSCALL_WRITE,
        Syscall::Exit => SYSCALL_EXIT,
        Syscall::Yield => SYSCALL_YIELD,
        Syscall::GetTime => SYSCALL_GET_TIME,
        Syscall::GetPid => SYSCALL_GETPID,
        Syscall::Fork => SYSCALL_FORK,
        Syscall::Exec => SYSCALL_EXEC,
        Syscall::WaitPid => SYSCALL_WAITPID,
        Syscall::ThreadCreate => SYSCALL_THREAD_CREATE,
        Syscall::GetTid => SYSCALL_GETTID,
        Syscall::WaitTid => SYSCALL_WAITTID,
        Syscall::MutexCreate => SYSCALL_MUTEX_CREATE,
        Syscall::MutexLock => SYSCALL_MUTEX_LOCK,
        Syscall::MutexUnlock => SYSCALL_MUTEX_UNLOCK,
        Syscall::SemaphoreCreate => SYSCALL_SEMAPHORE_CREATE,
        Syscall::SemaphoreUp => SYSCALL_SEMAPHORE_UP,
        Syscall::SemaphoreDown => SYSCALL_SEMAPHORE_DOWN,
        Syscall::SchedSet => SYSCALL_SCHED_SET,
        Syscall::HartId => SYSCALL_HART_ID,
        Syscall::KernelStats => SYSCALL_KERNEL_STATS,
        Syscall::KernelIrqSet => SYSCALL_KERNEL_IRQ_SET,
        Syscall::ActiveHartsSet => SYSCALL_ACTIVE_HARTS_SET,
        Syscall::SigSend => SYSCALL_SIG_SEND,
        Syscall::SigMask => SYSCALL_SIG_MASK,
        Syscall::SigPending => SYSCALL_SIG_PENDING,
        Syscall::Open => SYSCALL_OPEN,
        Syscall::Close => SYSCALL_CLOSE,
        Syscall::Lseek => SYSCALL_LSEEK,
        Syscall::Unlink => SYSCALL_UNLINK,
        Syscall::Fsize => SYSCALL_FSIZE,
    }
}

/// The system call with number `id`; none for an unsupported number
/// (which the kernel answers with -1).
pub fn decode_syscall(id: usize) -> (r: Option<Syscall>)
    ensures
        match r {
            Some(c) => syscall_number(c) == id,
            None => forall|c: Syscall| syscall_number(c) != id,
        },
{
    if id == SYSCALL_READ {
        Some(Syscall::Read)
    } else if id == SYSCALL_WRITE {
        Some(Syscall::Write)
    } else if id == SYSCALL_OPEN {
        Some(Syscall::Open)
    } else if id == SYSCALL_CLOSE {
        Some(Syscall::Close)
    } else if id == SYSCALL_LSEEK {
        Some(Syscall::Lseek)
    } else if id == SYSCALL_UNLINK {
        Some(Syscall::Unlink)
    } else if id == SYSCALL_FSIZE {
        Some(Syscall::Fsize)
    } else if id == SYSCALL_EXIT {
        Some(Syscall::Exit)
    } else if id == SYSCALL_YIELD {
        Some(Syscall::Yield)
    } else if id == SYSCALL_GET_TIME {
        Some(Syscall::GetTime)
    } else if id == SYSCALL_GETPID {
        Some(Syscall::GetPid)
    } else if id == SYSCALL_FORK {
        Some(Syscall::Fork)
    } else if id == SYSCALL_EXEC {
        Some(Syscall::Exec)
    } else if id == SYSCALL_WAITPID {
        Some(Syscall::WaitPid)
    } else if id == SYSCALL_THREAD_CREATE {
        Some(Syscall::ThreadCreate)
    } else if id == SYSCALL_GETTID {
        Some(Syscall::GetTid)
    } else if id == SYSCALL_WAITTID {
        Some(Syscall::WaitTid)
    } else if id == SYSCALL_MUTEX_CREATE {
        Some(Syscall::MutexCreate)
    } else if id == SYSCALL_MUTEX_LOCK {
        Some(Syscall::MutexLock)
    } else if id == SYSCALL_MUTEX_UNLOCK {
        Some(Syscall::MutexUnlock)
    } else if id == SYSCALL_SEMAPHORE_CREATE {
        Some(Syscall::SemaphoreCreate)
    } else if id == SYSCALL_SEMAPHORE_UP {
        Some(Syscall::SemaphoreUp)
    } else if id == SYSCALL_SEMAPHORE_DOWN {
        Some(Syscall::SemaphoreDown)
    } else if id == SYSCALL_SCHED_SET {
        Some(Syscall::SchedSet)
    } else if id == SYSCALL_HART_ID {
        Some(Syscall::HartId)
    } else if id == SYSCALL_KERNEL_STATS {
        Some(Syscall::KernelStats)
    } else if id == SYSCALL_KERNEL_IRQ_SET {
        Some(Syscall::KernelIrqSet)
    } else if id == SYSCALL_ACTIVE_HARTS_SET {
        Some(Syscall::ActiveHartsSet)
    } else if id == SYSCALL_SIG_SEND {
        Some(Syscall::SigSend)
    } else if id == SYSCALL_SIG_MASK {
        Some(Syscall::SigMask)
    } else if id == SYSCALL_SIG_PENDING {
        Some(Syscall::SigPending)
    } else {
        None
    }
}

/// Switches the scheduler: 0 for the global round robin, 1 for per-hart
/// work stealing (see `set_scheduler`); -1 for another value.
pub fn sys_sched_set(s: &mut Schedulers, stype: usize, harts: &Harts) -> (r: isize)
    requires
        old(s).wf(),
        harts.wf(),
        old(s).all_pending().len() < usize::MAX,
    ensures
        final(s).wf(),
        final(s).all_pending() == old(s).all_pending(),
        r == (if stype <= 1 { 0isize } else { -1isize }),
        stype == 0 ==> final(s).active == SchedulerType::GlobalRoundRobin,
        stype == 1 ==> final(s).active == SchedulerType::PerCpuWorkStealing,
        stype > 1 ==> *final(s) == *old(s),
{
    if stype == 0 {
        set_scheduler(s, SchedulerType::GlobalRoundRobin, harts);
        0
    } else if stype == 1 {
        set_scheduler(s, SchedulerType::PerCpuWorkStealing, harts);
        0
    } else {
        -1
    }
}

/// Sets the number of active harts (see `set_active_harts`): 0 when
/// taken, else -1.
pub fn sys_active_harts_set(harts: &mut Harts, count: usize, caller_hart: usize) -> (r: isize)
    requires
        old(harts).wf(),
    ensures
        final(harts).wf(),
        r == (if 1 <= count <= 4 { 0isize } else { -1isize }),
        r == 0 ==> final(harts).spec_active() == count && final(harts).spec_base() == (if count == 1 { caller_hart } else { 0 }),
        r != 0 ==> final(harts).spec_active() == old(harts).spec_active() && final(harts).spec_base() == old(harts).spec_base(),
{
    if set_active_harts(harts, count, caller_hart) {
        0
    } else {
        -1
    }
}

} // verus!
