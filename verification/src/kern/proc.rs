use vstd::prelude::*;

verus! {

/// What the kernel keeps of a process for signals and waiting.
#[derive(Clone, Copy, Debug)]
pub struct ProcInfo {
    pub pid: usize,
    pub is_zombie: bool,
    pub exit_code: i32,
    /// Bit `s` set: signal `s` is pending.
    pub signal_pending: u64,
    /// Bit `s` set: signal `s` is blocked.
    pub signal_mask: u64,
}

impl ProcInfo {
    /// The process id.
    pub fn getpid(&self) -> (p: usize)
        ensures
            p == self.pid,
    {
        self.pid
    }
}

/// Bit `i` of `x`.
pub open spec fn bit(x: u64, i: u64) -> bool {
    (x >> i) & 1u64 == 1u64
}

/// The processes by pid.
pub struct ProcessTable {
    list: Vec<Option<ProcInfo>>,
}

impl ProcessTable {
    /// The slots by pid; `None` for a free one.
    pub closed spec fn slots(&self) -> Seq<Option<ProcInfo>> {
        self.list@
    }

    /// The process with pid `pid`, if there is one.
    pub open spec fn get(&self, pid: usize) -> Option<ProcInfo> {
        if pid < self.slots().len() {
            self.slots()[pid as int]
        } else {
            None
        }
    }

    /// No process.
    pub fn new() -> (t: Self)
        ensures
            forall|pid: usize| t.get(pid) is None,
    {
        ProcessTable { list: Vec::new() }
    }
}

/// Puts `process` in the slot of its pid, growing the table as needed.
pub fn add_process(table: &mut ProcessTable, process: ProcInfo)
    requires
        process.pid < usize::MAX,
    ensures
        final(table).get(process.pid) == Some(process),
        forall|pid: usize| pid != process.pid ==> #[trigger] final(table).get(pid) == old(table).get(pid),
{
    let pid = process.pid;
    while table.list.len() <= pid
        invariant
            pid < usize::MAX,
            table.list@.len() >= old(table).list@.len(),
            forall|i: int| 0 <= i < old(table).list@.len() ==> table.list@[i] == old(table).list@[i],
            forall|i: int| old(table).list@.len() <= i < table.list@.len() ==> table.list@[i] is None,
        decreases pid + 1 - table.list@.len(),
    {
        table.list.push(None);
    }
    table.list.set(pid, Some(process));
}

/// The process with pid `pid`, if there is one.
pub fn find_process(table: &ProcessTable, pid: usize) -> (r: Option<ProcInfo>)
    ensures
        r == table.get(pid),
{
    if pid >= table.list.len() {
        return None;
    }
    table.list[pid]
}

/// Frees the slot of pid `pid`.
pub fn remove_process(table: &mut ProcessTable, pid: usize)
    ensures
        final(table).get(pid) is None,
        forall|q: usize| q != pid ==> #[trigger] final(table).get(q) == old(table).get(q),
{
    if pid < table.list.len() {
        table.list.set(pid, None);
    }
}

/// Marks signal `signal` pending for process `pid`: 0 when done; -1 for
/// signal 0, a signal past 63, no such process or a zombie.
pub fn send_signal(table: &mut ProcessTable, pid: usize, signal: usize) -> (r: isize)
    ensures
        r == 0 || r == -1,
        r == 0 <==> (1 <= signal < 64 && old(table).get(pid) is Some && !old(table).get(pid)->0.is_zombie),
        r == 0 ==> final(table).get(pid) == Some(ProcInfo {
            signal_pending: old(table).get(pid)->0.signal_pending | (1u64 << (signal as u64)),
            ..old(table).get(pid)->0
        }),
        forall|q: usize| q != pid ==> #[trigger] final(table).get(q) == old(table).get(q),
        r != 0 ==> final(table).get(pid) == old(table).get(pid),
{
    if signal == 0 || signal >= 64 {
        return -1;
    }
    let process = match find_process(table, pid) {
        Some(p) => p,
        None => return -1,
    };
    if process.is_zombie {
        return -1;
    }
    let updated = ProcInfo { signal_pending: process.signal_pending | (1u64 << (signal as u64)), ..process };
    table.list.set(pid, Some(updated));
    0
}

/// Takes the lowest-numbered pending signal that the mask does not block
/// and clears it; none when there is no such signal.
pub fn take_current_deliverable_signal(process: &mut ProcInfo) -> (r: Option<usize>)
    ensures
        final(process).signal_mask == old(process).signal_mask,
        final(process).pid == old(process).pid,
        final(process).is_zombie == old(process).is_zombie,
        final(process).exit_code == old(process).exit_code,
        ({
            let d = old(process).signal_pending & !old(process).signal_mask;
            match r {
                None => d == 0 && final(process).signal_pending == old(process).signal_pending,
                Some(s) => {
                    &&& s < 64
                    &&& bit(d, s as u64)
                    &&& forall|j: u64| j < s ==> !#[trigger] bit(d, j)
                    &&& final(process).signal_pending == old(process).signal_pending & !(1u64 << (s as u64))
                },
            }
        }),
{
    let deliverable = process.signal_pending & !process.signal_mask;
    if deliverable == 0 {
        return None;
    }
    let tz = deliverable.trailing_zeros();
    proof {
        vstd::std_specs::bits::axiom_u64_trailing_zeros(deliverable);
    }
    let sig = tz as usize;
    process.signal_pending = process.signal_pending & !(1u64 << (sig as u64));
    proof {
        assert forall|j: u64| j < sig implies !#[trigger] bit(deliverable, j) by {
            assert((deliverable >> j) & 1u64 == 0u64);
        }
    }
    Some(sig)
}

/// Sends signal `sig` to process `pid` (see `send_signal`).
pub fn sys_sig_send(table: &mut ProcessTable, pid: usize, sig: usize) -> (r: isize)
    ensures
        r == 0 || r == -1,
        r == 0 <==> (1 <= sig < 64 && old(table).get(pid) is Some && !old(table).get(pid)->0.is_zombie),
        r == 0 ==> final(table).get(pid) == Some(ProcInfo {
            signal_pending: old(table).get(pid)->0.signal_pending | (1u64 << (sig as u64)),
            ..old(table).get(pid)->0
        }),
        forall|q: usize| q != pid ==> #[trigger] final(table).get(q) == old(table).get(q),
        r != 0 ==> final(table).get(pid) == old(table).get(pid),
{
    send_signal(table, pid, sig)
}

/// Sets the signal mask of the calling process and returns the old one.
pub fn sys_sig_mask(process: &mut ProcInfo, new_mask: u64) -> (r: isize)
    ensures
        r == old(process).signal_mask as isize,
        *final(process) == (ProcInfo { signal_mask: new_mask, ..*old(process) }),
{
    let old_mask = process.signal_mask;
    process.signal_mask = new_mask;
    old_mask as isize
}

/// The pending signals of the calling process.
pub fn sys_sig_pending(process: &ProcInfo) -> (r: isize)
    ensures
        r == process.signal_pending as isize,
{
    process.signal_pending as isize
}

} // verus!
