use vstd::prelude::*;
use std::collections::VecDeque;
use crate::kern::config::{UART_IRQ, VIRTIO0_IRQ};

verus! {

/// The interrupt bit of `scause` on RV64.
pub const CAUSE_INTERRUPT_BIT: u64 = 0x8000_0000_0000_0000;

/// Supervisor timer interrupt.
pub const CAUSE_SUPERVISOR_TIMER: u64 = 0x8000_0000_0000_0005;

/// Supervisor external interrupt.
pub const CAUSE_SUPERVISOR_EXTERNAL: u64 = 0x8000_0000_0000_0009;

/// Supervisor software interrupt (an inter-processor interrupt).
pub const CAUSE_SUPERVISOR_SOFT: u64 = 0x8000_0000_0000_0001;

/// Environment call from user mode.
pub const CAUSE_USER_ECALL: u64 = 8;

/// Store page fault.
pub const CAUSE_STORE_PAGE_FAULT: u64 = 15;

/// Load page fault.
pub const CAUSE_LOAD_PAGE_FAULT: u64 = 13;

/// Instruction page fault.
pub const CAUSE_INSTRUCTION_PAGE_FAULT: u64 = 12;

/// Illegal instruction.
pub const CAUSE_ILLEGAL_INSTRUCTION: u64 = 2;

/// What a trap from user mode asks of the kernel.
#[derive(Clone, Copy, Debug, PartialEq, Eq, Structural)]
pub enum TrapAction {
    /// Step past the `ecall` and run the system call.
    Syscall,
    /// Count a tick, arm the timer, ask for a reschedule.
    Timer,
    /// Serve the PLIC.
    External,
    /// Clear the pending software interrupt.
    SoftIpi,
    /// Try to resolve a copy-on-write fault; exit with -2 if that fails.
    StorePageFault,
    /// Terminate the thread with this exit code.
    Exit(i32),
    /// A trap the kernel cannot handle.
    Unsupported,
}

/// The action for a trap from user mode with cause `scause`.
pub fn user_trap_action(scause: u64) -> (a: TrapAction)
    ensures
        a == (if scause == CAUSE_USER_ECALL {
            TrapAction::Syscall
        } else if scause == CAUSE_SUPERVISOR_TIMER {
            TrapAction::Timer
        } else if scause == CAUSE_SUPERVISOR_EXTERNAL {
            TrapAction::External
        } else if scause == CAUSE_SUPERVISOR_SOFT {
            TrapAction::SoftIpi
        } else if scause == CAUSE_STORE_PAGE_FAULT {
            TrapAction::StorePageFault
        } else if scause == CAUSE_LOAD_PAGE_FAULT || scause == CAUSE_INSTRUCTION_PAGE_FAULT {
            TrapAction::Exit(-2i32)
        } else if scause == CAUSE_ILLEGAL_INSTRUCTION {
            TrapAction::Exit(-3i32)
        } else {
            TrapAction::Unsupported
        }),
{
    if scause == CAUSE_USER_ECALL {
        TrapAction::Syscall
    } else if scause == CAUSE_SUPERVISOR_TIMER {
        TrapAction::Timer
    } else if scause == CAUSE_SUPERVISOR_EXTERNAL {
        TrapAction::External
    } else if scause == CAUSE_SUPERVISOR_SOFT {
        TrapAction::SoftIpi
    } else if scause == CAUSE_STORE_PAGE_FAULT {
        TrapAction::StorePageFault
    } else if scause == CAUSE_LOAD_PAGE_FAULT || scause == CAUSE_INSTRUCTION_PAGE_FAULT {
        TrapAction::Exit(-2)
    } else if scause == CAUSE_ILLEGAL_INSTRUCTION {
        TrapAction::Exit(-3)
    } else {
        TrapAction::Unsupported
    }
}

/// What happens after a user trap was handled.
#[derive(Clone, Copy, Debug, PartialEq, Eq, Structural)]
pub enum AfterTrap {
    /// A deliverable signal terminates the thread with this exit code.
    Exit(i32),
    /// The thread yields the hart.
    Yield,
    /// Back to user mode.
    Resume,
}

/// The step after a user trap: a deliverable signal `sig` terminates the
/// thread with -(128 + sig); else a pending reschedule yields; else the
/// thread resumes.
pub fn after_user_trap(signal: Option<usize>, need_reschedule: bool) -> (a: AfterTrap)
    requires
        signal matches Some(s) ==> s < 64,
    ensures
        a == (match signal {
            Some(s) => AfterTrap::Exit(-(128 + s) as i32),
            None => if need_reschedule { AfterTrap::Yield } else { AfterTrap::Resume },
        }),
{
    match signal {
        Some(sig) => AfterTrap::Exit(-(128 + sig as i32)),
        None => {
            if need_reschedule {
                AfterTrap::Yield
            } else {
                AfterTrap::Resume
            }
        },
    }
}

/// What a trap taken in supervisor mode asks of the kernel.
#[derive(Clone, Copy, Debug, PartialEq, Eq, Structural)]
pub enum KernelTrapAction {
    Timer,
    External,
    SoftIpi,
    /// A page fault or any other cause: the kernel stops.
    Fatal,
}

/// The action for a trap in supervisor mode with cause `scause`.
pub fn kernel_trap_action(scause: u64) -> (a: KernelTrapAction)
    ensures
        a == (if scause == CAUSE_SUPERVISOR_TIMER {
            KernelTrapAction::Timer
        } else if scause == CAUSE_SUPERVISOR_EXTERNAL {
            KernelTrapAction::External
        } else if scause == CAUSE_SUPERVISOR_SOFT {
            KernelTrapAction::SoftIpi
        } else {
            KernelTrapAction::Fatal
        }),
{
    if scause == CAUSE_SUPERVISOR_TIMER {
        KernelTrapAction::Timer
    } else if scause == CAUSE_SUPERVISOR_EXTERNAL {
        KernelTrapAction::External
    } else if scause == CAUSE_SUPERVISOR_SOFT {
        KernelTrapAction::SoftIpi
    } else {
        KernelTrapAction::Fatal
    }
}

/// What an external interrupt number asks of the kernel.
#[derive(Clone, Copy, Debug, PartialEq, Eq, Structural)]
pub enum IrqAction {
    /// Nothing was pending.
    Nothing,
    /// Read a character from the console into the input buffer.
    Uart,
    /// The virtio device: nothing to do.
    Virtio,
    /// An unknown interrupt: report it.
    Unknown,
}

/// The action for the interrupt number claimed from the PLIC.
pub fn external_irq_action(irq: u32) -> (a: IrqAction)
    ensures
        a == (if irq == 0 {
            IrqAction::Nothing
        } else if irq == UART_IRQ {
            IrqAction::Uart
        } else if irq == VIRTIO0_IRQ {
            IrqAction::Virtio
        } else {
            IrqAction::Unknown
        }),
{
    if irq == 0 {
        IrqAction::Nothing
    } else if irq == UART_IRQ {
        IrqAction::Uart
    } else if irq == VIRTIO0_IRQ {
        IrqAction::Virtio
    } else {
        IrqAction::Unknown
    }
}

/// Interrupt counters and the kernel-interrupt switch.
pub struct IrqStats {
    ticks: usize,
    kernel_timer: usize,
    kernel_external: usize,
    kernel_irq_enabled: bool,
}

impl IrqStats {
    pub closed spec fn spec_ticks(&self) -> usize {
        self.ticks
    }

    pub closed spec fn spec_kernel_timer(&self) -> usize {
        self.kernel_timer
    }

    pub closed spec fn spec_kernel_external(&self) -> usize {
        self.kernel_external
    }

    pub closed spec fn spec_irq_enabled(&self) -> bool {
        self.kernel_irq_enabled
    }

    /// All counters 0; kernel interrupts enabled.
    pub fn new() -> (s: Self)
        ensures
            s.spec_ticks() == 0,
            s.spec_kernel_timer() == 0,
            s.spec_kernel_external() == 0,
            s.spec_irq_enabled(),
    {
        IrqStats { ticks: 0, kernel_timer: 0, kernel_external: 0, kernel_irq_enabled: true }
    }
}

/// Timer interrupts taken.
pub fn get_ticks(s: &IrqStats) -> (n: usize)
    ensures
        n == s.spec_ticks(),
{
    s.ticks
}

/// Timer interrupts taken in supervisor mode.
pub fn get_kernel_timer_count(s: &IrqStats) -> (n: usize)
    ensures
        n == s.spec_kernel_timer(),
{
    s.kernel_timer
}

/// External interrupts taken in supervisor mode.
pub fn get_kernel_external_count(s: &IrqStats) -> (n: usize)
    ensures
        n == s.spec_kernel_external(),
{
    s.kernel_external
}

/// Counts a timer interrupt (the counter wraps as an atomic one does).
pub fn timer_tick(s: &mut IrqStats)
    ensures
        final(s).spec_ticks() == (if old(s).spec_ticks() == usize::MAX { 0 } else { old(s).spec_ticks() + 1 }),
        final(s).spec_kernel_timer() == old(s).spec_kernel_timer(),
        final(s).spec_kernel_external() == old(s).spec_kernel_external(),
        final(s).spec_irq_enabled() == old(s).spec_irq_enabled(),
{
    s.ticks = s.ticks.wrapping_add(1);
}

/// Counts a timer interrupt taken in supervisor mode, and the tick.
pub fn kernel_timer_handler(s: &mut IrqStats)
    ensures
        final(s).spec_kernel_timer() == (if old(s).spec_kernel_timer() == usize::MAX { 0 } else { old(s).spec_kernel_timer() + 1 }),
        final(s).spec_ticks() == (if old(s).spec_ticks() == usize::MAX { 0 } else { old(s).spec_ticks() + 1 }),
        final(s).spec_kernel_external() == old(s).spec_kernel_external(),
        final(s).spec_irq_enabled() == old(s).spec_irq_enabled(),
{
    s.kernel_timer = s.kernel_timer.wrapping_add(1);
    timer_tick(s);
}

/// Counts an external interrupt taken in supervisor mode.
pub fn kernel_external_handler(s: &mut IrqStats)
    ensures
        final(s).spec_kernel_external() == (if old(s).spec_kernel_external() == usize::MAX { 0 } else { old(s).spec_kernel_external() + 1 }),
        final(s).spec_ticks() == old(s).spec_ticks(),
        final(s).spec_kernel_timer() == old(s).spec_kernel_timer(),
        final(s).spec_irq_enabled() == old(s).spec_irq_enabled(),
{
    s.kernel_external = s.kernel_external.wrapping_add(1);
}

/// Switches interrupts in supervisor mode on or off.
pub fn set_kernel_irq_enabled(s: &mut IrqStats, enabled: bool)
    ensures
        final(s).spec_irq_enabled() == enabled,
        final(s).spec_ticks() == old(s).spec_ticks(),
        final(s).spec_kernel_timer() == old(s).spec_kernel_timer(),
        final(s).spec_kernel_external() == old(s).spec_kernel_external(),
{
    s.kernel_irq_enabled = enabled;
}

/// Whether interrupts in supervisor mode are on.
pub fn is_kernel_irq_enabled(s: &IrqStats) -> (b: bool)
    ensures
        b == s.spec_irq_enabled(),
{
    s.kernel_irq_enabled
}

/// Switches kernel interrupts on for a non-zero argument, off for 0;
/// always 0.
pub fn sys_kernel_irq_set(s: &mut IrqStats, enabled: usize) -> (r: isize)
    ensures
        r == 0,
        final(s).spec_irq_enabled() == (enabled != 0),
        final(s).spec_ticks() == old(s).spec_ticks(),
        final(s).spec_kernel_timer() == old(s).spec_kernel_timer(),
        final(s).spec_kernel_external() == old(s).spec_kernel_external(),
{
    set_kernel_irq_enabled(s, enabled != 0);
    0
}

/// Characters received from the console, first in first out.
pub struct InputBuffer {
    chars: VecDeque<u8>,
}

impl InputBuffer {
    /// The buffered characters, oldest first.
    pub closed spec fn view(&self) -> Seq<u8> {
        self.chars@
    }

    /// An empty buffer.
    pub fn new() -> (b: Self)
        ensures
            b@ == Seq::<u8>::empty(),
    {
        InputBuffer { chars: VecDeque::new() }
    }
}

/// Buffers a received character.
pub fn push_char(b: &mut InputBuffer, c: u8)
    ensures
        final(b)@ == old(b)@.push(c),
{
    b.chars.push_back(c);
}

/// Takes the oldest buffered character.
pub fn pop_char(b: &mut InputBuffer) -> (r: Option<u8>)
    ensures
        old(b)@.len() > 0 ==> r == Some(old(b)@[0]) && final(b)@ == old(b)@.drop_first(),
        old(b)@.len() == 0 ==> r is None && final(b)@ == old(b)@,
{
    b.chars.pop_front()
}

} // verus!
