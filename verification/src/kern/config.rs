use vstd::prelude::*;

verus! {

/// Most harts the kernel runs on.
pub const MAX_HARTS: usize = 4;

/// End of physical memory (128 MiB from 0x8000_0000).
pub const MEMORY_END: usize = 0x8800_0000;

/// Kernel stack size per thread.
pub const KERNEL_STACK_SIZE: usize = 0x1_0000;

/// User stack size.
pub const USER_STACK_SIZE: usize = 0x4000;

/// Page size.
pub const PAGE_SIZE: usize = 0x1000;

/// Bits of the page offset.
pub const PAGE_SIZE_BITS: usize = 12;

/// Timer frequency of the QEMU virt board.
pub const CLOCK_FREQ: usize = 10_000_000;

/// Milliseconds between timer interrupts.
pub const TICK_MS: usize = 10;

/// Timer interrupts per second.
pub const TICKS_PER_SEC: usize = 100;

/// Fixed virtual address of the thread exit trampoline in every process.
pub const THREAD_EXIT_TRAMPOLINE: usize = 0x1000;

/// MMIO base of the UART.
pub const UART_BASE: usize = 0x1000_0000;

/// MMIO base of the PLIC.
pub const PLIC_BASE: usize = 0x0C00_0000;

/// MMIO base of the first virtio device.
pub const VIRTIO0_BASE: usize = 0x1000_1000;

/// PLIC priority registers.
pub const PLIC_PRIORITY: usize = 0x0C00_0000;

/// PLIC pending bits.
pub const PLIC_PENDING: usize = 0x0C00_1000;

/// UART interrupt number.
pub const UART_IRQ: u32 = 10;

/// First virtio device interrupt number.
pub const VIRTIO0_IRQ: u32 = 1;

/// The supervisor-mode interrupt enable bits of `hart` in the PLIC.
pub fn plic_senable(hart: usize) -> (a: usize)
    requires
        PLIC_BASE + 0x2080 + hart * 0x100 <= usize::MAX,
    ensures
        a == PLIC_BASE + 0x2080 + hart * 0x100,
{
    PLIC_BASE + 0x2080 + hart * 0x100
}

/// The supervisor-mode priority threshold of `hart` in the PLIC.
pub fn plic_spriority(hart: usize) -> (a: usize)
    requires
        PLIC_BASE + 0x201000 + hart * 0x2000 <= usize::MAX,
    ensures
        a == PLIC_BASE + 0x201000 + hart * 0x2000,
{
    PLIC_BASE + 0x201000 + hart * 0x2000
}

/// The supervisor-mode claim/complete register of `hart` in the PLIC.
pub fn plic_sclaim(hart: usize) -> (a: usize)
    requires
        PLIC_BASE + 0x201004 + hart * 0x2000 <= usize::MAX,
    ensures
        a == PLIC_BASE + 0x201004 + hart * 0x2000,
{
    PLIC_BASE + 0x201004 + hart * 0x2000
}

} // verus!
