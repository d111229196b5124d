use vstd::prelude::*;

verus! {

/// The registers a context switch saves: return address, stack pointer
/// and the callee-saved `s0`..`s11`.
#[derive(Clone, Copy, Debug)]
pub struct TaskContext {
    pub ra: usize,
    pub sp: usize,
    pub s: [usize; 12],
}

impl TaskContext {
    /// All registers zero.
    pub fn zero_init() -> (c: Self)
        ensures
            c.ra == 0,
            c.sp == 0,
            c.s@ == Seq::new(12, |i: int| 0usize),
    {
        let c = TaskContext { ra: 0, sp: 0, s: [0usize; 12] };
        proof {
            vstd::array::axiom_spec_array_fill_for_copy_type::<usize, 12>(0usize);
        }
        assert(c.s@ =~= Seq::new(12, |i: int| 0usize));
        c
    }

    /// A context that, once switched to, returns to `trap_return` (the
    /// address of the code that enters user mode) on kernel stack
    /// `kstack_ptr`.
    pub fn goto_trap_return(kstack_ptr: usize, trap_return: usize) -> (c: Self)
        ensures
            c.ra == trap_return,
            c.sp == kstack_ptr,
            c.s@ == Seq::new(12, |i: int| 0usize),
    {
        let c = TaskContext { ra: trap_return, sp: kstack_ptr, s: [0usize; 12] };
        proof {
            vstd::array::axiom_spec_array_fill_for_copy_type::<usize, 12>(0usize);
        }
        assert(c.s@ =~= Seq::new(12, |i: int| 0usize));
        c
    }
}

/// The user registers and the kernel entry data saved on a trap.
#[derive(Clone, Copy, Debug)]
pub struct TrapContext {
    /// `x0`..`x31`.
    pub x: [usize; 32],
    pub sstatus: usize,
    pub sepc: usize,
    pub kernel_satp: usize,
    pub kernel_sp: usize,
    pub trap_handler: usize,
}

/// `sstatus` with SPP cleared (return to user mode) and SPIE set
/// (interrupts on after `sret`).
pub open spec fn user_sstatus(sstatus: usize) -> usize {
    (sstatus & !(0x100usize)) | 0x20usize
}

impl TrapContext {
    /// Sets the user stack pointer (`x2`).
    pub fn set_sp(&mut self, sp: usize)
        ensures
            final(self).x@ == old(self).x@.update(2, sp),
            final(self).sstatus == old(self).sstatus,
            final(self).sepc == old(self).sepc,
            final(self).kernel_satp == old(self).kernel_satp,
            final(self).kernel_sp == old(self).kernel_sp,
            final(self).trap_handler == old(self).trap_handler,
    {
        self.x[2] = sp;
    }

    /// The system call that an `ecall` asks for: its number (`x17`) and
    /// its three arguments (`x10`, `x11`, `x12`).
    pub fn syscall_request(&self) -> (r: (usize, [usize; 3]))
        ensures
            r.0 == self.x@[17],
            r.1@ == seq![self.x@[10], self.x@[11], self.x@[12]],
    {
        let args = [self.x[10], self.x[11], self.x[12]];
        proof {
            assert(args@ =~= seq![self.x@[10], self.x@[11], self.x@[12]]);
        }
        (self.x[17], args)
    }

    /// Steps past the `ecall` instruction (4 bytes), so that the thread
    /// resumes after it.
    pub fn skip_ecall(&mut self)
        requires
            old(self).sepc + 4 <= usize::MAX,
        ensures
            final(self).sepc == old(self).sepc + 4,
            final(self).x@ == old(self).x@,
            final(self).sstatus == old(self).sstatus,
            final(self).kernel_satp == old(self).kernel_satp,
            final(self).kernel_sp == old(self).kernel_sp,
            final(self).trap_handler == old(self).trap_handler,
    {
        self.sepc = self.sepc + 4;
    }

    /// Hands the result of a system call back in `x10` (`a0`), as the bits
    /// of the signed value.
    pub fn set_syscall_result(&mut self, result: isize)
        ensures
            final(self).x@ == old(self).x@.update(10, result as usize),
            final(self).sstatus == old(self).sstatus,
            final(self).sepc == old(self).sepc,
            final(self).kernel_satp == old(self).kernel_satp,
            final(self).kernel_sp == old(self).kernel_sp,
            final(self).trap_handler == old(self).trap_handler,
    {
        self.x[10] = result as usize;
    }

    /// The context a new user thread starts from: registers zero but the
    /// stack pointer, entry point `entry`, `sstatus` (the current value of
    /// the register) set to return to user mode with interrupts on.
    pub fn app_init_context(
        entry: usize,
        sp: usize,
        kernel_satp: usize,
        kernel_sp: usize,
        trap_handler: usize,
        sstatus: usize,
    ) -> (cx: Self)
        ensures
            cx.x@ == Seq::new(32, |i: int| if i == 2 { sp } else { 0usize }),
            cx.sstatus == user_sstatus(sstatus),
            cx.sepc == entry,
            cx.kernel_satp == kernel_satp,
            cx.kernel_sp == kernel_sp,
            cx.trap_handler == trap_handler,
    {
        let mut status = sstatus;
        status = status & !(1usize << 8);
        status = status | (1usize << 5);
        let mut cx = TrapContext { x: [0usize; 32], sstatus: status, sepc: entry, kernel_satp, kernel_sp, trap_handler };
        proof {
            vstd::array::axiom_spec_array_fill_for_copy_type::<usize, 32>(0usize);
            assert((1usize << 8) == 0x100usize) by (bit_vector);
            assert((1usize << 5) == 0x20usize) by (bit_vector);
        }
        cx.set_sp(sp);
        assert(cx.x@ =~= Seq::new(32, |i: int| if i == 2 { sp } else { 0usize }));
        cx
    }
}

impl TrapContext {
    /// The trap context of the thread a fork makes from a thread with
    /// context `parent`: the same registers but `a0` (`x10`), which is 0 so
    /// that the child sees fork return 0, entering the kernel on the child's
    /// kernel stack `kernel_sp` with the kernel's table `kernel_satp`.
    pub fn fork_from(parent: &TrapContext, kernel_sp: usize, kernel_satp: usize) -> (cx: Self)
        ensures
            cx.x@ == parent.x@.update(10, 0usize),
            cx.sstatus == parent.sstatus,
            cx.sepc == parent.sepc,
            cx.kernel_satp == kernel_satp,
            cx.kernel_sp == kernel_sp,
            cx.trap_handler == parent.trap_handler,
    {
        let mut cx = *parent;
        cx.x[10] = 0;
        cx.kernel_sp = kernel_sp;
        cx.kernel_satp = kernel_satp;
        cx
    }
}

/// The registers saved on the kernel stack when a trap interrupts the
/// kernel.
#[derive(Clone, Copy, Debug)]
pub struct KernelTrapContext {
    pub ra: usize,
    pub sp: usize,
    pub s0: usize,
    pub s1: usize,
    pub s2: usize,
    pub s3: usize,
    pub s4: usize,
    pub s5: usize,
    pub s6: usize,
    pub s7: usize,
    pub s8: usize,
    pub s9: usize,
    pub s10: usize,
    pub s11: usize,
    pub sstatus: usize,
    pub sepc: usize,
}

} // verus!
