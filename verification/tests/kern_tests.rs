use oslab::kern::config::{plic_senable, PAGE_SIZE, USER_STACK_SIZE, MEMORY_END};
use oslab::kern::fd::{sys_close, sys_fsize, sys_lseek, sys_open, sys_read, sys_unlink, sys_write, FdIo, FdTable};
use oslab::kern::frame::{
    frame_alloc, frame_refcount_dec, frame_refcount_get, frame_refcount_inc, frame_refcount_register, frame_refcount_take,
    FrameRefcounts, StackFrameAllocator,
};
use oslab::kern::mm::{
    Frames, KernelLayout, MapArea, MapType, MemorySet, PageTable, PageTableEntry, PhysMem, MAP_R, MAP_U, MAP_W, MAP_X,
    PTE_V,
};
use oslab::kern::context::TrapContext;
use oslab::kern::elf::{check_elf_loadable, perm_of_flags, ElfSegment};
use oslab::kern::pid::{pid_alloc, KernelStack, PidAllocator};
use oslab::kern::proc::{add_process, find_process, send_signal, sys_sig_mask, take_current_deliverable_signal, ProcInfo, ProcessTable};
use oslab::kern::ramfs::{RamFile, RamFs, O_CREATE, O_TRUNC};
use oslab::kern::sched::{
    active_harts, add_task, fetch_task, get_scheduler_type, logical_hart_index, set_active_harts, set_scheduler,
    task_count, Harts, QueuedTask, SchedulerType, Schedulers,
};
use oslab::kern::spinlock::SpinLock;
use oslab::kern::sync::{Mutex, Semaphore};
use oslab::kern::sync_calls::{sys_mutex_create, sys_mutex_lock, sys_mutex_unlock, sys_mutex_unlock_wake, sys_semaphore_create, sys_semaphore_down, sys_semaphore_up, SyncTables};
use oslab::kern::syscall::{decode_syscall, sys_active_harts_set, sys_sched_set, Syscall};
use oslab::kern::task::{
    exec, exit_current, fork_process_inner, new_process_inner, sys_thread_create, sys_waitpid, sys_waittid, ThreadInfo,
    ThreadStatus, WaitOutcome, WaitTid,
};
use oslab::kern::trap::{
    after_user_trap, external_irq_action, kernel_trap_action, pop_char, push_char, user_trap_action, AfterTrap,
    InputBuffer, IrqAction, KernelTrapAction, TrapAction, CAUSE_STORE_PAGE_FAULT, CAUSE_SUPERVISOR_TIMER, CAUSE_USER_ECALL,
};

fn proc_info(pid: usize) -> ProcInfo {
    ProcInfo { pid, is_zombie: false, exit_code: 0, signal_pending: 0, signal_mask: 0 }
}

#[test]
fn frame_allocator_reuses_the_last_freed_frame() {
    let mut a = StackFrameAllocator::new();
    a.init(100, 103);
    assert_eq!(a.allocate(), Some(100));
    assert_eq!(a.allocate(), Some(101));
    a.dealloc(100);
    assert_eq!(a.allocate(), Some(100));
    assert_eq!(a.allocate(), Some(102));
    assert_eq!(a.allocate(), None);
}

#[test]
fn frame_refcounts() {
    let mut refs = FrameRefcounts::new();
    let mut a = StackFrameAllocator::new();
    a.init(10, 20);
    let p = a.allocate().unwrap();
    assert_eq!(frame_refcount_get(&refs, p), 0);
    frame_refcount_register(&mut refs, p);
    assert_eq!(frame_refcount_get(&refs, p), 1);
    assert_eq!(frame_refcount_inc(&mut refs, p), 2);
    assert_eq!(frame_refcount_dec(&mut refs, &mut a, p), 1);
    assert_eq!(frame_refcount_dec(&mut refs, &mut a, p), 0);
    assert_eq!(frame_refcount_get(&refs, p), 0);
    // The frame went back to the allocator.
    assert_eq!(a.allocate(), Some(p));
    assert_eq!(frame_refcount_inc(&mut refs, 15), 2);
    assert!(frame_refcount_take(&mut refs, 15));
    assert!(!frame_refcount_take(&mut refs, 15));
}

#[test]
fn pids_are_reused_last_freed_first() {
    let mut a = PidAllocator::new();
    assert_eq!(pid_alloc(&mut a).0, 0);
    assert_eq!(a.allocate().0, 1);
    assert_eq!(a.allocate().0, 2);
    a.dealloc(1);
    assert_eq!(a.allocate().0, 1);
    assert_eq!(a.allocate().0, 3);
    let ks = KernelStack { base: 0x1000, size: 0x2000 };
    assert_eq!(ks.get_top(), 0x3000);
}

#[test]
fn blocking_mutex_hands_over_in_arrival_order() {
    let mut m = Mutex::new();
    assert!(m.lock());
    assert!(!m.lock());
    m.add_waiter(7);
    m.add_waiter(8);
    assert_eq!(m.unlock(), Some(7));
    assert_eq!(m.unlock(), Some(8));
    assert_eq!(m.unlock(), None);
    assert!(m.lock());
}

#[test]
fn semaphore_counts_down_and_wakes_waiters() {
    let mut s = Semaphore::new(1);
    assert!(s.down());
    assert!(!s.down());
    s.add_waiter(4);
    assert_eq!(s.up(), Some(4));
    assert_eq!(s.up(), None);
    assert!(s.down());
}

#[test]
fn sync_system_calls() {
    let mut t = SyncTables::new();
    assert_eq!(sys_mutex_create(&mut t), 0);
    assert_eq!(sys_mutex_create(&mut t), 1);
    assert_eq!(sys_mutex_lock(&mut t, 0, 5), (0, false));
    assert_eq!(sys_mutex_lock(&mut t, 0, 6), (0, true));
    assert_eq!(sys_mutex_unlock(&mut t, 0), (0, Some(6)));
    assert_eq!(sys_mutex_lock(&mut t, 9, 5).0, -1);
    assert_eq!(sys_semaphore_create(&mut t, 0), 0);
    assert_eq!(sys_semaphore_down(&mut t, 0), (0, true));
    assert_eq!(sys_semaphore_up(&mut t, 0).0, 0);
    assert_eq!(sys_semaphore_up(&mut t, 3).0, -1);
}

#[test]
fn harts_and_logical_indexes() {
    let mut h = Harts::new();
    assert_eq!(active_harts(&h), 4);
    assert_eq!(logical_hart_index(&h, 3), Some(3));
    assert!(set_active_harts(&mut h, 1, 2));
    assert_eq!(logical_hart_index(&h, 2), Some(0));
    assert_eq!(logical_hart_index(&h, 0), None);
    assert!(!set_active_harts(&mut h, 0, 0));
    assert!(!set_active_harts(&mut h, 5, 0));
    assert_eq!(sys_active_harts_set(&mut h, 2, 0), 0);
    assert_eq!(logical_hart_index(&h, 1), Some(1));
    assert_eq!(logical_hart_index(&h, 2), None);
    assert_eq!(sys_active_harts_set(&mut h, 9, 0), -1);
}

#[test]
fn schedulers_keep_every_queued_task() {
    let h = Harts::new();
    let mut s = Schedulers::new();
    assert_eq!(get_scheduler_type(&s), SchedulerType::GlobalRoundRobin);
    add_task(&mut s, QueuedTask { pid: 1, tid: 0 }, &h);
    add_task(&mut s, QueuedTask { pid: 2, tid: 0 }, &h);
    assert_eq!(task_count(&s), 2);
    assert_eq!(fetch_task(&mut s, 0, &h), Some(QueuedTask { pid: 1, tid: 0 }));
    set_scheduler(&mut s, SchedulerType::PerCpuWorkStealing, &h);
    assert_eq!(get_scheduler_type(&s), SchedulerType::PerCpuWorkStealing);
    assert_eq!(task_count(&s), 1);
    add_task(&mut s, QueuedTask { pid: 3, tid: 1 }, &h);
    let mut got = Vec::new();
    for hart in 0..4 {
        while let Some(t) = fetch_task(&mut s, hart, &h) {
            got.push(t);
        }
    }
    got.sort_by_key(|t| (t.pid, t.tid));
    assert_eq!(got, vec![QueuedTask { pid: 2, tid: 0 }, QueuedTask { pid: 3, tid: 1 }]);
    assert_eq!(task_count(&s), 0);
    assert_eq!(sys_sched_set(&mut s, 0, &h), 0);
    assert_eq!(get_scheduler_type(&s), SchedulerType::GlobalRoundRobin);
    assert_eq!(sys_sched_set(&mut s, 7, &h), -1);
}

#[test]
fn work_stealing_takes_half_of_a_long_queue() {
    let h = Harts::new();
    let mut s = Schedulers::new();
    set_scheduler(&mut s, SchedulerType::PerCpuWorkStealing, &h);
    // Pids 0, 4, 8 and 12 all go to hart 0's queue.
    for pid in [0usize, 4, 8, 12] {
        add_task(&mut s, QueuedTask { pid, tid: 0 }, &h);
    }
    // Hart 3 steals the back half of hart 0's queue and runs its last task.
    assert_eq!(fetch_task(&mut s, 3, &h), Some(QueuedTask { pid: 12, tid: 0 }));
    assert_eq!(fetch_task(&mut s, 3, &h), Some(QueuedTask { pid: 8, tid: 0 }));
    // Two tasks left on hart 0: one of them, the last, is stolen.
    assert_eq!(fetch_task(&mut s, 3, &h), Some(QueuedTask { pid: 4, tid: 0 }));
    // The last task of a queue is never stolen.
    assert_eq!(fetch_task(&mut s, 3, &h), None);
    assert_eq!(task_count(&s), 1);
    assert_eq!(fetch_task(&mut s, 0, &h), Some(QueuedTask { pid: 0, tid: 0 }));
}

#[test]
fn signals_are_delivered_lowest_first_unless_masked() {
    let mut table = ProcessTable::new();
    add_process(&mut table, proc_info(3));
    assert_eq!(send_signal(&mut table, 3, 5), 0);
    assert_eq!(send_signal(&mut table, 3, 2), 0);
    assert_eq!(send_signal(&mut table, 3, 0), -1);
    assert_eq!(send_signal(&mut table, 3, 64), -1);
    assert_eq!(send_signal(&mut table, 4, 1), -1);
    let mut p = find_process(&table, 3).unwrap();
    assert_eq!(p.signal_pending, (1 << 5) | (1 << 2));
    assert_eq!(sys_sig_mask(&mut p, 1 << 2), 0);
    assert_eq!(take_current_deliverable_signal(&mut p), Some(5));
    assert_eq!(take_current_deliverable_signal(&mut p), None);
    assert_eq!(p.signal_pending, 1 << 2);
}

#[test]
fn waitpid_reaps_exited_children() {
    let mut table = ProcessTable::new();
    let parent_info = proc_info(1);
    add_process(&mut table, parent_info);
    let mut parent = new_process_inner(0x10000);
    assert_eq!(parent.next_user_stack_top, 0x10000 + PAGE_SIZE + USER_STACK_SIZE);
    let (mut child, mut child_info) = fork_process_inner(&mut parent, &parent_info, 2);
    add_process(&mut table, child_info);
    assert_eq!(parent.children, vec![2]);
    assert_eq!(sys_waitpid(&mut table, &mut parent, 9), WaitOutcome::NoChild);
    assert_eq!(sys_waitpid(&mut table, &mut parent, -1), WaitOutcome::Pending);
    assert!(exit_current(&mut child_info, &mut child, 0, 7));
    add_process(&mut table, child_info);
    assert_eq!(sys_waitpid(&mut table, &mut parent, 2), WaitOutcome::Reaped { pid: 2, exit_code: 7 });
    assert!(parent.children.is_empty());
    assert!(find_process(&table, 2).is_none());
    assert_eq!(sys_waitpid(&mut table, &mut parent, -1), WaitOutcome::NoChild);
}

#[test]
fn threads_are_created_and_waited_for() {
    let mut p = new_process_inner(0x8000);
    let top = p.next_user_stack_top;
    assert_eq!(sys_thread_create(&mut p, 0), (1, top));
    assert_eq!(p.next_user_stack_top, top + PAGE_SIZE + USER_STACK_SIZE);
    assert_eq!(sys_thread_create(&mut p, 0x5000), (2, 0x5000));
    assert_eq!(sys_waittid(&mut p, 9), WaitTid::NoSuchThread);
    assert_eq!(sys_waittid(&mut p, 1), WaitTid::Pending);
    p.threads[1] = Some(ThreadInfo { tid: 1, status: ThreadStatus::Exited, exit_code: Some(3) });
    assert_eq!(sys_waittid(&mut p, 1), WaitTid::Exited(3));
    assert_eq!(sys_waittid(&mut p, 1), WaitTid::Gone);
    let mut info = proc_info(1);
    assert!(!exit_current(&mut info, &mut p, 0, 0));
    assert!(exit_current(&mut info, &mut p, 2, 11));
    assert!(info.is_zombie);
    assert_eq!(info.exit_code, 11);
}

#[test]
fn ramfs_files_through_descriptors() {
    let mut fs = RamFs::new();
    let mut fdt = FdTable::new();
    assert_eq!(sys_open(&mut fdt, &mut fs, "a.txt", 0), -1);
    let fd = sys_open(&mut fdt, &mut fs, "a.txt", O_CREATE);
    assert_eq!(fd, 3);
    assert_eq!(sys_write(&mut fdt, &mut fs, 3, b"hello world"), FdIo::Done(11));
    let mut size = 0usize;
    assert_eq!(sys_fsize(&fdt, &fs, 3, &mut size), 0);
    assert_eq!(size, 11);
    assert_eq!(sys_lseek(&mut fdt, &fs, 3, 6, 0), 6);
    let mut buf = [0u8; 16];
    assert_eq!(sys_read(&mut fdt, &fs, 3, &mut buf), FdIo::Done(5));
    assert_eq!(&buf[0..5], b"world");
    assert_eq!(sys_write(&mut fdt, &mut fs, 1, b"x"), FdIo::Console);
    assert_eq!(sys_read(&mut fdt, &fs, 1, &mut buf), FdIo::Failed);
    assert_eq!(sys_close(&mut fdt, 3), 0);
    assert_eq!(sys_close(&mut fdt, 3), -1);
    assert_eq!(sys_open(&mut fdt, &mut fs, "a.txt", O_TRUNC), 3);
    assert_eq!(sys_fsize(&fdt, &fs, 3, &mut size), 0);
    assert_eq!(size, 0);
    assert_eq!(sys_unlink(&mut fs, "a.txt"), 0);
    assert_eq!(sys_unlink(&mut fs, "a.txt"), -1);
    let mut f = RamFile::open(&mut fs, "b", O_CREATE).unwrap();
    assert_eq!(f.write(&mut fs, b"abc"), 3);
    assert_eq!(f.seek(&fs, -1, 2), 2);
    assert_eq!(f.size(&fs), 3);
}

#[test]
fn trap_decisions() {
    assert_eq!(user_trap_action(CAUSE_USER_ECALL), TrapAction::Syscall);
    assert_eq!(user_trap_action(CAUSE_SUPERVISOR_TIMER), TrapAction::Timer);
    assert_eq!(user_trap_action(CAUSE_STORE_PAGE_FAULT), TrapAction::StorePageFault);
    assert_eq!(kernel_trap_action(CAUSE_SUPERVISOR_TIMER), KernelTrapAction::Timer);
    assert_eq!(kernel_trap_action(CAUSE_USER_ECALL), KernelTrapAction::Fatal);
    assert_eq!(after_user_trap(Some(9), false), AfterTrap::Exit(-137));
    assert_eq!(after_user_trap(None, true), AfterTrap::Yield);
    assert_eq!(after_user_trap(None, false), AfterTrap::Resume);
    assert_eq!(external_irq_action(0), IrqAction::Nothing);
    assert_eq!(external_irq_action(10), IrqAction::Uart);
    assert_eq!(external_irq_action(1), IrqAction::Virtio);
    assert_eq!(external_irq_action(33), IrqAction::Unknown);
    let mut b = InputBuffer::new();
    push_char(&mut b, b'x');
    push_char(&mut b, b'y');
    assert_eq!(pop_char(&mut b), Some(b'x'));
    assert_eq!(pop_char(&mut b), Some(b'y'));
    assert_eq!(pop_char(&mut b), None);
    assert_eq!(plic_senable(1), 0x0C00_0000 + 0x2080 + 0x100);
}

#[test]
fn syscall_numbers() {
    assert_eq!(decode_syscall(64), Some(Syscall::Write));
    assert_eq!(decode_syscall(220), Some(Syscall::Fork));
    assert_eq!(decode_syscall(1054), Some(Syscall::Fsize));
    assert_eq!(decode_syscall(5), None);
}

#[test]
fn page_table_map_translate_unmap() {
    let mut frames = Frames::new(0x100, 0x110);
    let mut pt = PageTable::new(&mut frames);
    assert_eq!(pt.token(), (8u64 << 60) | 0x100);
    pt.map(5, 0x200, MAP_R);
    assert_eq!(pt.translate(5), Some(PageTableEntry { ppn: 0x200, flags: MAP_R | PTE_V, cow: false }));
    // A page mapped already keeps its frame and gains the flags.
    pt.map(5, 0x300, MAP_W);
    assert_eq!(pt.translate(5), Some(PageTableEntry { ppn: 0x200, flags: MAP_R | MAP_W | PTE_V, cow: false }));
    assert_eq!(pt.translate_va(5 * PAGE_SIZE + 12), Some(0x200 * PAGE_SIZE + 12));
    assert_eq!(pt.translate(6), None);
    pt.unmap(5);
    assert_eq!(pt.translate(5), Some(PageTableEntry::empty()));
}

#[test]
fn phys_mem_pages() {
    let mut m = PhysMem::new();
    assert_eq!(m.read_page(3), vec![0u8; PAGE_SIZE]);
    let mut page = vec![0u8; PAGE_SIZE];
    page[0] = 1;
    m.write_page(3, page.clone());
    m.copy_page(3, 4);
    assert_eq!(m.read_page(4), page);
    m.zero(3);
    assert_eq!(m.read_page(3)[0], 0);
}

fn layout() -> KernelLayout {
    KernelLayout {
        stext: 0x8020_0000,
        etext: 0x8020_2000,
        srodata: 0x8020_2000,
        erodata: 0x8020_3000,
        sdata: 0x8020_3000,
        edata: 0x8020_4000,
        sbss_with_stack: 0x8020_4000,
        ebss: 0x8020_8000,
        ekernel: 0x8020_8000,
    }
}

#[test]
fn kernel_space_maps_identically() {
    let mut frames = Frames::new(0x80400, 0x80500);
    let ks = MemorySet::new_kernel(&layout(), &mut frames);
    assert_eq!(ks.token(), (8u64 << 60) | 0x80400);
    let text = ks.translate(0x80200).unwrap();
    assert_eq!(text.ppn, 0x80200);
    assert!(text.is_valid());
    assert!(!text.writable());
    assert!(ks.translate(0x80300).unwrap().writable());
    assert_eq!(ks.translate(MEMORY_END / PAGE_SIZE), None);
    assert_eq!(ks.translate(0x10000).unwrap().ppn, 0x10000);
    assert_eq!(ks.translate(0x5), None);
}

#[test]
fn user_stack_and_areas() {
    let mut frames = Frames::new(0x100, 0x140);
    let mut ms = MemorySet::new_bare(&mut frames);
    assert_eq!(ms.alloc_user_stack(0x8000, &mut frames), 0x8000);
    for vpn in 4..8 {
        let e = ms.translate(vpn).unwrap();
        assert!(e.is_valid() && e.writable());
        assert_eq!(e.flags, MAP_R | MAP_W | MAP_U | PTE_V);
    }
    assert_eq!(ms.translate(8), None);
    ms.insert_framed_area(0x1800, 0x3001, MAP_R, &mut frames);
    assert!(ms.translate(1).unwrap().is_valid());
    assert!(ms.translate(3).unwrap().is_valid());
    assert_eq!(ms.translate(4).unwrap().flags, MAP_R | MAP_W | MAP_U | PTE_V);
}

#[test]
fn fork_shares_frames_copy_on_write_and_faults_copy_them() {
    let mut frames = Frames::new(0x90000, 0x90100);
    let mut parent = MemorySet::new_bare(&mut frames);
    parent.insert_framed_area(0x1000, 0x3000, MAP_R | MAP_W | MAP_U, &mut frames);
    let p1 = parent.translate(1).unwrap().ppn;
    let mut page = vec![0u8; PAGE_SIZE];
    page[0..5].copy_from_slice(b"hello");
    frames.mem.write_page(p1, page.clone());

    let mut child = MemorySet::from_existing(&mut parent, &layout(), &mut frames);
    let pe = parent.translate(1).unwrap();
    let ce = child.translate(1).unwrap();
    assert_eq!(pe.ppn, p1);
    assert_eq!(ce.ppn, p1);
    assert!(pe.is_cow() && ce.is_cow());
    assert!(!pe.writable() && !ce.writable());
    assert_eq!(frame_refcount_get(&frames.refcounts, p1), 2);
    // The kernel regions are mapped in the child too.
    assert_eq!(child.translate(0x80200).unwrap().ppn, 0x80200);

    // The child writes: it gets its own copy.
    assert!(child.handle_cow_fault(1, &mut frames));
    let ce = child.translate(1).unwrap();
    assert_ne!(ce.ppn, p1);
    assert!(ce.writable() && !ce.is_cow());
    assert_eq!(frames.mem.read_page(ce.ppn), page);
    assert_eq!(frame_refcount_get(&frames.refcounts, p1), 1);

    // The parent writes: it is the last sharer and takes the frame back.
    assert!(parent.handle_cow_fault(1, &mut frames));
    let pe = parent.translate(1).unwrap();
    assert_eq!(pe.ppn, p1);
    assert!(pe.writable() && !pe.is_cow());
    assert_eq!(frame_refcount_get(&frames.refcounts, p1), 0);

    // A page that is writable already needs nothing; an unmapped one fails.
    assert!(parent.handle_cow_fault(1, &mut frames));
    assert!(!parent.handle_cow_fault(40, &mut frames));
}

#[test]
fn elf_segments_are_loaded_with_their_bytes() {
    let mut frames = Frames::new(0x90000, 0x90100);
    let text: Vec<u8> = (1..=20u8).collect();
    let segs = vec![
        ElfSegment { load: true, vaddr: 0x10000, mem_size: 0x1800, flags: 5, data: text.clone() },
        ElfSegment { load: false, vaddr: 0x50000, mem_size: 0x1000, flags: 4, data: vec![9u8; 4] },
        ElfSegment { load: true, vaddr: 0x12010, mem_size: 0x2000, flags: 6, data: vec![0xabu8; 0x1000] },
    ];
    let (ms, top, entry) = MemorySet::from_elf(&segs, 0x10004, &layout(), &mut frames);
    assert_eq!(entry, 0x10004);
    // The last loaded segment ends at page 0x15; a guard page, then 16 KiB of stack.
    assert_eq!(top, 0x16000 + USER_STACK_SIZE);
    let t = ms.translate(0x10).unwrap();
    assert_eq!(t.flags, MAP_R | MAP_X | MAP_U | PTE_V);
    let page = frames.mem.read_page(t.ppn);
    assert_eq!(&page[..20], &text[..]);
    assert!(page[20..].iter().all(|b| *b == 0));
    // The bss part of the first segment reads as zeros.
    assert!(frames.mem.read_page(ms.translate(0x11).unwrap().ppn).iter().all(|b| *b == 0));
    // The second loaded segment starts at offset 0x10 of page 0x12.
    let d = ms.translate(0x12).unwrap();
    assert_eq!(d.flags, MAP_R | MAP_W | MAP_U | PTE_V);
    let p12 = frames.mem.read_page(d.ppn);
    assert_eq!(p12[0x0f], 0);
    assert!(p12[0x10..].iter().all(|b| *b == 0xab));
    let p13 = frames.mem.read_page(ms.translate(0x13).unwrap().ppn);
    assert!(p13[..0x10].iter().all(|b| *b == 0xab));
    assert!(p13[0x10..].iter().all(|b| *b == 0));
    // A segment that is not loaded maps nothing.
    assert_eq!(ms.translate(0x50), None);
    // The guard page is not mapped; the stack is.
    assert_eq!(ms.translate(0x15), None);
    for vpn in 0x16..0x1a {
        assert_eq!(ms.translate(vpn).unwrap().flags, MAP_R | MAP_W | MAP_U | PTE_V);
    }
    assert_eq!(ms.translate(0x1a), None);
    // The trampoline: li a7, 93; li a0, 0; ecall.
    let tr = ms.translate(1).unwrap();
    assert_eq!(tr.flags, MAP_R | MAP_X | MAP_U | PTE_V);
    assert_eq!(
        &frames.mem.read_page(tr.ppn)[..12],
        &[0x93, 0x08, 0xd0, 0x05, 0x13, 0x05, 0x00, 0x00, 0x73, 0x00, 0x00, 0x00]
    );
    // The kernel regions are mapped identically.
    assert_eq!(ms.translate(0x80200).unwrap().ppn, 0x80200);
}

#[test]
fn segment_flags_give_permissions() {
    assert_eq!(perm_of_flags(4), MAP_R | MAP_U);
    assert_eq!(perm_of_flags(6), MAP_R | MAP_W | MAP_U);
    assert_eq!(perm_of_flags(5), MAP_R | MAP_X | MAP_U);
    assert_eq!(perm_of_flags(0), MAP_U);
}

#[test]
fn elf_loadable_checks_what_the_loader_needs() {
    let seg = |vaddr: usize, mem_size: usize, len: usize| ElfSegment {
        load: true,
        vaddr,
        mem_size,
        flags: 4,
        data: vec![1u8; len],
    };
    // Two pages of segment, root, four stack pages and the trampoline.
    assert!(check_elf_loadable(&vec![seg(0x10000, 0x2000, 0x10)], &layout(), 8));
    assert!(!check_elf_loadable(&vec![seg(0x10000, 0x2000, 0x10)], &layout(), 7));
    // More file bytes than memory.
    assert!(!check_elf_loadable(&vec![seg(0x10000, 0x10, 0x20)], &layout(), 100));
    // A segment on kernel pages.
    assert!(!check_elf_loadable(&vec![seg(0x8020_0000, 0x1000, 0)], &layout(), 100));
    // An empty area at a page boundary.
    assert!(!check_elf_loadable(&vec![seg(0x10000, 0, 0)], &layout(), 100));
    // A segment that runs past the address space.
    assert!(!check_elf_loadable(&vec![seg(usize::MAX - 0x10, 0x100, 0)], &layout(), 100));
    // A segment that is not loaded is not checked.
    let mut skipped = seg(0x8020_0000, 0x10, 0x20);
    skipped.load = false;
    assert!(check_elf_loadable(&vec![skipped], &layout(), 6));
}

#[test]
fn removing_an_area_unmaps_it_and_frees_its_frames() {
    let mut frames = Frames::new(0x200, 0x210);
    let mut ms = MemorySet::new_bare(&mut frames);
    ms.insert_framed_area(0x1000, 0x3000, MAP_R | MAP_W | MAP_U, &mut frames);
    let p1 = ms.translate(1).unwrap().ppn;
    let p2 = ms.translate(2).unwrap().ppn;
    // No area starts at page 2: nothing changes.
    ms.remove_area_with_start_vpn(2, &mut frames);
    assert_eq!(ms.translate(2).unwrap().ppn, p2);
    ms.remove_area_with_start_vpn(1, &mut frames);
    let e = PageTableEntry { ppn: 0, flags: 0, cow: false };
    assert_eq!(ms.translate(1), Some(e));
    assert_eq!(ms.translate(2), Some(e));
    // The freed frames come back, the last freed first.
    assert_eq!(frames.alloc_frame(), Some(p2));
    assert_eq!(frames.alloc_frame(), Some(p1));
}

#[test]
fn unmapping_pages_of_an_area() {
    let mut frames = Frames::new(0x300, 0x310);
    let mut pt = PageTable::new(&mut frames);
    let mut area = MapArea::new(0x4000, 0x6000, MapType::Framed, MAP_R | MAP_U);
    area.map(&mut pt, &mut frames);
    let p5 = pt.translate(5).unwrap().ppn;
    area.unmap_one(&mut pt, 5, &mut frames);
    assert_eq!(pt.translate(5).unwrap().flags, 0);
    assert!(pt.translate(4).unwrap().is_valid());
    assert_eq!(frames.alloc_frame(), Some(p5));
    // An identical area gives back no frame.
    let mut ident = MapArea::new(0x8000, 0x9000, MapType::Identical, MAP_R);
    ident.map(&mut pt, &mut frames);
    assert_eq!(pt.translate(8).unwrap().ppn, 8);
    ident.unmap(&mut pt, &mut frames);
    assert_eq!(pt.translate(8).unwrap().flags, 0);
}

#[test]
fn a_forked_thread_sees_fork_return_zero() {
    let mut parent = TrapContext::app_init_context(0x1000, 0x8000, 7, 0x9000, 0x42, 0x100);
    parent.x[10] = 55;
    parent.x[11] = 3;
    let child = TrapContext::fork_from(&parent, 0xa000, 9);
    assert_eq!(child.x[10], 0);
    assert_eq!(child.x[11], 3);
    assert_eq!(child.x[2], 0x8000);
    assert_eq!(child.sepc, 0x1000);
    assert_eq!(child.kernel_sp, 0xa000);
    assert_eq!(child.kernel_satp, 9);
    assert_eq!(child.trap_handler, 0x42);
    assert_eq!(child.sstatus, parent.sstatus);
    // A new thread returns to user mode with interrupts on.
    assert_eq!(parent.sstatus, 0x20);
}

#[test]
fn spinlock_lets_lockers_in_in_ticket_order() {
    let mut lock = SpinLock::new(10u32);
    let a = lock.take_ticket();
    let b = lock.take_ticket();
    let c = lock.take_ticket();
    assert_eq!((a, b, c), (0, 1, 2));
    assert!(lock.serves(a) && !lock.serves(b) && !lock.serves(c));
    assert!(lock.try_enter(b, true).is_none());
    let ga = lock.try_enter(a, true).unwrap();
    lock.set(&ga, 11);
    assert_eq!(*lock.get(&ga), 11);
    // Interrupts were on before A locked: they go back on.
    assert!(lock.unlock(ga));
    assert!(lock.serves(b) && !lock.serves(c));
    let gb = lock.try_enter(b, false).unwrap();
    assert_eq!(*lock.get(&gb), 11);
    assert!(!lock.unlock(gb));
    assert!(lock.serves(c));
}

#[test]
fn exec_replaces_the_program_and_clears_pending_signals() {
    let mut info = proc_info(7);
    info.signal_pending = 0b101;
    info.signal_mask = 0b10;
    assert_eq!(info.getpid(), 7);
    let mut frames = Frames::new(0x90000, 0x90100);
    let segs = vec![ElfSegment { load: true, vaddr: 0x10000, mem_size: 0x1000, flags: 5, data: vec![0x13u8; 8] }];
    let (ms, cx) = exec(&mut info, &segs, 0x10000, &layout(), &mut frames, 3, 0x9000, 0x42, 0);
    assert_eq!(info.signal_pending, 0);
    assert_eq!(info.signal_mask, 0b10);
    assert_eq!(info.pid, 7);
    assert_eq!(cx.sepc, 0x10000);
    assert_eq!(cx.x[2], 0x12000 + USER_STACK_SIZE);
    assert_eq!(cx.kernel_satp, 3);
    assert_eq!(cx.kernel_sp, 0x9000);
    assert_eq!(cx.trap_handler, 0x42);
    assert!(ms.translate(0x10).unwrap().is_valid());
}

#[test]
fn kernel_pages_carry_their_region_permissions_and_no_user_bit() {
    let mut frames = Frames::new(0x80400, 0x80500);
    let ks = MemorySet::new_kernel(&layout(), &mut frames);
    let text = ks.translate(0x80200).unwrap();
    assert_eq!(text.flags, MAP_R | MAP_X | PTE_V);
    assert!(!text.cow);
    assert_eq!(ks.translate(0x80202).unwrap().flags, MAP_R | PTE_V);
    assert_eq!(ks.translate(0x80203).unwrap().flags, MAP_R | MAP_W | PTE_V);
    assert_eq!(ks.translate(0x10000).unwrap().flags, MAP_R | MAP_W | PTE_V);
    assert_eq!(ks.translate(0x80200).unwrap().flags & MAP_U, 0);
}

#[test]
fn frame_alloc_hands_back_the_frame_just_freed() {
    let mut refs = FrameRefcounts::new();
    let mut a = StackFrameAllocator::new();
    a.init(10, 20);
    let p = frame_alloc(&mut a).unwrap().ppn;
    let q = frame_alloc(&mut a).unwrap().ppn;
    assert_eq!((p, q), (10, 11));
    frame_refcount_register(&mut refs, p);
    assert_eq!(frame_refcount_dec(&mut refs, &mut a, p), 0);
    assert_eq!(frame_alloc(&mut a).unwrap().ppn, p);
    assert_eq!(frame_alloc(&mut a).unwrap().ppn, 12);
}

#[test]
fn unlocking_a_mutex_wakes_the_waiter_that_gets_it() {
    let h = Harts::new();
    let mut s = Schedulers::new();
    let mut t = SyncTables::new();
    let mut inner = new_process_inner(0x10000);
    let (tid, _) = sys_thread_create(&mut inner, 0x20000);
    let m = sys_mutex_create(&mut t) as usize;
    assert_eq!(sys_mutex_lock(&mut t, m, 0), (0, false));
    assert_eq!(sys_mutex_lock(&mut t, m, tid), (0, true));
    inner.threads[tid].as_mut().unwrap().status = ThreadStatus::Blocked;
    assert_eq!(sys_mutex_unlock_wake(&mut t, m, &mut inner, 7, &mut s, &h), 0);
    assert_eq!(inner.threads[tid].as_ref().unwrap().status, ThreadStatus::Ready);
    assert_eq!(task_count(&s), 1);
    assert_eq!(fetch_task(&mut s, 0, &h), Some(QueuedTask { pid: 7, tid }));
    assert_eq!(sys_mutex_unlock_wake(&mut t, 9, &mut inner, 7, &mut s, &h), -1);
}

#[test]
fn syscall_return_steps_past_the_ecall_and_sets_a0() {
    let mut cx = TrapContext::app_init_context(0, 0, 0, 0, 0, 0);
    cx.x[17] = 64;
    cx.x[10] = 1;
    cx.x[11] = 2;
    cx.x[12] = 3;
    cx.sepc = 0x1000;
    assert_eq!(cx.syscall_request(), (64, [1, 2, 3]));
    cx.skip_ecall();
    cx.set_syscall_result(-1);
    assert_eq!(cx.sepc, 0x1004);
    assert_eq!(cx.x[10], usize::MAX);
}

#[test]
fn switching_to_the_global_queue_moves_every_queued_thread() {
    let h = Harts::new();
    let mut s = Schedulers::new();
    set_scheduler(&mut s, SchedulerType::PerCpuWorkStealing, &h);
    add_task(&mut s, QueuedTask { pid: 1, tid: 0 }, &h);
    add_task(&mut s, QueuedTask { pid: 2, tid: 0 }, &h);
    add_task(&mut s, QueuedTask { pid: 3, tid: 0 }, &h);
    assert_eq!(task_count(&s), 3);
    set_scheduler(&mut s, SchedulerType::GlobalRoundRobin, &h);
    assert_eq!(task_count(&s), 3);
    let mut got = Vec::new();
    while let Some(t) = fetch_task(&mut s, 0, &h) {
        got.push(t.pid);
    }
    got.sort();
    assert_eq!(got, vec![1, 2, 3]);
}
