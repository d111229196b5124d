use vstd::prelude::*;
use crate::kern::config::{PAGE_SIZE, THREAD_EXIT_TRAMPOLINE, USER_STACK_SIZE, MEMORY_END, UART_BASE, PLIC_BASE, VIRTIO0_BASE};
use crate::kern::mm::{
    PageTableEntry, Frames, MapArea, MapType, AreaShape, Region, shape_of, maps_valid, in_regions, mapped_range,
    zero_page, copied, KernelLayout, kernel_space_regions, ceil_vpn, region_has, MAP_R, MAP_W, MAP_X, MAP_U,
};

verus! {

/// A program header of an ELF file as the loader reads it: whether the
/// segment is to be loaded, its virtual address, its size in memory, its
/// flags (read 4, write 2, execute 1) and the bytes the file holds for it.
pub struct ElfSegment {
    pub load: bool,
    pub vaddr: usize,
    pub mem_size: usize,
    pub flags: u32,
    pub data: Vec<u8>,
}

/// The permission of a segment with `flags`: user, and read, write and
/// execute as the flags say.
pub open spec fn segment_perm(flags: u32) -> u8 {
    MAP_U | (if flags & 4 != 0 { MAP_R } else { 0u8 }) | (if flags & 2 != 0 { MAP_W } else { 0u8 }) | (if flags & 1 != 0 {
        MAP_X
    } else {
        0u8
    })
}

/// The permission of a segment with `flags` (see `segment_perm`).
pub fn perm_of_flags(flags: u32) -> (p: u8)
    ensures
        p == segment_perm(flags),
{
    let r = if flags & 4 != 0 { MAP_R } else { 0u8 };
    let w = if flags & 2 != 0 { MAP_W } else { 0u8 };
    let x = if flags & 1 != 0 { MAP_X } else { 0u8 };
    MAP_U | r | w | x
}

/// The framed area of segment `s`.
pub open spec fn segment_shape(s: ElfSegment) -> AreaShape {
    shape_of(s.vaddr, (s.vaddr + s.mem_size) as usize, MapType::Framed, segment_perm(s.flags))
}

/// The areas of the loaded segments among the first `n`, in order.
pub open spec fn load_shapes(segs: Seq<ElfSegment>, n: int) -> Seq<AreaShape>
    decreases n,
{
    if n <= 0 {
        Seq::empty()
    } else if segs[n - 1].load {
        load_shapes(segs, n - 1).push(segment_shape(segs[n - 1]))
    } else {
        load_shapes(segs, n - 1)
    }
}

/// The page after the area of the last loaded segment among the first
/// `n`; 0 when there is none.
pub open spec fn last_load_end(segs: Seq<ElfSegment>, n: int) -> usize
    decreases n,
{
    if n <= 0 {
        0
    } else if segs[n - 1].load {
        segment_shape(segs[n - 1]).end
    } else {
        last_load_end(segs, n - 1)
    }
}

/// The pages of the areas of the loaded segments among the first `n`,
/// counted with repeats.
pub open spec fn load_pages(segs: Seq<ElfSegment>, n: int) -> int
    decreases n,
{
    if n <= 0 {
        0
    } else if segs[n - 1].load {
        load_pages(segs, n - 1) + (segment_shape(segs[n - 1]).end - segment_shape(segs[n - 1]).start)
    } else {
        load_pages(segs, n - 1)
    }
}

/// Page `v` lies in the area of a loaded segment among the first `n`.
pub open spec fn elf_page(segs: Seq<ElfSegment>, n: int, v: usize) -> bool
    decreases n,
{
    if n <= 0 {
        false
    } else {
        (segs[n - 1].load && segment_shape(segs[n - 1]).start <= v < segment_shape(segs[n - 1]).end) || elf_page(segs, n - 1, v)
    }
}

/// The byte at address `va` that the last of the first `n` loaded
/// segments whose file bytes cover it puts there.
pub open spec fn loaded_byte(segs: Seq<ElfSegment>, n: int, va: int) -> Option<u8>
    decreases n,
{
    if n <= 0 {
        None
    } else if segs[n - 1].load && segs[n - 1].vaddr <= va < segs[n - 1].vaddr + segs[n - 1].data@.len() {
        Some(segs[n - 1].data@[va - segs[n - 1].vaddr])
    } else {
        loaded_byte(segs, n - 1, va)
    }
}

/// The byte, or zero.
pub open spec fn byte_or_zero(b: Option<u8>) -> u8 {
    match b {
        Some(x) => x,
        None => 0,
    }
}

/// The code of the thread exit trampoline: `li a7, 93; li a0, 0; ecall`.
pub open spec fn trampoline_code() -> Seq<u8> {
    seq![0x93u8, 0x08u8, 0xd0u8, 0x05u8, 0x13u8, 0x05u8, 0x00u8, 0x00u8, 0x73u8, 0x00u8, 0x00u8, 0x00u8]
}

/// The page of the thread exit trampoline.
pub open spec fn trampoline_page() -> usize {
    (THREAD_EXIT_TRAMPOLINE / PAGE_SIZE) as usize
}

/// The user pages of table `t`, those `user` holds, lie outside the kernel
/// regions `kr` and are mapped, each to a frame of its own that is in use
/// and holds a page whose byte `i` is `expect` of the page's address plus
/// `i`. The table maps exactly the kernel pages, each to the frame of its
/// own number, and the user pages.
pub open spec fn user_inv(
    t: Map<usize, PageTableEntry>,
    f: Frames,
    kr: Seq<Region>,
    user: spec_fn(usize) -> bool,
    expect: spec_fn(int) -> u8,
) -> bool {
    &&& forall|v: usize| #[trigger] t.contains_key(v) <==> in_regions(kr, 7, v) || user(v)
    &&& forall|v: usize| #[trigger] in_regions(kr, 7, v) ==> t[v].ppn == v && crate::kern::mm::has_flag(t[v].flags, crate::kern::mm::PTE_V)
    &&& forall|v: usize| #[trigger] user(v) ==> !in_regions(kr, 7, v) && maps_valid(t, v)
    &&& forall|v1: usize, v2: usize| #[trigger] user(v1) && #[trigger] user(v2) && v1 != v2 ==> t[v1].ppn != t[v2].ppn
    &&& forall|v: usize| #[trigger] user(v) ==> !f.allocator.free_frames().contains(t[v].ppn)
    &&& forall|v: usize| #[trigger] user(v) ==> f.mem.page(t[v].ppn).len() == PAGE_SIZE
    &&& forall|v: usize, i: int| #[trigger] user(v) && 0 <= i < PAGE_SIZE ==> #[trigger] f.mem.page(t[v].ppn)[i] == expect(
        v * PAGE_SIZE + i,
    )
}

/// Mapping a framed area of pages outside the kernel regions adds its
/// pages to the user pages: a page mapped before keeps its frame and bytes,
/// a new one reads as zeros, which is what is expected of it.
pub proof fn lemma_user_map(
    t0: Map<usize, PageTableEntry>,
    t1: Map<usize, PageTableEntry>,
    f0: Frames,
    f1: Frames,
    kr: Seq<Region>,
    user: spec_fn(usize) -> bool,
    expect: spec_fn(int) -> u8,
    sh: AreaShape,
    a1: MapArea,
)
    requires
        user_inv(t0, f0, kr, user, expect),
        mapped_range(sh, Map::<usize, usize>::empty(), Map::<usize, usize>::empty(), a1, t0, t1, f0, f1, sh.end as int),
        sh.map_type == MapType::Framed,
        forall|v: usize| sh.start <= v < sh.end ==> !#[trigger] in_regions(kr, 7, v),
        forall|v: usize, i: int| sh.start <= v < sh.end && !user(v) && 0 <= i < PAGE_SIZE ==> #[trigger] expect(v * PAGE_SIZE + i) == 0,
    ensures
        user_inv(t1, f1, kr, |v: usize| user(v) || sh.start <= v < sh.end, expect),
{
    let user2 = |v: usize| user(v) || sh.start <= v < sh.end;
    assert forall|v: usize| #[trigger] t1.contains_key(v) <==> in_regions(kr, 7, v) || user2(v) by {
        if sh.start <= v < sh.end {
            assert(maps_valid(t1, v));
        }
    }
    assert forall|v: usize| #[trigger] in_regions(kr, 7, v) implies t1[v].ppn == v && crate::kern::mm::has_flag(t1[v].flags, crate::kern::mm::PTE_V) by {
        assert(t0.contains_key(v));
        assert(!(sh.start <= v < sh.end));
        assert(t1.contains_key(v) == t0.contains_key(v));
    }
    assert forall|v: usize| #[trigger] user2(v) implies !in_regions(kr, 7, v) && maps_valid(t1, v) by {
        if sh.start <= v < sh.end {
            assert(!in_regions(kr, 7, v));
            assert(maps_valid(t1, v));
        } else {
            assert(user(v));
            assert(maps_valid(t0, v));
            assert(t1.contains_key(v) == t0.contains_key(v));
            assert(t1[v] == t0[v]);
        }
    }
    // A page that was not a user page before gets a fresh frame.
    assert forall|v: usize| #[trigger] user2(v) && !user(v) implies !maps_valid(t0, v) && a1.data().contains_key(v)
        && t1[v].ppn == a1.data()[v] && f0.allocator.free_frames().contains(t1[v].ppn)
        && !f1.allocator.free_frames().contains(t1[v].ppn) && !f1.mem@.contains_key(t1[v].ppn) by {
        assert(sh.start <= v < sh.end);
        assert(!in_regions(kr, 7, v));
        assert(!t0.contains_key(v));
    }
    // A user page keeps its frame, which was in use.
    assert forall|v: usize| #[trigger] user(v) implies t1[v].ppn == t0[v].ppn && !f0.allocator.free_frames().contains(t1[v].ppn)
        && f1.mem.page(t1[v].ppn) == f0.mem.page(t0[v].ppn) by {
        assert(maps_valid(t0, v));
        if !(sh.start <= v < sh.end) {
            assert(t0.contains_key(v));
            assert(t1.contains_key(v) == t0.contains_key(v));
            assert(t1[v] == t0[v]);
        } else {
            assert(t1[v].ppn == t0[v].ppn);
        }
        assert(!f0.allocator.free_frames().contains(t0[v].ppn));
        assert(f1.mem.page(t0[v].ppn) == f0.mem.page(t0[v].ppn));
    }
    assert forall|v1: usize, v2: usize| #[trigger] user2(v1) && #[trigger] user2(v2) && v1 != v2 implies t1[v1].ppn != t1[v2].ppn by {
        if user(v1) && user(v2) {
        } else if !user(v1) && !user(v2) {
            assert(sh.start <= v1 < sh.end && !maps_valid(t0, v1));
            assert(sh.start <= v2 < sh.end && !maps_valid(t0, v2));
            assert(a1.data()[v1] != a1.data()[v2]);
        } else if user(v1) {
            assert(user2(v2) && !user(v2));
        } else {
            assert(user2(v1) && !user(v1));
        }
    }
    assert forall|v: usize| #[trigger] user2(v) implies !f1.allocator.free_frames().contains(t1[v].ppn) by {
        if user(v) {
            if f1.allocator.free_frames().contains(t1[v].ppn) {
                assert(f0.allocator.free_frames().contains(t1[v].ppn));
            }
        }
    }
    assert forall|v: usize| #[trigger] user2(v) implies f1.mem.page(t1[v].ppn).len() == PAGE_SIZE by {
        if !user(v) {
            assert(!f1.mem@.contains_key(t1[v].ppn));
        }
    }
    assert forall|v: usize, i: int| #[trigger] user2(v) && 0 <= i < PAGE_SIZE implies #[trigger] f1.mem.page(t1[v].ppn)[i] == expect(
        v * PAGE_SIZE + i,
    ) by {
        if !user(v) {
            assert(!f1.mem@.contains_key(t1[v].ppn));
            assert(f1.mem.page(t1[v].ppn) == zero_page());
            assert(sh.start <= v < sh.end);
        } else {
            assert(f0.mem.page(t0[v].ppn)[i] == expect(v * PAGE_SIZE + i));
        }
    }
}

/// Copying `data` to address `va0` through the user pages `first ..=
/// last` changes what is expected exactly at those addresses.
pub proof fn lemma_user_copy(
    t: Map<usize, PageTableEntry>,
    f0: Frames,
    f1: Frames,
    kr: Seq<Region>,
    user: spec_fn(usize) -> bool,
    expect: spec_fn(int) -> u8,
    first: int,
    last: int,
    va0: int,
    data: Seq<u8>,
)
    requires
        user_inv(t, f0, kr, user, expect),
        copied(t, f0.mem, f1.mem, first, last, va0, data),
        f1.allocator == f0.allocator,
        forall|v: usize| first <= v <= last ==> #[trigger] user(v),
        first * PAGE_SIZE <= va0,
        va0 + data.len() <= (last + 1) * PAGE_SIZE,
    ensures
        user_inv(t, f1, kr, user, |va: int| if va0 <= va < va0 + data.len() { data[va - va0] } else { expect(va) }),
{
    let expect2 = |va: int| if va0 <= va < va0 + data.len() { data[va - va0] } else { expect(va) };
    // The frame of a user page outside `first ..= last` is untouched.
    assert forall|v: usize| #[trigger] user(v) && !(first <= v <= last) implies f1.mem.page(t[v].ppn) == f0.mem.page(t[v].ppn) by {
        if f1.mem.page(t[v].ppn) != f0.mem.page(t[v].ppn) {
            let w = choose|w: usize| first <= w <= last && t[w].ppn == t[v].ppn;
            assert(user(w));
        }
    }
    assert forall|v: usize| #[trigger] user(v) implies f1.mem.page(t[v].ppn).len() == PAGE_SIZE by {
        if !(first <= v <= last) {
            assert(f1.mem.page(t[v].ppn) == f0.mem.page(t[v].ppn));
        }
    }
    assert forall|v: usize, i: int| #[trigger] user(v) && 0 <= i < PAGE_SIZE implies #[trigger] f1.mem.page(t[v].ppn)[i] == expect2(
        v * PAGE_SIZE + i,
    ) by {
        assert(f0.mem.page(t[v].ppn)[i] == expect(v * PAGE_SIZE + i));
        if !(first <= v <= last) {
            assert(f1.mem.page(t[v].ppn) == f0.mem.page(t[v].ppn));
            if v < first {
                assert(v * 4096 + i < first * 4096) by (nonlinear_arith)
                    requires v < first, i < 4096;
            } else {
                assert(v * 4096 + i >= (last + 1) * 4096) by (nonlinear_arith)
                    requires v > last, i >= 0;
            }
        }
    }
}

/// A loaded segment the loader can take: it fits in the address space,
/// the file holds no more bytes than it takes in memory, its area has a
/// page, and none of its pages is one of the kernel's.
pub open spec fn elf_segment_ok(s: ElfSegment, layout: KernelLayout) -> bool {
    &&& s.vaddr + s.mem_size <= usize::MAX
    &&& s.data@.len() <= s.mem_size
    &&& segment_shape(s).start < segment_shape(s).end
    &&& forall|v: usize| segment_shape(s).start <= v < segment_shape(s).end ==> !#[trigger] in_regions(kernel_space_regions(layout), 7, v)
}

/// A byte that a segment puts at an address lies in a page of its area.
pub proof fn lemma_loaded_in_pages(segs: Seq<ElfSegment>, n: int, layout: KernelLayout, va: int)
    requires
        n <= segs.len(),
        forall|i: int| 0 <= i < n && #[trigger] segs[i].load ==> elf_segment_ok(segs[i], layout),
        0 <= va,
    ensures
        loaded_byte(segs, n, va) is Some ==> elf_page(segs, n, (va / (PAGE_SIZE as int)) as usize),
    decreases n,
{
    if n > 0 {
        let s = segs[n - 1];
        if s.load && s.vaddr <= va < s.vaddr + s.data@.len() {
            assert(elf_segment_ok(s, layout));
            let e = s.vaddr + s.mem_size;
            assert(s.vaddr / 4096 <= va / 4096) by (nonlinear_arith)
                requires s.vaddr <= va;
            assert(va / 4096 < ceil_vpn(e as usize)) by (nonlinear_arith)
                requires va < e, ceil_vpn(e as usize) == (if e % 4096 == 0 { e / 4096 } else { e / 4096 + 1 });
        } else {
            lemma_loaded_in_pages(segs, n - 1, layout, va);
        }
    }
}

/// Outside the pages of the loaded segments nothing is loaded: the loader
/// expects zeros there.
pub proof fn lemma_zero_outside(segs: Seq<ElfSegment>, n: int, layout: KernelLayout, v: usize, i: int)
    requires
        n <= segs.len(),
        forall|j: int| 0 <= j < n && #[trigger] segs[j].load ==> elf_segment_ok(segs[j], layout),
        !elf_page(segs, n, v),
        0 <= i < PAGE_SIZE,
    ensures
        byte_or_zero(loaded_byte(segs, n, v * PAGE_SIZE + i)) == 0,
{
    lemma_loaded_in_pages(segs, n, layout, v * PAGE_SIZE + i);
    assert((v * 4096 + i) / 4096 == v) by (nonlinear_arith)
        requires 0 <= i < 4096;
}

/// The page count of the loaded segments grows with the segments taken.
pub proof fn lemma_load_pages_grow(segs: Seq<ElfSegment>, i: int, n: int, layout: KernelLayout)
    requires
        0 <= i <= n <= segs.len(),
        forall|k: int| 0 <= k < n && #[trigger] segs[k].load ==> elf_segment_ok(segs[k], layout),
    ensures
        0 <= load_pages(segs, i) <= load_pages(segs, n),
    decreases n,
{
    if n > i {
        lemma_load_pages_grow(segs, i, n - 1, layout);
        if segs[n - 1].load {
            assert(elf_segment_ok(segs[n - 1], layout));
        }
    } else if n > 0 {
        lemma_load_pages_grow(segs, 0, n - 1, layout);
        if segs[n - 1].load {
            assert(elf_segment_ok(segs[n - 1], layout));
        }
    }
}

/// What the loader needs of program headers `segs`, with `available`
/// free frames: frames for the root directory, every page of the loaded
/// segments, the stack and the trampoline; loaded segments it can take;
/// a stack above the last loaded segment within the address space; and
/// neither the stack nor the trampoline on a kernel page.
pub open spec fn elf_loadable(segs: Seq<ElfSegment>, layout: KernelLayout, available: int) -> bool {
    let n = segs.len() as int;
    let lo = last_load_end(segs, n) + 1;
    &&& available >= 6 + load_pages(segs, n)
    &&& forall|i: int| 0 <= i < n && #[trigger] segs[i].load ==> elf_segment_ok(segs[i], layout)
    &&& lo * PAGE_SIZE + USER_STACK_SIZE <= usize::MAX
    &&& forall|v: usize| lo <= v < lo + 4 ==> !#[trigger] in_regions(kernel_space_regions(layout), 7, v)
    &&& !in_regions(kernel_space_regions(layout), 7, trampoline_page())
}

/// The page after the last page that address `x` rounded up reaches.
fn ceil_page(x: usize) -> (p: usize)
    ensures
        p == ceil_vpn(x),
{
    if x % PAGE_SIZE == 0 {
        x / PAGE_SIZE
    } else {
        x / PAGE_SIZE + 1
    }
}

/// None of the pages `s .. e` is a kernel page.
fn pages_clear(s: usize, e: usize, layout: &KernelLayout) -> (b: bool)
    ensures
        b == forall|v: usize| s <= v < e ==> !#[trigger] in_regions(kernel_space_regions(*layout), 7, v),
{
    let ghost kr = kernel_space_regions(*layout);
    let mut regions: Vec<Region> = Vec::new();
    regions.push((layout.stext, layout.etext, MAP_R | MAP_X));
    regions.push((layout.srodata, layout.erodata, MAP_R));
    regions.push((layout.sdata, layout.ebss, MAP_R | MAP_W));
    regions.push((layout.ekernel, MEMORY_END, MAP_R | MAP_W));
    regions.push((UART_BASE, UART_BASE + 0x1000, MAP_R | MAP_W));
    regions.push((PLIC_BASE, PLIC_BASE + 0x40_0000, MAP_R | MAP_W));
    regions.push((VIRTIO0_BASE, VIRTIO0_BASE + 0x1000, MAP_R | MAP_W));
    proof {
        assert(regions@ =~= kr);
    }
    if e <= s {
        return true;
    }
    let mut j: usize = 0;
    while j < 7
        invariant
            j <= 7,
            s < e,
            regions@ == kr,
            kr == kernel_space_regions(*layout),
            kr.len() == 7,
            forall|k: int, v: usize| 0 <= k < j && s <= v < e ==> !#[trigger] region_has(kr[k], v),
        decreases 7 - j,
    {
        let r = regions[j];
        let rs = r.0 / PAGE_SIZE;
        let re = ceil_page(r.1);
        let lo = if s < rs { rs } else { s };
        let hi = if e < re { e } else { re };
        if lo < hi {
            proof {
                assert(region_has(kr[j as int], lo));
                assert(in_regions(kr, 7, lo));
                assert(s <= lo < e);
            }
            return false;
        }
        j = j + 1;
    }
    proof {
        assert forall|v: usize| s <= v < e implies !#[trigger] in_regions(kr, 7, v) by {
            if in_regions(kr, 7, v) {
                let k = choose|k: int| 0 <= k < 7 && #[trigger] region_has(kr[k], v);
                assert(!region_has(kr[k], v));
            }
        }
    }
    true
}

/// Whether the loader can take program headers `segs` with `available`
/// free frames (see `elf_loadable`).
pub fn check_elf_loadable(segs: &Vec<ElfSegment>, layout: &KernelLayout, available: usize) -> (b: bool)
    ensures
        b == elf_loadable(segs@, *layout, available as int),
{
    let ghost n = segs@.len() as int;
    let mut pages: usize = 0;
    let mut big = false;
    let mut last_end: usize = 0;
    let mut ok = true;
    let mut i: usize = 0;
    while i < segs.len()
        invariant
            i <= segs@.len(),
            n == segs@.len(),
            ok == (forall|k: int| 0 <= k < i && #[trigger] segs@[k].load ==> elf_segment_ok(segs@[k], *layout)),
            ok ==> last_end == last_load_end(segs@, i as int),
            last_end <= usize::MAX / PAGE_SIZE + 1,
            ok && !big ==> pages == load_pages(segs@, i as int),
            ok && big ==> load_pages(segs@, i as int) > usize::MAX,
        decreases segs@.len() - i,
    {
        let seg = &segs[i];
        proof {
            if ok {
                lemma_load_pages_grow(segs@, i as int, i as int, *layout);
            }
        }
        if seg.load {
            let good = match seg.vaddr.checked_add(seg.mem_size) {
                Some(end_va) => {
                    let sp = seg.vaddr / PAGE_SIZE;
                    let ep = ceil_page(end_va);
                    if seg.data.len() <= seg.mem_size && sp < ep && pages_clear(sp, ep, layout) {
                        if ok && !big {
                            match pages.checked_add(ep - sp) {
                                Some(p) => {
                                    pages = p;
                                },
                                None => {
                                    big = true;
                                },
                            }
                        }
                        proof {
                            assert(end_va / 4096 <= usize::MAX / 4096) by (nonlinear_arith)
                                requires end_va <= usize::MAX;
                        }
                        last_end = ep;
                        true
                    } else {
                        false
                    }
                },
                None => false,
            };
            proof {
                assert(good == elf_segment_ok(*seg, *layout));
            }
            if !good {
                ok = false;
                proof {
                    assert(!elf_segment_ok(segs@[i as int], *layout));
                }
            }
        }
        proof {
            if ok {
                assert forall|k: int| 0 <= k < i + 1 && #[trigger] segs@[k].load implies elf_segment_ok(segs@[k], *layout) by {}
            } else if !seg.load || (forall|k: int| 0 <= k < i && #[trigger] segs@[k].load ==> elf_segment_ok(segs@[k], *layout)) {
                if !seg.load {
                    let k = choose|k: int| 0 <= k < i && #[trigger] segs@[k].load && !elf_segment_ok(segs@[k], *layout);
                    assert(0 <= k < i + 1 && segs@[k].load && !elf_segment_ok(segs@[k], *layout));
                } else {
                    assert(0 <= i < i + 1 && segs@[i as int].load && !elf_segment_ok(segs@[i as int], *layout));
                }
            } else {
                let k = choose|k: int| 0 <= k < i && #[trigger] segs@[k].load && !elf_segment_ok(segs@[k], *layout);
                assert(0 <= k < i + 1 && segs@[k].load && !elf_segment_ok(segs@[k], *layout));
            }
        }
        i = i + 1;
    }
    if !ok || big {
        return false;
    }
    proof {
        lemma_load_pages_grow(segs@, n, n, *layout);
    }
    if available < 6 || available - 6 < pages {
        return false;
    }
    let lo = last_end + 1;
    if lo > (usize::MAX - USER_STACK_SIZE) / PAGE_SIZE {
        proof {
            assert(lo * 4096 + 0x4000 > usize::MAX) by (nonlinear_arith)
                requires lo > (usize::MAX - 0x4000) / 4096;
        }
        return false;
    }
    proof {
        assert(lo * 4096 + 0x4000 <= usize::MAX) by (nonlinear_arith)
            requires lo <= (usize::MAX - 0x4000) / 4096;
    }
    if !pages_clear(lo, lo + 4, layout) {
        return false;
    }
    pages_clear(THREAD_EXIT_TRAMPOLINE / PAGE_SIZE, THREAD_EXIT_TRAMPOLINE / PAGE_SIZE + 1, layout)
}

} // verus!
