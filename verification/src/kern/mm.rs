use vstd::prelude::*;
use std::collections::BTreeMap;
use crate::kern::config::{PAGE_SIZE, MEMORY_END, UART_BASE, PLIC_BASE, VIRTIO0_BASE, USER_STACK_SIZE, THREAD_EXIT_TRAMPOLINE};
use crate::kern::elf::{
    ElfSegment, user_inv, lemma_user_map, lemma_user_copy, trampoline_code, trampoline_page, perm_of_flags, segment_shape,
    load_shapes, last_load_end, load_pages, elf_page, loaded_byte, byte_or_zero, elf_segment_ok, lemma_zero_outside,
    lemma_load_pages_grow, elf_loadable,
};
use crate::kern::frame::{
    StackFrameAllocator, FrameRefcounts, frame_alloc, frame_refcount_dec,
};

verus! {

/// Entry flag: the entry is valid.
pub const PTE_V: u8 = 1;
/// Entry flag: readable.
pub const PTE_R: u8 = 2;
/// Entry flag: writable.
pub const PTE_W: u8 = 4;
/// Entry flag: executable.
pub const PTE_X: u8 = 8;
/// Entry flag: reachable from user mode.
pub const PTE_U: u8 = 16;

/// Map permission: read (the same bit as the entry flag it becomes).
pub const MAP_R: u8 = 2;
/// Map permission: write.
pub const MAP_W: u8 = 4;
/// Map permission: execute.
pub const MAP_X: u8 = 8;
/// Map permission: user.
pub const MAP_U: u8 = 16;

/// A page table entry: the physical page, the flag bits and the
/// copy-on-write mark (a bit reserved for software).
#[derive(Clone, Copy, Debug, PartialEq, Eq, Structural)]
pub struct PageTableEntry {
    pub ppn: usize,
    pub flags: u8,
    pub cow: bool,
}

/// Flag `f` is set in `flags`.
pub open spec fn has_flag(flags: u8, f: u8) -> bool {
    flags & f != 0
}

impl PageTableEntry {
    /// The all-zero entry.
    pub fn empty() -> (e: Self)
        ensures
            e == (PageTableEntry { ppn: 0, flags: 0, cow: false }),
    {
        PageTableEntry { ppn: 0, flags: 0, cow: false }
    }

    /// An entry for page `ppn` with `flags`, not copy-on-write.
    pub fn new(ppn: usize, flags: u8) -> (e: Self)
        ensures
            e == (PageTableEntry { ppn, flags, cow: false }),
    {
        PageTableEntry { ppn, flags, cow: false }
    }

    /// The valid bit.
    pub fn is_valid(&self) -> (b: bool)
        ensures
            b == has_flag(self.flags, PTE_V),
    {
        self.flags & PTE_V != 0
    }

    /// The write bit.
    pub fn writable(&self) -> (b: bool)
        ensures
            b == has_flag(self.flags, PTE_W),
    {
        self.flags & PTE_W != 0
    }

    /// The copy-on-write mark.
    pub fn is_cow(&self) -> (b: bool)
        ensures
            b == self.cow,
    {
        self.cow
    }
}

/// What `PageTable::map` makes of entry `vpn` of `m`: a valid entry keeps
/// its page and gains the flags; otherwise the entry maps `ppn` with
/// `flags`. The entry ends valid and not copy-on-write.
pub open spec fn map_effect(m: Map<usize, PageTableEntry>, vpn: usize, ppn: usize, flags: u8) -> Map<usize, PageTableEntry> {
    if m.contains_key(vpn) && has_flag(m[vpn].flags, PTE_V) {
        m.insert(vpn, PageTableEntry { ppn: m[vpn].ppn, flags: m[vpn].flags | flags | PTE_V, cow: false })
    } else {
        m.insert(vpn, PageTableEntry { ppn, flags: flags | PTE_V, cow: false })
    }
}

/// `m` maps `vpn` by a valid entry.
pub open spec fn maps_valid(m: Map<usize, PageTableEntry>, vpn: usize) -> bool {
    m.contains_key(vpn) && has_flag(m[vpn].flags, PTE_V)
}

proof fn lemma_or_valid(a: u8, b: u8)
    ensures
        has_flag(a | b | PTE_V, PTE_V),
        has_flag(b | PTE_V, PTE_V),
{
    assert((a | b | 1u8) & 1u8 != 0u8) by (bit_vector);
    assert((b | 1u8) & 1u8 != 0u8) by (bit_vector);
}

/// A page table, held as its entries by virtual page number (the entries
/// the hardware walk reaches through the directory levels), with the
/// frame of its root directory.
pub struct PageTable {
    root_ppn: usize,
    entries: BTreeMap<usize, PageTableEntry>,
}

impl PageTable {
    /// The entries by virtual page number.
    pub closed spec fn view(&self) -> Map<usize, PageTableEntry> {
        self.entries@
    }

    /// The frame of the root directory.
    pub closed spec fn spec_root(&self) -> usize {
        self.root_ppn
    }

    /// An empty table whose root directory takes a frame from `frames`.
    pub fn new(frames: &mut Frames) -> (pt: Self)
        requires
            old(frames).wf(),
            old(frames).allocator.available() > 0,
        ensures
            final(frames).wf(),
            pt@ == Map::<usize, PageTableEntry>::empty(),
            old(frames).allocator.free_frames().contains(pt.spec_root()),
            final(frames).allocator.free_frames() == old(frames).allocator.free_frames().remove(pt.spec_root()),
            final(frames).allocator.available() == old(frames).allocator.available() - 1,
            final(frames).refcounts == old(frames).refcounts,
            final(frames).mem@ == old(frames).mem@.remove(pt.spec_root()),
    {
        let root = frames.alloc_frame();
        let root = match root {
            Some(p) => p,
            None => 0,
        };
        PageTable { root_ppn: root, entries: BTreeMap::new() }
    }

    /// The `satp` value that selects this table (Sv39 mode).
    pub fn token(&self) -> (t: u64)
        ensures
            t == ((8u64 << 60u64) | (self.spec_root() as u64)),
    {
        (8u64 << 60u64) | (self.root_ppn as u64)
    }

    /// Maps `vpn` to `ppn` with `flags`; a page mapped already keeps its
    /// frame and gains the flags.
    pub fn map(&mut self, vpn: usize, ppn: usize, flags: u8)
        ensures
            final(self)@ == map_effect(old(self)@, vpn, ppn, flags),
            final(self).spec_root() == old(self).spec_root(),
            maps_valid(final(self)@, vpn),
    {
        let cur = self.entries.get(&vpn);
        match cur {
            Some(pte) => {
                if pte.is_valid() {
                    let e = PageTableEntry::new(pte.ppn, pte.flags | flags | PTE_V);
                    self.entries.insert(vpn, e);
                    proof { lemma_or_valid(old(self)@[vpn].flags, flags); }
                    return;
                }
            },
            None => {},
        }
        self.entries.insert(vpn, PageTableEntry::new(ppn, flags | PTE_V));
        proof { lemma_or_valid(0, flags); }
    }

    /// Clears the entry of a mapped page.
    pub fn unmap(&mut self, vpn: usize)
        requires
            maps_valid(old(self)@, vpn),
        ensures
            final(self)@ == old(self)@.insert(vpn, PageTableEntry { ppn: 0, flags: 0, cow: false }),
            final(self).spec_root() == old(self).spec_root(),
    {
        self.entries.insert(vpn, PageTableEntry::empty());
    }

    /// The entry of `vpn`, valid or not, if the walk reaches one.
    pub fn translate(&self, vpn: usize) -> (r: Option<PageTableEntry>)
        ensures
            r == (if self@.contains_key(vpn) { Some(self@[vpn]) } else { None::<PageTableEntry> }),
    {
        match self.entries.get(&vpn) {
            Some(e) => Some(*e),
            None => None,
        }
    }

    /// Replaces the entry of `vpn`, which the walk reaches.
    pub fn set_entry(&mut self, vpn: usize, e: PageTableEntry)
        requires
            old(self)@.contains_key(vpn),
        ensures
            final(self)@ == old(self)@.insert(vpn, e),
            final(self).spec_root() == old(self).spec_root(),
    {
        self.entries.insert(vpn, e);
    }

    /// The physical address of virtual address `va`: its page's frame and
    /// the offset in the page.
    pub fn translate_va(&self, va: usize) -> (r: Option<usize>)
        ensures
            r == (if self@.contains_key(va / PAGE_SIZE) && self@[va / PAGE_SIZE].ppn * PAGE_SIZE + va % PAGE_SIZE <= usize::MAX {
                Some((self@[va / PAGE_SIZE].ppn * PAGE_SIZE + va % PAGE_SIZE) as usize)
            } else {
                None::<usize>
            }),
    {
        match self.entries.get(&(va / PAGE_SIZE)) {
            Some(e) => {
                let off = va % PAGE_SIZE;
                let lim = (usize::MAX - off) / PAGE_SIZE;
                if e.ppn > lim {
                    proof {
                        assert(e.ppn * 4096 + off > usize::MAX) by (nonlinear_arith)
                            requires e.ppn > lim, lim == (usize::MAX - off) / 4096, off < 4096;
                    }
                    None
                } else {
                    proof {
                        assert(e.ppn * 4096 + off <= usize::MAX) by (nonlinear_arith)
                            requires e.ppn <= lim, lim == (usize::MAX - off) / 4096, off < 4096;
                    }
                    Some(e.ppn * PAGE_SIZE + off)
                }
            },
            None => None,
        }
    }
}

/// The contents of data frames by page number; a frame with no entry
/// reads as zeros.
pub struct PhysMem {
    pages: BTreeMap<usize, Vec<u8>>,
}

/// A page of zeros.
pub open spec fn zero_page() -> Seq<u8> {
    Seq::new(PAGE_SIZE as nat, |i: int| 0u8)
}

impl PhysMem {
    /// The pages that hold something, by frame.
    pub closed spec fn view(&self) -> Map<usize, Seq<u8>> {
        self.pages@.map_values(|v: Vec<u8>| v@)
    }

    /// The bytes of frame `ppn`.
    pub open spec fn page(&self, ppn: usize) -> Seq<u8> {
        if self@.contains_key(ppn) {
            self@[ppn]
        } else {
            zero_page()
        }
    }

    /// All zeros.
    pub fn new() -> (m: Self)
        ensures
            m@ == Map::<usize, Seq<u8>>::empty(),
    {
        let m = PhysMem { pages: BTreeMap::new() };
        proof {
            assert(m@ =~= Map::<usize, Seq<u8>>::empty());
        }
        m
    }

    /// Fills frame `ppn` with zeros.
    pub fn zero(&mut self, ppn: usize)
        ensures
            final(self)@ == old(self)@.remove(ppn),
    {
        self.pages.remove(&ppn);
        proof {
            assert(self@ =~= old(self)@.remove(ppn));
        }
    }

    /// The bytes of frame `ppn`.
    pub fn read_page(&self, ppn: usize) -> (v: Vec<u8>)
        ensures
            v@ == self.page(ppn),
    {
        match self.pages.get(&ppn) {
            Some(v) => {
                let mut out: Vec<u8> = Vec::new();
                let mut i: usize = 0;
                while i < v.len()
                    invariant
                        i <= v@.len(),
                        out@ == v@.subrange(0, i as int),
                    decreases v@.len() - i,
                {
                    out.push(v[i]);
                    i = i + 1;
                    proof {
                        assert(out@ =~= v@.subrange(0, i as int));
                    }
                }
                proof {
                    assert(v@.subrange(0, v@.len() as int) =~= v@);
                }
                out
            },
            None => {
                let mut out: Vec<u8> = Vec::new();
                let mut i: usize = 0;
                while i < PAGE_SIZE
                    invariant
                        i <= PAGE_SIZE,
                        out@ == Seq::new(i as nat, |k: int| 0u8),
                    decreases PAGE_SIZE - i,
                {
                    out.push(0u8);
                    i = i + 1;
                    proof {
                        assert(out@ =~= Seq::new(i as nat, |k: int| 0u8));
                    }
                }
                out
            },
        }
    }

    /// Stores `bytes` as the contents of frame `ppn`.
    pub fn write_page(&mut self, ppn: usize, bytes: Vec<u8>)
        ensures
            final(self)@ == old(self)@.insert(ppn, bytes@),
    {
        let ghost b = bytes@;
        self.pages.insert(ppn, bytes);
        proof {
            assert(self@ =~= old(self)@.insert(ppn, b));
        }
    }

    /// Puts `src[from .. from + len]` into frame `ppn` at byte `off`.
    pub fn write_bytes(&mut self, ppn: usize, off: usize, src: &[u8], from: usize, len: usize)
        requires
            from + len <= src@.len(),
            off + len <= old(self).page(ppn).len(),
        ensures
            final(self)@ == old(self)@.insert(ppn, put_range(old(self).page(ppn), off as int, src@.subrange(from as int, from + len))),
    {
        let ghost p0 = self.page(ppn);
        let mut v = self.read_page(ppn);
        let vl = v.len();
        let sl = src.len();
        let mut i: usize = 0;
        while i < len
            invariant
                i <= len,
                vl == p0.len(),
                sl == src@.len(),
                from + len <= src@.len(),
                off + len <= p0.len(),
                v@.len() == p0.len(),
                forall|j: int| 0 <= j < p0.len() ==> #[trigger] v@[j] == (if off <= j < off + i { src@[from + j - off] } else { p0[j] }),
            decreases len - i,
        {
            v.set(off + i, src[from + i]);
            i = i + 1;
        }
        proof {
            assert(v@ =~= put_range(p0, off as int, src@.subrange(from as int, from + len)));
        }
        self.write_page(ppn, v);
    }

    /// Copies frame `src` over frame `dst`.
    pub fn copy_page(&mut self, src: usize, dst: usize)
        ensures
            final(self)@ == old(self)@.insert(dst, old(self).page(src)),
    {
        let bytes = self.read_page(src);
        self.write_page(dst, bytes);
    }
}

/// `s` with `b` put at index `off`.
pub open spec fn put_range(s: Seq<u8>, off: int, b: Seq<u8>) -> Seq<u8> {
    Seq::new(s.len(), |i: int| if off <= i < off + b.len() { b[i - off] } else { s[i] })
}

/// The physical memory resources: the frame allocator, the copy-on-write
/// reference counts and the contents of the frames.
pub struct Frames {
    pub allocator: StackFrameAllocator,
    pub refcounts: FrameRefcounts,
    pub mem: PhysMem,
}

impl Frames {
    /// The allocator is well formed.
    pub open spec fn wf(&self) -> bool {
        self.allocator.wf()
    }

    /// Hands out frames `l .. r`, none of them shared, all zero.
    pub fn new(l: usize, r: usize) -> (f: Self)
        requires
            l <= r,
        ensures
            f.wf(),
            f.allocator.spec_current() == l,
            f.allocator.spec_end() == r,
            f.allocator.spec_recycled() == Seq::<usize>::empty(),
            f.allocator.available() == r - l,
            f.refcounts@ == Map::<usize, usize>::empty(),
            f.mem@ == Map::<usize, Seq<u8>>::empty(),
    {
        let mut allocator = StackFrameAllocator::new();
        allocator.init(l, r);
        Frames { allocator, refcounts: FrameRefcounts::new(), mem: PhysMem::new() }
    }

    /// Takes a free frame and zeroes it; none when all are in use.
    pub fn alloc_frame(&mut self) -> (r: Option<usize>)
        requires
            old(self).wf(),
        ensures
            final(self).wf(),
            final(self).refcounts == old(self).refcounts,
            r is Some <==> old(self).allocator.available() > 0,
            match r {
                Some(p) => {
                    &&& old(self).allocator.free_frames().contains(p)
                    &&& final(self).allocator.free_frames() == old(self).allocator.free_frames().remove(p)
                    &&& final(self).allocator.available() == old(self).allocator.available() - 1
                    &&& final(self).mem@ == old(self).mem@.remove(p)
                    &&& p < final(self).allocator.spec_current()
                    &&& !final(self).allocator.spec_recycled().contains(p)
                },
                None => final(self).allocator.free_frames() == old(self).allocator.free_frames()
                    && final(self).allocator.available() == old(self).allocator.available()
                    && final(self).mem@ == old(self).mem@,
            },
            final(self).allocator.spec_current() >= old(self).allocator.spec_current(),
            final(self).allocator.spec_end() == old(self).allocator.spec_end(),
    {
        let f = frame_alloc(&mut self.allocator);
        match f {
            Some(t) => {
                self.mem.zero(t.ppn);
                proof {
                    let a = self.allocator;
                    assert(!a.free_frames().contains(t.ppn));
                    assert(!a.spec_recycled().to_set().contains(t.ppn));
                    assert(!a.spec_recycled().contains(t.ppn)) by {
                        if a.spec_recycled().contains(t.ppn) {
                            let k = choose|k: int| 0 <= k < a.spec_recycled().len() && a.spec_recycled()[k] == t.ppn;
                            assert(a.spec_recycled().to_set().contains(a.spec_recycled()[k]));
                        }
                    }
                    let o = old(self).allocator;
                    if o.spec_recycled().to_set().contains(t.ppn) {
                        let k = choose|k: int| 0 <= k < o.spec_recycled().len() && o.spec_recycled()[k] == t.ppn;
                        assert(o.spec_recycled()[k] < o.spec_current());
                    }
                }
                Some(t.ppn)
            },
            None => None,
        }
    }
}

/// How an area's pages find their frames.
#[derive(Clone, Copy, Debug, PartialEq, Eq, Structural)]
pub enum MapType {
    /// Page `n` maps frame `n`.
    Identical,
    /// Each page gets a frame of its own (or shares one copy-on-write).
    Framed,
}

/// A range of virtual pages `start_vpn .. end_vpn` mapped one way with one
/// permission, with the frames it owns alone and those it shares
/// copy-on-write, by page.
pub struct MapArea {
    start_vpn: usize,
    end_vpn: usize,
    data_frames: BTreeMap<usize, usize>,
    cow_frames: BTreeMap<usize, usize>,
    map_type: MapType,
    map_perm: u8,
}

/// The page of virtual address `va` rounded up.
pub open spec fn ceil_vpn(va: usize) -> int {
    if va % PAGE_SIZE == 0 {
        (va / PAGE_SIZE) as int
    } else {
        va / PAGE_SIZE + 1
    }
}


/// The range, type and permission of an area.
#[derive(Clone, Copy, Debug, PartialEq, Eq, Structural)]
pub struct AreaShape {
    pub start: usize,
    pub end: usize,
    pub map_type: MapType,
    pub perm: u8,
}

/// The shape of the area `MapArea::new` makes of `start_va .. end_va`.
pub open spec fn shape_of(start_va: usize, end_va: usize, map_type: MapType, perm: u8) -> AreaShape {
    AreaShape { start: (start_va / PAGE_SIZE) as usize, end: ceil_vpn(end_va) as usize, map_type, perm }
}

/// The effect of mapping pages `start .. upto` of area `a0` (now `a1`),
/// from table `t0` (now `t1`) and resources `f0` (now `f1`): those pages are
/// mapped, others untouched; a page mapped before keeps its frame; in an
/// identical area page `n` maps frame `n`; in a framed one each newly
/// mapped page owns a distinct fresh zeroed frame.
pub open spec fn mapped_range(sh: AreaShape, data0: Map<usize, usize>, cow0: Map<usize, usize>, a1: MapArea, t0: Map<usize, PageTableEntry>, t1: Map<usize, PageTableEntry>, f0: Frames, f1: Frames, upto: int) -> bool {
    &&& f1.wf()
    &&& f1.refcounts == f0.refcounts
    &&& a1.shape() == sh
    &&& a1.cow() == cow0
    &&& f1.allocator.spec_current() >= f0.allocator.spec_current()
    &&& f1.allocator.spec_end() == f0.allocator.spec_end()
    &&& forall|k: usize| sh.start <= k < upto ==> maps_valid(t1, k)
    &&& forall|k: usize| !(sh.start <= k < upto) ==> #[trigger] t1.contains_key(k) == t0.contains_key(k)
        && (t0.contains_key(k) ==> t1[k] == t0[k])
    &&& forall|k: usize| sh.start <= k < upto && maps_valid(t0, k) ==> #[trigger] t1[k].ppn == t0[k].ppn
    &&& sh.map_type == MapType::Identical ==> {
        &&& a1.data() == data0
        &&& f1 == f0
        &&& forall|k: usize| sh.start <= k < upto && !maps_valid(t0, k)
            ==> #[trigger] t1[k] == (PageTableEntry { ppn: k, flags: sh.perm | PTE_V, cow: false })
        &&& forall|k: usize| sh.start <= k < upto && maps_valid(t0, k)
            ==> #[trigger] t1[k] == (PageTableEntry { ppn: t0[k].ppn, flags: t0[k].flags | sh.perm | PTE_V, cow: false })
    }
    &&& sh.map_type == MapType::Framed ==> {
        &&& forall|k: usize| sh.start <= k < upto && !maps_valid(t0, k) ==> {
            &&& #[trigger] a1.data().contains_key(k)
            &&& t1[k] == (PageTableEntry { ppn: a1.data()[k], flags: sh.perm | PTE_V, cow: false })
            &&& f0.allocator.free_frames().contains(a1.data()[k])
            &&& !f1.allocator.free_frames().contains(a1.data()[k])
            &&& !f1.mem@.contains_key(a1.data()[k])
            &&& a1.data()[k] < f1.allocator.spec_current()
            &&& !f1.allocator.spec_recycled().contains(a1.data()[k])
        }
        &&& forall|k: usize| !(sh.start <= k < upto && !maps_valid(t0, k)) ==> #[trigger] a1.data().contains_key(k)
            == data0.contains_key(k) && (data0.contains_key(k) ==> a1.data()[k] == data0[k])
        &&& forall|k1: usize, k2: usize| sh.start <= k1 < upto && !maps_valid(t0, k1) && sh.start <= k2 < upto
            && !maps_valid(t0, k2) && k1 != k2 ==> #[trigger] a1.data()[k1] != #[trigger] a1.data()[k2]
        &&& forall|q: usize| #[trigger] f1.allocator.free_frames().contains(q) ==> f0.allocator.free_frames().contains(q)
        &&& forall|q: usize| !f0.allocator.free_frames().contains(q) ==> #[trigger] f1.mem.page(q) == f0.mem.page(q)
        &&& f1.allocator.available() >= f0.allocator.available() - (upto - sh.start)
    }
}

/// The effect of `MapArea::map_one` on page `vpn`, from area `a0`, table
/// `t0` and resources `f0` to `a1`, `t1` and `f1`.
pub open spec fn map_one_post(a0: MapArea, a1: MapArea, t0: Map<usize, PageTableEntry>, t1: Map<usize, PageTableEntry>, f0: Frames, f1: Frames, vpn: usize) -> bool {
    &&& f1.wf()
    &&& f1.refcounts == f0.refcounts
    &&& a1.same_shape(&a0)
    &&& a1.cow() == a0.cow()
    &&& maps_valid(t1, vpn)
    &&& f1.allocator.spec_current() >= f0.allocator.spec_current()
    &&& f1.allocator.spec_end() == f0.allocator.spec_end()
    &&& a0.spec_type() == MapType::Identical ==> t1 == map_effect(t0, vpn, vpn, a0.spec_perm())
        && a1.data() == a0.data() && f1 == f0
    &&& a0.spec_type() == MapType::Framed && maps_valid(t0, vpn) ==> t1 == map_effect(
        t0, vpn, t0[vpn].ppn, (t0[vpn].flags | a0.spec_perm()) as u8,
    ) && a1.data() == a0.data() && f1 == f0
    &&& a0.spec_type() == MapType::Framed && !maps_valid(t0, vpn) ==> {
        let p = t1[vpn].ppn;
        &&& t1 == map_effect(t0, vpn, p, a0.spec_perm())
        &&& a1.data() == a0.data().insert(vpn, p)
        &&& f0.allocator.free_frames().contains(p)
        &&& f1.allocator.free_frames() == f0.allocator.free_frames().remove(p)
        &&& f1.allocator.available() == f0.allocator.available() - 1
        &&& f1.mem@ == f0.mem@.remove(p)
        &&& p < f1.allocator.spec_current()
        &&& !f1.allocator.spec_recycled().contains(p)
    }
}

proof fn lemma_map_step(a0: MapArea, ab: MapArea, a1: MapArea, t0: Map<usize, PageTableEntry>, tb: Map<usize, PageTableEntry>, t1: Map<usize, PageTableEntry>, f0: Frames, fb: Frames, f1: Frames, vpn: usize)
    requires
        mapped_range(a0.shape(), a0.data(), a0.cow(), ab, t0, tb, f0, fb, vpn as int),
        map_one_post(ab, a1, tb, t1, fb, f1, vpn),
        a0.spec_start() <= vpn < a0.spec_end(),
    ensures
        mapped_range(a0.shape(), a0.data(), a0.cow(), a1, t0, t1, f0, f1, vpn + 1),
{
    assert(tb.contains_key(vpn) == t0.contains_key(vpn));
    assert(maps_valid(tb, vpn) == maps_valid(t0, vpn));
    assert forall|k: usize| a0.spec_start() <= k < vpn + 1 implies maps_valid(t1, k) by {
        if k != vpn {
            assert(maps_valid(tb, k));
        }
    }
    assert forall|k: usize| !(a0.spec_start() <= k < vpn + 1) implies #[trigger] t1.contains_key(k) == t0.contains_key(k)
        && (t0.contains_key(k) ==> t1[k] == t0[k]) by {
        assert(tb.contains_key(k) == t0.contains_key(k));
    }
    assert forall|k: usize| a0.spec_start() <= k < vpn + 1 && maps_valid(t0, k) implies #[trigger] t1[k].ppn == t0[k].ppn by {
        if k != vpn {
            assert(tb[k].ppn == t0[k].ppn);
        }
    }
    if a0.spec_type() == MapType::Identical {
        assert forall|k: usize| a0.spec_start() <= k < vpn + 1 && !maps_valid(t0, k)
            implies #[trigger] t1[k] == (PageTableEntry { ppn: k, flags: a0.spec_perm() | PTE_V, cow: false }) by {
            if k != vpn {
                assert(tb[k] == (PageTableEntry { ppn: k, flags: a0.spec_perm() | PTE_V, cow: false }));
            }
        }
        assert forall|k: usize| a0.spec_start() <= k < vpn + 1 && maps_valid(t0, k)
            implies #[trigger] t1[k] == (PageTableEntry { ppn: t0[k].ppn, flags: t0[k].flags | a0.spec_perm() | PTE_V, cow: false }) by {
            if k != vpn {
                assert(tb[k] == (PageTableEntry { ppn: t0[k].ppn, flags: t0[k].flags | a0.spec_perm() | PTE_V, cow: false }));
            }
        }
    } else {
        if !maps_valid(t0, vpn) {
            let p = t1[vpn].ppn;
            assert forall|k: usize| a0.spec_start() <= k < vpn && !maps_valid(t0, k) implies #[trigger] ab.data()[k] != p by {
                assert(ab.data().contains_key(k));
                assert(!fb.allocator.free_frames().contains(ab.data()[k]));
            }
        }
        assert forall|k: usize| a0.spec_start() <= k < vpn + 1 && !maps_valid(t0, k) implies {
            &&& #[trigger] a1.data().contains_key(k)
            &&& t1[k] == (PageTableEntry { ppn: a1.data()[k], flags: a0.spec_perm() | PTE_V, cow: false })
            &&& f0.allocator.free_frames().contains(a1.data()[k])
            &&& !f1.allocator.free_frames().contains(a1.data()[k])
            &&& !f1.mem@.contains_key(a1.data()[k])
            &&& a1.data()[k] < f1.allocator.spec_current()
            &&& !f1.allocator.spec_recycled().contains(a1.data()[k])
        } by {
            if k != vpn {
                assert(ab.data().contains_key(k));
                assert(!maps_valid(tb, vpn) ==> ab.data()[k] != t1[vpn].ppn);
            }
        }
        assert forall|k: usize| !(a0.spec_start() <= k < vpn + 1 && !maps_valid(t0, k)) implies #[trigger] a1.data().contains_key(k)
            == a0.data().contains_key(k) && (a0.data().contains_key(k) ==> a1.data()[k] == a0.data()[k]) by {
            assert(ab.data().contains_key(k) == a0.data().contains_key(k));
        }
        assert forall|k1: usize, k2: usize| a0.spec_start() <= k1 < vpn + 1 && !maps_valid(t0, k1) && a0.spec_start() <= k2 < vpn + 1
            && !maps_valid(t0, k2) && k1 != k2 implies #[trigger] a1.data()[k1] != #[trigger] a1.data()[k2] by {
            if k1 != vpn && k2 != vpn {
                assert(ab.data()[k1] != ab.data()[k2]);
            } else if k1 == vpn {
                assert(ab.data().contains_key(k2));
                assert(ab.data()[k2] != t1[vpn].ppn);
            } else {
                assert(ab.data().contains_key(k1));
                assert(ab.data()[k1] != t1[vpn].ppn);
            }
        }
        assert forall|q: usize| !f0.allocator.free_frames().contains(q) implies #[trigger] f1.mem.page(q) == f0.mem.page(q) by {
            assert(fb.mem.page(q) == f0.mem.page(q));
            if !maps_valid(t0, vpn) {
                assert(q != t1[vpn].ppn);
            }
        }
    }
}

impl MapArea {
    /// The first page.
    pub closed spec fn spec_start(&self) -> usize {
        self.start_vpn
    }

    /// The page after the last.
    pub closed spec fn spec_end(&self) -> usize {
        self.end_vpn
    }

    /// The frames the area owns alone, by page.
    pub closed spec fn data(&self) -> Map<usize, usize> {
        self.data_frames@
    }

    /// The frames the area shares copy-on-write, by page.
    pub closed spec fn cow(&self) -> Map<usize, usize> {
        self.cow_frames@
    }

    /// How the pages find frames.
    pub closed spec fn spec_type(&self) -> MapType {
        self.map_type
    }

    /// The permission bits.
    pub closed spec fn spec_perm(&self) -> u8 {
        self.map_perm
    }

    /// The range, type and permission.
    pub open spec fn shape(&self) -> AreaShape {
        AreaShape { start: self.spec_start(), end: self.spec_end(), map_type: self.spec_type(), perm: self.spec_perm() }
    }

    /// Page `vpn` lies in the area.
    pub open spec fn has_vpn(&self, vpn: usize) -> bool {
        self.spec_start() <= vpn < self.spec_end()
    }

    /// The shape of the area: range, type and permission.
    pub open spec fn same_shape(&self, other: &MapArea) -> bool {
        &&& self.spec_start() == other.spec_start()
        &&& self.spec_end() == other.spec_end()
        &&& self.spec_type() == other.spec_type()
        &&& self.spec_perm() == other.spec_perm()
    }

    /// The area of the pages that `start_va .. end_va` touches, owning no
    /// frame yet.
    pub fn new(start_va: usize, end_va: usize, map_type: MapType, map_perm: u8) -> (a: Self)
        ensures
            a.spec_start() == start_va / PAGE_SIZE,
            a.spec_end() == ceil_vpn(end_va),
            a.data() == Map::<usize, usize>::empty(),
            a.cow() == Map::<usize, usize>::empty(),
            a.spec_type() == map_type,
            a.spec_perm() == map_perm,
    {
        let start_vpn = start_va / PAGE_SIZE;
        let end_vpn = if end_va % PAGE_SIZE == 0 {
            end_va / PAGE_SIZE
        } else {
            end_va / PAGE_SIZE + 1
        };
        MapArea {
            start_vpn,
            end_vpn,
            data_frames: BTreeMap::new(),
            cow_frames: BTreeMap::new(),
            map_type,
            map_perm,
        }
    }

    /// Maps page `vpn`: an identical area maps frame `vpn`; a framed one
    /// keeps a page that is mapped already (adding its permission) and
    /// otherwise takes a fresh zeroed frame, which it then owns.
    pub fn map_one(&mut self, pt: &mut PageTable, vpn: usize, frames: &mut Frames)
        requires
            old(frames).wf(),
            old(self).spec_type() == MapType::Framed && !maps_valid(old(pt)@, vpn) ==> old(frames).allocator.available() > 0,
        ensures
            map_one_post(*old(self), *final(self), old(pt)@, final(pt)@, *old(frames), *final(frames), vpn),
            final(pt).spec_root() == old(pt).spec_root(),
    {
        match self.map_type {
            MapType::Identical => {
                pt.map(vpn, vpn, self.map_perm);
            },
            MapType::Framed => {
                match pt.translate(vpn) {
                    Some(pte) => {
                        if pte.is_valid() {
                            pt.map(vpn, pte.ppn, pte.flags | self.map_perm);
                            return;
                        }
                    },
                    None => {},
                }
                let f = frames.alloc_frame();
                let ppn = match f {
                    Some(p) => p,
                    None => 0,
                };
                self.data_frames.insert(vpn, ppn);
                pt.map(vpn, ppn, self.map_perm);
            },
        }
    }

    /// Page `vpn` now owns frame `ppn` alone: it leaves the shared frames,
    /// and a frame it owned before returns to the allocator.
    fn own_frame(&mut self, vpn: usize, ppn: usize, frames: &mut Frames)
        requires
            old(frames).wf(),
            old(self).data().contains_key(vpn) ==> old(self).data()[vpn] < old(frames).allocator.spec_current()
                && !old(frames).allocator.spec_recycled().contains(old(self).data()[vpn]),
        ensures
            final(frames).wf(),
            final(self).shape() == old(self).shape(),
            final(self).data() == old(self).data().insert(vpn, ppn),
            final(self).cow() == old(self).cow().remove(vpn),
            final(frames).refcounts == old(frames).refcounts,
            final(frames).mem == old(frames).mem,
            final(frames).allocator.spec_current() == old(frames).allocator.spec_current(),
            final(frames).allocator.spec_end() == old(frames).allocator.spec_end(),
            old(self).data().contains_key(vpn) ==> final(frames).allocator.free_frames() == old(frames).allocator.free_frames().insert(old(self).data()[vpn])
                && final(frames).allocator.spec_recycled() == old(frames).allocator.spec_recycled().push(old(self).data()[vpn]),
            !old(self).data().contains_key(vpn) ==> final(frames).allocator == old(frames).allocator,
    {
        self.cow_frames.remove(&vpn);
        match self.data_frames.insert(vpn, ppn) {
            Some(q) => {
                frames.allocator.dealloc(q);
            },
            None => {},
        }
    }

    /// Unmaps page `vpn`; in a framed area the frame the page owned goes
    /// back to the allocator, or else the page gives up its share of a
    /// copy-on-write frame.
    pub fn unmap_one(&mut self, pt: &mut PageTable, vpn: usize, frames: &mut Frames)
        requires
            old(frames).wf(),
            maps_valid(old(pt)@, vpn),
            unmap_one_ok(*old(self), *old(frames), vpn),
        ensures
            unmap_one_post(*old(self), *final(self), *old(frames), *final(frames), vpn),
            final(pt)@ == old(pt)@.insert(vpn, PageTableEntry { ppn: 0, flags: 0, cow: false }),
            final(pt).spec_root() == old(pt).spec_root(),
    {
        if self.map_type == MapType::Framed {
            match self.data_frames.remove(&vpn) {
                Some(q) => {
                    frames.allocator.dealloc(q);
                },
                None => {
                    proof {
                        assert(self.data() =~= old(self).data());
                    }
                    match self.cow_frames.remove(&vpn) {
                        Some(p) => {
                            frame_refcount_dec(&mut frames.refcounts, &mut frames.allocator, p);
                        },
                        None => {
                            proof {
                                assert(self.cow() =~= old(self).cow());
                            }
                        },
                    }
                },
            }
        }
        pt.unmap(vpn);
    }

    /// Unmaps every page of the area (see `unmap_one`).
    pub fn unmap(&mut self, pt: &mut PageTable, frames: &mut Frames)
        requires
            old(frames).wf(),
            unmap_ok(*old(self), old(pt)@, *old(frames)),
        ensures
            unmapped_range(*old(self), *final(self), old(pt)@, final(pt)@, *old(frames), *final(frames), old(self).spec_end() as int),
            final(pt).spec_root() == old(pt).spec_root(),
    {
        let ghost a0 = *self;
        let ghost t0 = pt@;
        let ghost f0 = *frames;
        let mut vpn = self.start_vpn;
        proof {
            assert(unmapped_range(a0, *self, t0, pt@, f0, *frames, vpn as int)) by {
                assert forall|q: usize| !data_freed(a0, vpn as int, q) by {}
                assert forall|q: usize| !cow_dropped(a0, vpn as int, q) by {}
            }
        }
        while vpn < self.end_vpn
            invariant
                a0.spec_start() <= vpn <= a0.spec_end(),
                self.same_shape(&a0),
                pt.spec_root() == old(pt).spec_root(),
                t0 == old(pt)@,
                f0 == *old(frames),
                a0 == *old(self),
                unmap_ok(a0, t0, f0),
                unmapped_range(a0, *self, t0, pt@, f0, *frames, vpn as int),
            decreases a0.spec_end() - vpn,
        {
            let ghost ab = *self;
            let ghost tb = pt@;
            let ghost fb = *frames;
            proof {
                lemma_unmap_ready(a0, ab, t0, tb, f0, fb, vpn);
            }
            self.unmap_one(pt, vpn, frames);
            proof {
                lemma_unmap_step(a0, ab, *self, t0, tb, pt@, f0, fb, *frames, vpn);
            }
            vpn = vpn + 1;
        }
    }

    /// Maps every page of the area (see `map_one`).
    pub fn map(&mut self, pt: &mut PageTable, frames: &mut Frames)
        requires
            old(frames).wf(),
            old(self).spec_start() <= old(self).spec_end(),
            old(self).spec_type() == MapType::Framed ==> old(frames).allocator.available() >= old(self).spec_end() - old(self).spec_start(),
        ensures
            mapped_range(old(self).shape(), old(self).data(), old(self).cow(), *final(self), old(pt)@, final(pt)@, *old(frames), *final(frames), old(self).spec_end() as int),
            final(pt).spec_root() == old(pt).spec_root(),
    {
        let ghost a0 = *self;
        let ghost pt0 = pt@;
        let ghost f0 = *frames;
        let mut vpn = self.start_vpn;
        while vpn < self.end_vpn
            invariant
                a0.spec_start() <= vpn <= a0.spec_end(),
                self.same_shape(&a0),
                a0.spec_start() <= a0.spec_end(),
                pt.spec_root() == old(pt).spec_root(),
                pt0 == old(pt)@,
                f0 == *old(frames),
                a0 == *old(self),
                a0.spec_type() == MapType::Framed ==> frames.allocator.available() >= a0.spec_end() - vpn,
                mapped_range(a0.shape(), a0.data(), a0.cow(), *self, pt0, pt@, f0, *frames, vpn as int),
            decreases a0.spec_end() - vpn,
        {
            let ghost fb = *frames;
            let ghost ptb = pt@;
            let ghost ab = *self;
            proof {
                assert(ptb.contains_key(vpn) == pt0.contains_key(vpn));
            }
            self.map_one(pt, vpn, frames);
            proof {
                lemma_map_step(a0, ab, *self, pt0, ptb, pt@, f0, fb, *frames, vpn);
            }
            vpn = vpn + 1;
        }
    }
}


/// The last page that copying `len` bytes to byte `off` of page `start`
/// touches: the first page when nothing is copied.
pub open spec fn copy_last_page(start: usize, off: usize, len: nat) -> int {
    if len == 0 {
        start as int
    } else {
        (start * PAGE_SIZE + off + len - 1) / (PAGE_SIZE as int)
    }
}

/// The frames of pages `first ..= last` of table `t` hold in `m1` what they
/// held in `m0`, with `data` put at virtual address `va0`; other frames are
/// untouched.
pub open spec fn copied(t: Map<usize, PageTableEntry>, m0: PhysMem, m1: PhysMem, first: int, last: int, va0: int, data: Seq<u8>) -> bool {
    &&& forall|q: usize| #[trigger] m1.page(q) != m0.page(q) ==> exists|v: usize| first <= v <= last && t[v].ppn == q
    &&& forall|v: usize| first <= v <= last ==> #[trigger] m1.page(t[v].ppn).len() == PAGE_SIZE
    &&& forall|v: usize, i: int| first <= v <= last && 0 <= i < PAGE_SIZE ==> #[trigger] m1.page(t[v].ppn)[i] == (if va0 <= v * PAGE_SIZE + i
        < va0 + data.len() {
        data[v * PAGE_SIZE + i - va0]
    } else {
        m0.page(t[v].ppn)[i]
    })
}

/// Writing `bytes` at byte `off` of the frame of page `v` is a copy to
/// the address of that byte through page `v` alone.
pub proof fn lemma_write_copied(t: Map<usize, PageTableEntry>, m0: PhysMem, m1: PhysMem, v: usize, off: int, bytes: Seq<u8>)
    requires
        m1@ == m0@.insert(t[v].ppn, put_range(m0.page(t[v].ppn), off, bytes)),
        m0.page(t[v].ppn).len() == PAGE_SIZE,
        0 <= off,
        off + bytes.len() <= PAGE_SIZE,
    ensures
        copied(t, m0, m1, v as int, v as int, v * PAGE_SIZE + off, bytes),
{
    assert forall|q: usize| #[trigger] m1.page(q) != m0.page(q) implies exists|w: usize| v <= w <= v && t[w].ppn == q by {
        assert(q == t[v].ppn);
    }
}

impl MapArea {
    /// Copies `data` into the frames of the area's pages, from byte
    /// `page_offset` of its first page on.
    pub fn copy_data(&self, pt: &PageTable, mem: &mut PhysMem, data: &[u8], page_offset: usize)
        requires
            self.spec_type() == MapType::Framed,
            page_offset < PAGE_SIZE,
            self.spec_start() * PAGE_SIZE + page_offset + data@.len() <= usize::MAX,
            forall|v: usize| self.spec_start() <= v <= copy_last_page(self.spec_start(), page_offset, data@.len())
                ==> #[trigger] pt@.contains_key(v),
            forall|v1: usize, v2: usize|
                self.spec_start() <= v1 <= copy_last_page(self.spec_start(), page_offset, data@.len())
                && self.spec_start() <= v2 <= copy_last_page(self.spec_start(), page_offset, data@.len()) && v1 != v2
                ==> #[trigger] pt@[v1].ppn != #[trigger] pt@[v2].ppn,
            forall|v: usize| self.spec_start() <= v <= copy_last_page(self.spec_start(), page_offset, data@.len())
                ==> #[trigger] old(mem).page(pt@[v].ppn).len() == PAGE_SIZE,
        ensures
            copied(pt@, *old(mem), *final(mem), self.spec_start() as int, copy_last_page(self.spec_start(), page_offset, data@.len()),
                self.spec_start() * PAGE_SIZE + page_offset, data@),
    {
        let len = data.len();
        let ghost m0 = *mem;
        let ghost first = self.start_vpn as int;
        let ghost last = copy_last_page(self.start_vpn, page_offset, data@.len());
        let ghost va0 = self.start_vpn * PAGE_SIZE + page_offset;
        let mut start: usize = 0;
        let mut vpn: usize = self.start_vpn;
        let mut off: usize = page_offset;
        proof {
            assert(data@.subrange(0, 0) =~= Seq::<u8>::empty());
            assert((va0 + 0) / 4096 == first && (va0 + 0) % 4096 == page_offset) by (nonlinear_arith)
                requires va0 == first * 4096 + page_offset, page_offset < 4096, first >= 0;
            if len > 0 {
                assert(first <= (va0 + len - 1) / 4096) by (nonlinear_arith)
                    requires va0 == first * 4096 + page_offset, page_offset >= 0, len >= 1, first >= 0;
            }
        }
        loop
            invariant_except_break
                start <= len,
                va0 + start == vpn * PAGE_SIZE + off,
                off < PAGE_SIZE,
                start > 0 ==> off == 0 && start < len,
                first <= vpn <= last,
                copied(pt@, m0, *mem, first, vpn - 1, va0, data@.subrange(0, start as int)),
            invariant
                len == data@.len(),
                m0 == *old(mem),
                first == self.spec_start(),
                last == copy_last_page(self.spec_start(), page_offset, data@.len()),
                va0 == self.spec_start() * PAGE_SIZE + page_offset,
                va0 + len <= usize::MAX,
                page_offset < PAGE_SIZE,
                forall|v: usize| first <= v <= last ==> #[trigger] pt@.contains_key(v),
                forall|v1: usize, v2: usize| first <= v1 <= last && first <= v2 <= last && v1 != v2
                    ==> #[trigger] pt@[v1].ppn != #[trigger] pt@[v2].ppn,
                forall|v: usize| first <= v <= last ==> #[trigger] m0.page(pt@[v].ppn).len() == PAGE_SIZE,
            ensures
                copied(pt@, m0, *mem, first, last, va0, data@),
            decreases len - start,
        {
            let room = PAGE_SIZE - off;
            let rest = len - start;
            let copy_len = if room < rest { room } else { rest };
            let e = pt.translate(vpn);
            let ppn = match e {
                Some(x) => x.ppn,
                None => 0,
            };
            let ghost mb = *mem;
            proof {
                assert(pt@.contains_key(vpn));
                // The frame of page `vpn` is untouched so far.
                if mb.page(ppn) != m0.page(ppn) {
                    let w = choose|w: usize| first <= w <= vpn - 1 && pt@[w].ppn == ppn;
                    assert(pt@[w].ppn != pt@[vpn].ppn);
                }
            }
            mem.write_bytes(ppn, off, data, start, copy_len);
            let ghost ds = data@.subrange(0, start + copy_len);
            proof {
                let ma = *mem;
                let d0 = data@.subrange(0, start as int);
                assert forall|q: usize| #[trigger] ma.page(q) != m0.page(q) implies exists|v: usize| first <= v <= vpn && pt@[v].ppn == q by {
                    if q != ppn {
                        assert(ma.page(q) == mb.page(q));
                        let w = choose|w: usize| first <= w <= vpn - 1 && pt@[w].ppn == q;
                        assert(first <= w <= vpn && pt@[w].ppn == q);
                    } else {
                        assert(first <= vpn <= vpn && pt@[vpn].ppn == q);
                    }
                }
                assert forall|v: usize| first <= v <= vpn implies #[trigger] ma.page(pt@[v].ppn).len() == PAGE_SIZE by {
                    if v != vpn {
                        assert(pt@[v].ppn != pt@[vpn].ppn);
                        assert(ma.page(pt@[v].ppn) == mb.page(pt@[v].ppn));
                    } else {
                        assert(mb.page(ppn) == m0.page(ppn));
                        assert(ma@.contains_key(ppn));
                        assert(ma.page(ppn).len() == mb.page(ppn).len());
                    }
                }
                assert forall|v: usize, i: int| first <= v <= vpn && 0 <= i < PAGE_SIZE implies #[trigger] ma.page(pt@[v].ppn)[i]
                    == (if va0 <= v * PAGE_SIZE + i < va0 + ds.len() { ds[v * PAGE_SIZE + i - va0] } else { m0.page(pt@[v].ppn)[i] }) by {
                    if v != vpn {
                        assert(pt@[v].ppn != pt@[vpn].ppn);
                        assert(ma.page(pt@[v].ppn) == mb.page(pt@[v].ppn));
                        assert(v * 4096 + i < vpn * 4096) by (nonlinear_arith)
                            requires v < vpn, i < 4096;
                    } else {
                        assert(mb.page(ppn) == m0.page(ppn));
                    }
                }
            }
            start = start + copy_len;
            if start >= len {
                proof {
                    if len > 0 {
                        assert(copy_len >= 1);
                        assert((va0 + len - 1) / 4096 == vpn) by (nonlinear_arith)
                            requires va0 + len - 1 == vpn * 4096 + off + copy_len - 1, off + copy_len <= 4096, copy_len >= 1;
                    }
                    assert(ds =~= data@);
                }
                break;
            }
            proof {
                assert(copy_len == PAGE_SIZE - off);
                assert(va0 + start <= va0 + len - 1);
                assert((va0 + len - 1) / 4096 >= vpn + 1) by (nonlinear_arith)
                    requires va0 + len - 1 >= (vpn + 1) * 4096;
            }
            off = 0;
            vpn = vpn + 1;
        }
    }
}

/// A frame whose copy-on-write share is dropped: an untracked frame
/// changes nothing; the last share returns the frame to the allocator;
/// another lowers the count by one.
pub open spec fn share_dropped(f0: Frames, f1: Frames, p: usize) -> bool {
    let r = f0.refcounts@;
    &&& !r.contains_key(p) ==> f1.refcounts@ == r && f1.allocator == f0.allocator
    &&& r.contains_key(p) && r[p] == 1 ==> {
        &&& f1.refcounts@ == r.remove(p)
        &&& f1.allocator.free_frames() == f0.allocator.free_frames().insert(p)
        &&& f1.allocator.spec_recycled() == f0.allocator.spec_recycled().push(p)
        &&& f1.allocator.spec_current() == f0.allocator.spec_current()
        &&& f1.allocator.spec_end() == f0.allocator.spec_end()
    }
    &&& r.contains_key(p) && r[p] > 1 ==> f1.refcounts@ == r.insert(p, (r[p] - 1) as usize) && f1.allocator == f0.allocator
}

/// Page `vpn` of area `a` can give back what it holds to `f`: a frame it
/// owns is in use and not freed yet; a shared frame has a count of at least
/// one, and when it is the last share, is in use and not freed yet.
pub open spec fn unmap_one_ok(a: MapArea, f: Frames, vpn: usize) -> bool {
    a.spec_type() == MapType::Framed ==> {
        &&& a.data().contains_key(vpn) ==> a.data()[vpn] < f.allocator.spec_current()
            && !f.allocator.spec_recycled().contains(a.data()[vpn])
        &&& !a.data().contains_key(vpn) && a.cow().contains_key(vpn) ==> {
            let p = a.cow()[vpn];
            &&& f.refcounts@.contains_key(p) ==> f.refcounts@[p] >= 1
            &&& f.refcounts@.contains_key(p) && f.refcounts@[p] == 1 ==> p < f.allocator.spec_current()
                && !f.allocator.spec_recycled().contains(p)
        }
    }
}

/// What `MapArea::unmap_one` does to the area (`a0` to `a1`) and the
/// resources (`f0` to `f1`) for page `vpn`.
pub open spec fn unmap_one_post(a0: MapArea, a1: MapArea, f0: Frames, f1: Frames, vpn: usize) -> bool {
    let framed = a0.spec_type() == MapType::Framed;
    let d = a0.data();
    let c = a0.cow();
    &&& a1.shape() == a0.shape()
    &&& f1.wf()
    &&& f1.mem == f0.mem
    &&& framed && d.contains_key(vpn) ==> {
        &&& a1.data() == d.remove(vpn)
        &&& a1.cow() == c
        &&& f1.refcounts == f0.refcounts
        &&& f1.allocator.free_frames() == f0.allocator.free_frames().insert(d[vpn])
        &&& f1.allocator.spec_recycled() == f0.allocator.spec_recycled().push(d[vpn])
        &&& f1.allocator.spec_current() == f0.allocator.spec_current()
        &&& f1.allocator.spec_end() == f0.allocator.spec_end()
    }
    &&& framed && !d.contains_key(vpn) && c.contains_key(vpn) ==> {
        &&& a1.data() == d
        &&& a1.cow() == c.remove(vpn)
        &&& share_dropped(f0, f1, c[vpn])
    }
    &&& !framed || (!d.contains_key(vpn) && !c.contains_key(vpn)) ==> a1.data() == d && a1.cow() == c && f1 == f0
}

/// Page `k` of area `a` among pages `start .. upto` holds a shared frame
/// and no frame of its own.
pub open spec fn shared_only(a: MapArea, upto: int, k: usize) -> bool {
    a.spec_start() <= k < upto && !a.data().contains_key(k) && a.cow().contains_key(k)
}

/// Frame `q` is owned by one of pages `start .. upto` of area `a`.
pub open spec fn data_freed(a: MapArea, upto: int, q: usize) -> bool {
    exists|k: usize| a.spec_start() <= k < upto && a.data().contains_key(k) && #[trigger] a.data()[k] == q
}

/// Frame `p` is shared by one of pages `start .. upto` of area `a` that
/// owns no frame.
pub open spec fn cow_dropped(a: MapArea, upto: int, p: usize) -> bool {
    exists|k: usize| #[trigger] shared_only(a, upto, k) && a.cow()[k] == p
}

/// Frame `p` is shared by such a page and that is its last share in `r`.
pub open spec fn cow_freed(a: MapArea, r: Map<usize, usize>, upto: int, p: usize) -> bool {
    cow_dropped(a, upto, p) && r.contains_key(p) && r[p] == 1
}

/// Area `a` can give back what its pages `start .. end` hold to `f` from
/// table `t`: the pages are mapped; in a framed area the frames the pages
/// own are in use, not freed yet and distinct; the shared frames of pages
/// owning none are distinct, differ from the owned ones and have a count of
/// at least one, and when it is the last share, are in use and not freed.
pub open spec fn unmap_ok(a: MapArea, t: Map<usize, PageTableEntry>, f: Frames) -> bool {
    let d = a.data();
    let c = a.cow();
    let r = f.refcounts@;
    let e = a.spec_end() as int;
    &&& a.spec_start() <= a.spec_end()
    &&& forall|k: usize| a.spec_start() <= k < a.spec_end() ==> #[trigger] maps_valid(t, k)
    &&& a.spec_type() == MapType::Framed ==> {
        &&& forall|k: usize| a.spec_start() <= k < a.spec_end() && #[trigger] d.contains_key(k)
            ==> d[k] < f.allocator.spec_current() && !f.allocator.spec_recycled().contains(d[k])
        &&& forall|k1: usize, k2: usize| a.spec_start() <= k1 < a.spec_end() && a.spec_start() <= k2 < a.spec_end()
            && #[trigger] d.contains_key(k1) && #[trigger] d.contains_key(k2) && k1 != k2 ==> d[k1] != d[k2]
        &&& forall|k: usize| #[trigger] shared_only(a, e, k) ==> {
            let p = c[k];
            &&& r.contains_key(p) ==> r[p] >= 1
            &&& r.contains_key(p) && r[p] == 1 ==> p < f.allocator.spec_current() && !f.allocator.spec_recycled().contains(p)
        }
        &&& forall|k1: usize, k2: usize| #[trigger] shared_only(a, e, k1) && #[trigger] shared_only(a, e, k2) && k1 != k2 ==> c[k1] != c[k2]
        &&& forall|k1: usize, k2: usize| #[trigger] shared_only(a, e, k1) && a.spec_start() <= k2 < a.spec_end() && #[trigger] d.contains_key(k2)
            ==> c[k1] != d[k2]
    }
}

/// The effect of unmapping pages `start .. upto` of area `a0` (now `a1`),
/// from table `t0` (now `t1`) and resources `f0` (now `f1`): those entries
/// are cleared, others untouched; in a framed area the pages drop the
/// frames they own, which return to the allocator, and the pages owning
/// none drop their shares, the last share of a frame returning it.
pub open spec fn unmapped_range(a0: MapArea, a1: MapArea, t0: Map<usize, PageTableEntry>, t1: Map<usize, PageTableEntry>, f0: Frames, f1: Frames, upto: int) -> bool {
    let d = a0.data();
    let c = a0.cow();
    let r = f0.refcounts@;
    let s = a0.spec_start();
    &&& a1.shape() == a0.shape()
    &&& f1.wf()
    &&& f1.mem == f0.mem
    &&& forall|k: usize| s <= k < upto ==> #[trigger] t1.contains_key(k) && t1[k] == (PageTableEntry { ppn: 0, flags: 0, cow: false })
    &&& forall|k: usize| !(s <= k < upto) ==> #[trigger] t1.contains_key(k) == t0.contains_key(k) && (t0.contains_key(k) ==> t1[k] == t0[k])
    &&& a0.spec_type() != MapType::Framed ==> a1.data() == d && a1.cow() == c && f1 == f0
    &&& a0.spec_type() == MapType::Framed ==> {
        &&& forall|k: usize| #[trigger] a1.data().contains_key(k) == (d.contains_key(k) && !(s <= k < upto))
        &&& forall|k: usize| #[trigger] a1.data().contains_key(k) ==> a1.data()[k] == d[k]
        &&& forall|k: usize| #[trigger] a1.cow().contains_key(k) == (c.contains_key(k) && !shared_only(a0, upto, k))
        &&& forall|k: usize| #[trigger] a1.cow().contains_key(k) ==> a1.cow()[k] == c[k]
        &&& f1.allocator.spec_current() == f0.allocator.spec_current()
        &&& f1.allocator.spec_end() == f0.allocator.spec_end()
        &&& forall|q: usize| #[trigger] f1.allocator.free_frames().contains(q) <==> f0.allocator.free_frames().contains(q)
            || data_freed(a0, upto, q) || cow_freed(a0, r, upto, q)
        &&& forall|q: usize| #[trigger] f1.allocator.spec_recycled().contains(q) <==> f0.allocator.spec_recycled().contains(q)
            || data_freed(a0, upto, q) || cow_freed(a0, r, upto, q)
        &&& forall|p: usize| #[trigger] f1.refcounts@.contains_key(p) == (r.contains_key(p) && !cow_freed(a0, r, upto, p))
        &&& forall|p: usize| #[trigger] f1.refcounts@.contains_key(p) ==> f1.refcounts@[p] == (if cow_dropped(a0, upto, p) {
            (r[p] - 1) as usize
        } else {
            r[p]
        })
    }
}

/// Before page `v` is unmapped, with pages `start .. v` done, it is
/// mapped and can give back what it holds.
proof fn lemma_unmap_ready(a0: MapArea, ab: MapArea, t0: Map<usize, PageTableEntry>, tb: Map<usize, PageTableEntry>, f0: Frames, fb: Frames, v: usize)
    requires
        unmap_ok(a0, t0, f0),
        unmapped_range(a0, ab, t0, tb, f0, fb, v as int),
        a0.spec_start() <= v < a0.spec_end(),
    ensures
        maps_valid(tb, v),
        unmap_one_ok(ab, fb, v),
{
    let d = a0.data();
    let c = a0.cow();
    let r = f0.refcounts@;
    let e = a0.spec_end() as int;
    assert(tb.contains_key(v) == t0.contains_key(v));
    assert(maps_valid(t0, v));
    if a0.spec_type() == MapType::Framed {
        assert(ab.data().contains_key(v) == d.contains_key(v));
        if d.contains_key(v) {
            let q = d[v];
            assert(ab.data()[v] == q);
            if data_freed(a0, v as int, q) {
                let k = choose|k: usize| a0.spec_start() <= k < v && d.contains_key(k) && #[trigger] d[k] == q;
                assert(d[k] != d[v]);
            }
            if cow_freed(a0, r, v as int, q) {
                let k = choose|k: usize| #[trigger] shared_only(a0, v as int, k) && c[k] == q;
                assert(shared_only(a0, e, k));
                assert(c[k] != d[v]);
            }
            assert(!fb.allocator.spec_recycled().contains(q));
        } else if c.contains_key(v) {
            assert(!shared_only(a0, v as int, v));
            assert(ab.cow().contains_key(v));
            let p = c[v];
            assert(ab.cow()[v] == p);
            assert(shared_only(a0, e, v));
            if cow_dropped(a0, v as int, p) {
                let k = choose|k: usize| #[trigger] shared_only(a0, v as int, k) && c[k] == p;
                assert(shared_only(a0, e, k));
                assert(c[k] != c[v]);
            }
            if data_freed(a0, v as int, p) {
                let k = choose|k: usize| a0.spec_start() <= k < v && d.contains_key(k) && #[trigger] d[k] == p;
                assert(c[v] != d[k]);
            }
            assert(fb.refcounts@.contains_key(p) == r.contains_key(p));
            if r.contains_key(p) {
                assert(fb.refcounts@[p] == r[p]);
            }
            assert(!fb.allocator.spec_recycled().contains(p) || !(r.contains_key(p) && r[p] == 1));
        }
    }
}

/// Unmapping page `v` after pages `start .. v` unmaps pages `start ..= v`.
proof fn lemma_unmap_step(
    a0: MapArea,
    ab: MapArea,
    a1: MapArea,
    t0: Map<usize, PageTableEntry>,
    tb: Map<usize, PageTableEntry>,
    t1: Map<usize, PageTableEntry>,
    f0: Frames,
    fb: Frames,
    f1: Frames,
    v: usize,
)
    requires
        unmap_ok(a0, t0, f0),
        unmapped_range(a0, ab, t0, tb, f0, fb, v as int),
        a0.spec_start() <= v < a0.spec_end(),
        unmap_one_post(ab, a1, fb, f1, v),
        t1 == tb.insert(v, PageTableEntry { ppn: 0, flags: 0, cow: false }),
    ensures
        unmapped_range(a0, a1, t0, t1, f0, f1, v + 1),
{
    let d = a0.data();
    let c = a0.cow();
    let r = f0.refcounts@;
    let s = a0.spec_start();
    let e = a0.spec_end() as int;
    let w = v as int;
    lemma_unmap_ready(a0, ab, t0, tb, f0, fb, v);
    assert forall|k: usize| !(s <= k < w + 1) implies #[trigger] t1.contains_key(k) == t0.contains_key(k)
        && (t0.contains_key(k) ==> t1[k] == t0[k]) by {
        assert(tb.contains_key(k) == t0.contains_key(k));
    }
    if a0.spec_type() == MapType::Framed {
        assert(ab.data().contains_key(v) == d.contains_key(v));
        // Pages other than `v` keep their standing.
        assert forall|k: usize| k != v implies (#[trigger] shared_only(a0, w + 1, k)) == shared_only(a0, w, k) by {}
        if d.contains_key(v) {
            let q = d[v];
            assert(!shared_only(a0, w + 1, v));
            assert forall|k: usize| #[trigger] shared_only(a0, w + 1, k) == shared_only(a0, w, k) by {}
            assert forall|x: usize| #[trigger] data_freed(a0, w + 1, x) == (data_freed(a0, w, x) || x == q) by {
                if data_freed(a0, w + 1, x) && !data_freed(a0, w, x) {
                    let k = choose|k: usize| s <= k < w + 1 && d.contains_key(k) && #[trigger] d[k] == x;
                    assert(k == v);
                }
                if x == q {
                    assert(s <= v < w + 1 && d.contains_key(v) && d[v] == x);
                }
                if data_freed(a0, w, x) {
                    let k = choose|k: usize| s <= k < w && d.contains_key(k) && #[trigger] d[k] == x;
                    assert(s <= k < w + 1 && d.contains_key(k) && d[k] == x);
                }
            }
            assert forall|x: usize| #[trigger] cow_dropped(a0, w + 1, x) == cow_dropped(a0, w, x) by {
                if cow_dropped(a0, w + 1, x) {
                    let k = choose|k: usize| #[trigger] shared_only(a0, w + 1, k) && c[k] == x;
                    assert(shared_only(a0, w, k));
                }
                if cow_dropped(a0, w, x) {
                    let k = choose|k: usize| #[trigger] shared_only(a0, w, k) && c[k] == x;
                    assert(shared_only(a0, w + 1, k));
                }
            }
            assert forall|x: usize| #[trigger] cow_freed(a0, r, w + 1, x) == cow_freed(a0, r, w, x) by {
                assert(cow_dropped(a0, w + 1, x) == cow_dropped(a0, w, x));
            }
            assert(ab.spec_type() == MapType::Framed);
            assert(ab.data()[v] == q);
            assert(f1.allocator.spec_recycled() == fb.allocator.spec_recycled().push(q));
            assert forall|x: usize| #[trigger] f1.allocator.spec_recycled().contains(x) == (fb.allocator.spec_recycled().contains(x)
                || x == q) by {
                assert(fb.allocator.spec_recycled().push(q).contains(x) == (fb.allocator.spec_recycled().contains(x) || x == q)) by {
                    if fb.allocator.spec_recycled().push(q).contains(x) {
                        let i = choose|i: int| 0 <= i < fb.allocator.spec_recycled().push(q).len()
                            && fb.allocator.spec_recycled().push(q)[i] == x;
                        if i < fb.allocator.spec_recycled().len() {
                            assert(fb.allocator.spec_recycled()[i] == x);
                        }
                    }
                    if fb.allocator.spec_recycled().contains(x) {
                        let i = choose|i: int| 0 <= i < fb.allocator.spec_recycled().len() && fb.allocator.spec_recycled()[i] == x;
                        assert(fb.allocator.spec_recycled().push(q)[i] == x);
                    }
                    if x == q {
                        assert(fb.allocator.spec_recycled().push(q)[fb.allocator.spec_recycled().len() as int] == x);
                    }
                }
            }
            assert forall|x: usize| #[trigger] f1.allocator.spec_recycled().contains(x) <==> f0.allocator.spec_recycled().contains(x)
                || data_freed(a0, w + 1, x) || cow_freed(a0, r, w + 1, x) by {
                assert(fb.allocator.spec_recycled().contains(x) <==> f0.allocator.spec_recycled().contains(x)
                    || data_freed(a0, w, x) || cow_freed(a0, r, w, x));
                assert(cow_freed(a0, r, w + 1, x) == cow_freed(a0, r, w, x));
                assert(data_freed(a0, w + 1, x) == (data_freed(a0, w, x) || x == q));
            }
        } else if c.contains_key(v) {
            let p = c[v];
            assert(shared_only(a0, w + 1, v));
            assert(!shared_only(a0, w, v));
            assert(ab.cow().contains_key(v) && ab.cow()[v] == p);
            assert(shared_only(a0, e, v));
            assert forall|x: usize| #[trigger] data_freed(a0, w + 1, x) == data_freed(a0, w, x) by {
                if data_freed(a0, w + 1, x) {
                    let k = choose|k: usize| s <= k < w + 1 && d.contains_key(k) && #[trigger] d[k] == x;
                    assert(k != v);
                }
                if data_freed(a0, w, x) {
                    let k = choose|k: usize| s <= k < w && d.contains_key(k) && #[trigger] d[k] == x;
                    assert(s <= k < w + 1 && d.contains_key(k) && d[k] == x);
                }
            }
            assert forall|x: usize| #[trigger] cow_dropped(a0, w + 1, x) == (cow_dropped(a0, w, x) || x == p) by {
                if cow_dropped(a0, w + 1, x) && x != p {
                    let k = choose|k: usize| #[trigger] shared_only(a0, w + 1, k) && c[k] == x;
                    assert(k != v);
                    assert(shared_only(a0, w, k));
                }
                if cow_dropped(a0, w, x) {
                    let k = choose|k: usize| #[trigger] shared_only(a0, w, k) && c[k] == x;
                    assert(shared_only(a0, w + 1, k));
                }
                if x == p {
                    assert(shared_only(a0, w + 1, v) && c[v] == x);
                }
            }
            // No page before `v` shares `p`.
            assert(!cow_dropped(a0, w, p)) by {
                if cow_dropped(a0, w, p) {
                    let k = choose|k: usize| #[trigger] shared_only(a0, w, k) && c[k] == p;
                    assert(shared_only(a0, e, k));
                    assert(c[k] != c[v]);
                }
            }
            assert(fb.refcounts@.contains_key(p) == r.contains_key(p));
            if r.contains_key(p) {
                assert(fb.refcounts@[p] == r[p]);
            }
            assert forall|x: usize| #[trigger] cow_freed(a0, r, w + 1, x) == (cow_freed(a0, r, w, x) || (x == p && r.contains_key(p) && r[p] == 1)) by {
                assert(cow_dropped(a0, w + 1, x) == (cow_dropped(a0, w, x) || x == p));
            }
            if r.contains_key(p) && r[p] == 1 {
                assert(ab.spec_type() == MapType::Framed);
                assert(f1.allocator.spec_recycled() == fb.allocator.spec_recycled().push(p));
                assert forall|x: usize| #[trigger] f1.allocator.spec_recycled().contains(x) == (fb.allocator.spec_recycled().contains(x)
                    || x == p) by {
                    if f1.allocator.spec_recycled().contains(x) {
                        let i = choose|i: int| 0 <= i < f1.allocator.spec_recycled().len() && f1.allocator.spec_recycled()[i] == x;
                        if i < fb.allocator.spec_recycled().len() {
                            assert(fb.allocator.spec_recycled()[i] == x);
                        }
                    }
                    if fb.allocator.spec_recycled().contains(x) {
                        let i = choose|i: int| 0 <= i < fb.allocator.spec_recycled().len() && fb.allocator.spec_recycled()[i] == x;
                        assert(f1.allocator.spec_recycled()[i] == x);
                    }
                    if x == p {
                        assert(f1.allocator.spec_recycled()[fb.allocator.spec_recycled().len() as int] == x);
                    }
                }
            }
            assert forall|x: usize| #[trigger] f1.allocator.spec_recycled().contains(x) <==> f0.allocator.spec_recycled().contains(x)
                || data_freed(a0, w + 1, x) || cow_freed(a0, r, w + 1, x) by {
                assert(fb.allocator.spec_recycled().contains(x) <==> f0.allocator.spec_recycled().contains(x)
                    || data_freed(a0, w, x) || cow_freed(a0, r, w, x));
                assert(cow_freed(a0, r, w + 1, x) == (cow_freed(a0, r, w, x) || (x == p && r.contains_key(p) && r[p] == 1)));
                assert(data_freed(a0, w + 1, x) == data_freed(a0, w, x));
                if !(r.contains_key(p) && r[p] == 1) {
                    assert(f1.allocator == fb.allocator);
                }
            }
        } else {
            assert(!shared_only(a0, w + 1, v));
            assert forall|k: usize| #[trigger] shared_only(a0, w + 1, k) == shared_only(a0, w, k) by {}
            assert forall|x: usize| #[trigger] data_freed(a0, w + 1, x) == data_freed(a0, w, x) by {
                if data_freed(a0, w + 1, x) {
                    let k = choose|k: usize| s <= k < w + 1 && d.contains_key(k) && #[trigger] d[k] == x;
                    assert(k != v);
                }
                if data_freed(a0, w, x) {
                    let k = choose|k: usize| s <= k < w && d.contains_key(k) && #[trigger] d[k] == x;
                    assert(s <= k < w + 1 && d.contains_key(k) && d[k] == x);
                }
            }
            assert forall|x: usize| #[trigger] cow_dropped(a0, w + 1, x) == cow_dropped(a0, w, x) by {
                if cow_dropped(a0, w + 1, x) {
                    let k = choose|k: usize| #[trigger] shared_only(a0, w + 1, k) && c[k] == x;
                    assert(shared_only(a0, w, k));
                }
                if cow_dropped(a0, w, x) {
                    let k = choose|k: usize| #[trigger] shared_only(a0, w, k) && c[k] == x;
                    assert(shared_only(a0, w + 1, k));
                }
            }
            assert forall|x: usize| #[trigger] cow_freed(a0, r, w + 1, x) == cow_freed(a0, r, w, x) by {
                assert(cow_dropped(a0, w + 1, x) == cow_dropped(a0, w, x));
            }
            assert forall|x: usize| #[trigger] f1.allocator.spec_recycled().contains(x) <==> f0.allocator.spec_recycled().contains(x)
                || data_freed(a0, w + 1, x) || cow_freed(a0, r, w + 1, x) by {
                assert(fb.allocator.spec_recycled().contains(x) <==> f0.allocator.spec_recycled().contains(x)
                    || data_freed(a0, w, x) || cow_freed(a0, r, w, x));
                assert(cow_freed(a0, r, w + 1, x) == cow_freed(a0, r, w, x));
                assert(data_freed(a0, w + 1, x) == data_freed(a0, w, x));
            }
        }
    }
}

/// The index, from `k` on, of the first area that starts at page `start`.
pub open spec fn area_starting(areas: Seq<MapArea>, start: usize, k: int) -> Option<int>
    decreases areas.len() - k,
{
    if k < 0 || k >= areas.len() {
        None
    } else if areas[k].spec_start() == start {
        Some(k)
    } else {
        area_starting(areas, start, k + 1)
    }
}

/// The frames area `a` owns or shares are those of its pages, and no page
/// both owns and shares one.
pub open spec fn area_keys_ok(a: MapArea) -> bool {
    &&& a.spec_type() != MapType::Framed ==> a.data() == Map::<usize, usize>::empty() && a.cow() == Map::<usize, usize>::empty()
    &&& forall|k: usize| #[trigger] a.data().contains_key(k) ==> a.spec_start() <= k < a.spec_end()
    &&& forall|k: usize| #[trigger] a.cow().contains_key(k) ==> a.spec_start() <= k < a.spec_end() && !a.data().contains_key(k)
}

/// The index, from `k` on, of the first area that holds page `vpn`.
pub open spec fn first_area(areas: Seq<MapArea>, vpn: usize, k: int) -> Option<int>
    decreases areas.len() - k,
{
    if k < 0 || k >= areas.len() {
        None
    } else if areas[k].has_vpn(vpn) {
        Some(k)
    } else {
        first_area(areas, vpn, k + 1)
    }
}

proof fn lemma_first_area(areas: Seq<MapArea>, vpn: usize, k: int)
    requires
        0 <= k,
    ensures
        first_area(areas, vpn, k) matches Some(i) ==> k <= i < areas.len() && areas[i].has_vpn(vpn)
            && forall|j: int| k <= j < i ==> !(#[trigger] areas[j]).has_vpn(vpn),
        first_area(areas, vpn, k) is None ==> forall|j: int| k <= j < areas.len() ==> !(#[trigger] areas[j]).has_vpn(vpn),
    decreases areas.len() - k,
{
    if k < areas.len() {
        lemma_first_area(areas, vpn, k + 1);
    }
}

/// The copy-on-write count of frame `p`; 0 when untracked.
pub open spec fn refcount(refs: Map<usize, usize>, p: usize) -> int {
    if refs.contains_key(p) { refs[p] as int } else { 0 }
}

/// The entry of a page made writable again: frame `p`, write bit set,
/// copy-on-write mark cleared.
pub open spec fn resolved_entry(e: PageTableEntry, p: usize) -> PageTableEntry {
    PageTableEntry { ppn: p, flags: e.flags | PTE_W, cow: false }
}

/// The index, from `k` on, of the first framed area that holds page `vpn`.
pub open spec fn framed_owner(areas: Seq<MapArea>, vpn: usize, k: int) -> Option<int>
    decreases areas.len() - k,
{
    if k < 0 || k >= areas.len() {
        None
    } else if areas[k].spec_type() == MapType::Framed && areas[k].has_vpn(vpn) {
        Some(k)
    } else {
        framed_owner(areas, vpn, k + 1)
    }
}

proof fn lemma_framed_owner(areas: Seq<MapArea>, vpn: usize, k: int)
    requires
        0 <= k,
    ensures
        framed_owner(areas, vpn, k) matches Some(i) ==> k <= i < areas.len() && areas[i].spec_type() == MapType::Framed
            && areas[i].has_vpn(vpn)
            && forall|j: int| k <= j < i ==> !((#[trigger] areas[j]).spec_type() == MapType::Framed && areas[j].has_vpn(vpn)),
        framed_owner(areas, vpn, k) is None ==> forall|j: int|
            k <= j < areas.len() ==> !((#[trigger] areas[j]).spec_type() == MapType::Framed && areas[j].has_vpn(vpn)),
    decreases areas.len() - k,
{
    if k < areas.len() {
        lemma_framed_owner(areas, vpn, k + 1);
    }
}

/// Owners depend on the shapes of the areas alone.
proof fn lemma_framed_owner_shapes(a: Seq<MapArea>, b: Seq<MapArea>, vpn: usize, k: int)
    requires
        a.len() == b.len(),
        forall|j: int| 0 <= j < a.len() ==> (#[trigger] a[j]).shape() == b[j].shape(),
    ensures
        framed_owner(a, vpn, k) == framed_owner(b, vpn, k),
    decreases a.len() - k,
{
    if 0 <= k < a.len() {
        assert(a[k].shape() == b[k].shape());
        lemma_framed_owner_shapes(a, b, vpn, k + 1);
    }
}

/// Page `vpn` lies in a framed area and is mapped: a fork shares its frame.
pub open spec fn shared_page(areas: Seq<MapArea>, t: Map<usize, PageTableEntry>, vpn: usize) -> bool {
    framed_owner(areas, vpn, 0) is Some && maps_valid(t, vpn)
}

/// The area a shared page belongs to.
pub open spec fn owner_of(areas: Seq<MapArea>, vpn: usize) -> int {
    framed_owner(areas, vpn, 0)->0
}

/// A shared page whose area is writable turns copy-on-write in a fork.
pub open spec fn cow_page(areas: Seq<MapArea>, t: Map<usize, PageTableEntry>, vpn: usize) -> bool {
    shared_page(areas, t, vpn) && has_flag(areas[owner_of(areas, vpn)].spec_perm(), MAP_W)
}

/// A shared page that its area held a frame for (owned or shared): its
/// frame gains a sharer.
pub open spec fn counted_page(areas: Seq<MapArea>, t: Map<usize, PageTableEntry>, vpn: usize) -> bool {
    shared_page(areas, t, vpn) && (areas[owner_of(areas, vpn)].data().contains_key(vpn)
        || areas[owner_of(areas, vpn)].cow().contains_key(vpn))
}

/// The entry of a page turned copy-on-write: same frame, not writable.
pub open spec fn cow_entry(e: PageTableEntry) -> PageTableEntry {
    PageTableEntry { ppn: e.ppn, flags: e.flags & !PTE_W, cow: true }
}

/// The count of frame `p` with one sharer more (an untracked frame has one).
pub open spec fn bumped(refs: Map<usize, usize>, p: usize) -> usize {
    if refs.contains_key(p) { (refs[p] + 1) as usize } else { 2 }
}

/// The child's entry for shared page `v` over the entry `k` that its
/// kernel mapping may have put there: the parent's frame (a page mapped
/// already keeps its frame and gains the flags), with the area's
/// permission, and without write but copy-on-write when the area is
/// writable.
pub open spec fn child_entry(kt: Map<usize, PageTableEntry>, v: usize, ppn: usize, perm: u8) -> PageTableEntry {
    let w = has_flag(perm, MAP_W);
    let f: u8 = if w { ((perm & !PTE_W) | PTE_V) as u8 } else { (perm | PTE_V) as u8 };
    let base = map_effect(kt, v, ppn, f)[v];
    if w { PageTableEntry { cow: true, ..base } } else { base }
}

/// Page `v` was handled by a fork that has gone through areas `0 .. ai`
/// and, in area `ai`, through the pages below `cur`.
pub open spec fn forked(areas: Seq<MapArea>, t: Map<usize, PageTableEntry>, ai: int, cur: int, v: usize) -> bool {
    shared_page(areas, t, v) && (owner_of(areas, v) < ai || (owner_of(areas, v) == ai && v < cur))
}

/// The parent's table after those pages: copy-on-write pages lose write.
pub open spec fn parent_table_after(areas: Seq<MapArea>, t: Map<usize, PageTableEntry>, ai: int, cur: int) -> Map<usize, PageTableEntry> {
    Map::new(
        |v: usize| t.contains_key(v),
        |v: usize| if forked(areas, t, ai, cur, v) && cow_page(areas, t, v) { cow_entry(t[v]) } else { t[v] },
    )
}

/// The child's table after those pages, over its kernel mapping `kt`.
pub open spec fn child_table_after(areas: Seq<MapArea>, t: Map<usize, PageTableEntry>, kt: Map<usize, PageTableEntry>, ai: int, cur: int) -> Map<usize, PageTableEntry> {
    Map::new(
        |v: usize| kt.contains_key(v) || forked(areas, t, ai, cur, v),
        |v: usize| if forked(areas, t, ai, cur, v) {
            child_entry(kt, v, t[v].ppn, areas[owner_of(areas, v)].spec_perm())
        } else {
            kt[v]
        },
    )
}

/// The frames the handled pages owned move to the shared ones.
pub open spec fn moved_to_cow(areas: Seq<MapArea>, t: Map<usize, PageTableEntry>, i: int, cur: int, v: usize) -> bool {
    shared_page(areas, t, v) && owner_of(areas, v) == i && v < cur && areas[i].data().contains_key(v)
}

/// Area `a` is area `i` of `areas` after the fork handled its pages below
/// `cur`.
pub open spec fn parent_area_after(areas: Seq<MapArea>, t: Map<usize, PageTableEntry>, i: int, cur: int, a: MapArea) -> bool {
    &&& a.shape() == areas[i].shape()
    &&& forall|v: usize| #[trigger] a.data().contains_key(v) == (areas[i].data().contains_key(v)
        && !(shared_page(areas, t, v) && owner_of(areas, v) == i && v < cur))
    &&& forall|v: usize| a.data().contains_key(v) ==> #[trigger] a.data()[v] == areas[i].data()[v]
    &&& forall|v: usize| #[trigger] a.cow().contains_key(v) == (areas[i].cow().contains_key(v) || moved_to_cow(areas, t, i, cur, v))
    &&& forall|v: usize| a.cow().contains_key(v) ==> #[trigger] a.cow()[v] == (if moved_to_cow(areas, t, i, cur, v) {
        t[v].ppn
    } else {
        areas[i].cow()[v]
    })
}

/// Area `a` is the child's copy of area `i` after the pages below `cur`:
/// same shape, no frame of its own, the handled pages' frames shared.
pub open spec fn child_area_after(areas: Seq<MapArea>, t: Map<usize, PageTableEntry>, i: int, cur: int, a: MapArea) -> bool {
    &&& a.shape() == areas[i].shape()
    &&& a.data() == Map::<usize, usize>::empty()
    &&& forall|v: usize| #[trigger] a.cow().contains_key(v) == (shared_page(areas, t, v) && owner_of(areas, v) == i && v < cur)
    &&& forall|v: usize| a.cow().contains_key(v) ==> #[trigger] a.cow()[v] == t[v].ppn
}

/// The counts after the handled pages: each counted page's frame gained
/// a sharer; the others are as they were.
pub open spec fn refs_after(areas: Seq<MapArea>, t: Map<usize, PageTableEntry>, refs: Map<usize, usize>, r: Map<usize, usize>, ai: int, cur: int) -> bool {
    &&& forall|v: usize| forked(areas, t, ai, cur, v) && counted_page(areas, t, v) ==> #[trigger] r.contains_key(t[v].ppn)
        && r[t[v].ppn] == bumped(refs, t[v].ppn)
    &&& forall|p: usize| (forall|v: usize| forked(areas, t, ai, cur, v) && counted_page(areas, t, v) ==> #[trigger] t[v].ppn != p)
        ==> #[trigger] r.contains_key(p) == refs.contains_key(p) && (refs.contains_key(p) ==> r[p] == refs[p])
}

/// The frames of distinct shared pages differ, and each can gain a sharer.
pub open spec fn forkable(areas: Seq<MapArea>, t: Map<usize, PageTableEntry>, refs: Map<usize, usize>) -> bool {
    &&& forall|v1: usize, v2: usize| shared_page(areas, t, v1) && shared_page(areas, t, v2) && v1 != v2
        ==> #[trigger] t[v1].ppn != #[trigger] t[v2].ppn
    &&& forall|v: usize| #[trigger] shared_page(areas, t, v) ==> refcount(refs, t[v].ppn) < usize::MAX
}

proof fn lemma_write_set(f: u8)
    ensures
        has_flag(f | PTE_W, PTE_W),
{
    assert((f | 4u8) & 4u8 != 0u8) by (bit_vector);
}

proof fn lemma_valid_kept(f: u8)
    ensures
        has_flag(f & !PTE_W, PTE_V) == has_flag(f, PTE_V),
{
    assert(((f & !4u8) & 1u8 != 0u8) == (f & 1u8 != 0u8)) by (bit_vector);
}

/// The state of a fork at page `vpn` of area `ai`: parent area `a`, child
/// area `na`, tables `pt`, `ct`, the pages seen `seen` and counts `r`.
pub open spec fn fork_at(
    areas: Seq<MapArea>,
    t: Map<usize, PageTableEntry>,
    kt: Map<usize, PageTableEntry>,
    refs: Map<usize, usize>,
    ai: int,
    cur: int,
    a: MapArea,
    na: MapArea,
    pt: Map<usize, PageTableEntry>,
    ct: Map<usize, PageTableEntry>,
    seen: Map<usize, usize>,
    r: Map<usize, usize>,
) -> bool {
    &&& parent_area_after(areas, t, ai, cur, a)
    &&& child_area_after(areas, t, ai, cur, na)
    &&& pt == parent_table_after(areas, t, ai, cur)
    &&& ct == child_table_after(areas, t, kt, ai, cur)
    &&& forall|v: usize| #[trigger] seen.contains_key(v) == forked(areas, t, ai, cur, v)
    &&& forall|v: usize| seen.contains_key(v) ==> #[trigger] seen[v] == t[v].ppn
    &&& refs_after(areas, t, refs, r, ai, cur)
}

/// A page that area `ai` does not take leaves every handled set as it was.
proof fn lemma_fork_skip(areas: Seq<MapArea>, t: Map<usize, PageTableEntry>, ai: int, vpn: usize)
    requires
        !(shared_page(areas, t, vpn) && owner_of(areas, vpn) == ai),
    ensures
        forall|v: usize| #[trigger] forked(areas, t, ai, vpn + 1, v) == forked(areas, t, ai, vpn as int, v),
        forall|v: usize| #[trigger] moved_to_cow(areas, t, ai, vpn + 1, v) == moved_to_cow(areas, t, ai, vpn as int, v),
        parent_table_after(areas, t, ai, vpn + 1) == parent_table_after(areas, t, ai, vpn as int),
{
    assert forall|v: usize| #[trigger] forked(areas, t, ai, vpn + 1, v) == forked(areas, t, ai, vpn as int, v) by {
        if v == vpn {
        }
    }
    assert forall|v: usize| #[trigger] moved_to_cow(areas, t, ai, vpn + 1, v) == moved_to_cow(areas, t, ai, vpn as int, v) by {
        if v == vpn {
        }
    }
    assert(parent_table_after(areas, t, ai, vpn + 1) =~= parent_table_after(areas, t, ai, vpn as int));
}

/// How many of the first `n` areas are framed.
pub open spec fn framed_count(areas: Seq<MapArea>, n: int) -> int
    decreases n,
{
    if n <= 0 {
        0
    } else {
        framed_count(areas, n - 1) + (if areas[n - 1].spec_type() == MapType::Framed { 1int } else { 0int })
    }
}

proof fn lemma_framed_count_mono(areas: Seq<MapArea>, a: int, b: int)
    requires
        0 <= a <= b <= areas.len(),
    ensures
        framed_count(areas, a) <= framed_count(areas, b),
        0 <= framed_count(areas, a),
    decreases b,
{
    if a < b {
        lemma_framed_count_mono(areas, a, b - 1);
    } else if a > 0 {
        lemma_framed_count_mono(areas, a - 1, a - 1);
    }
}

/// Handling all pages of area `ai` is handling the areas before `ai + 1`.
proof fn lemma_fork_next(areas: Seq<MapArea>, t: Map<usize, PageTableEntry>, kt: Map<usize, PageTableEntry>, ai: int, cur: int)
    requires
        0 <= ai < areas.len(),
        areas[ai].spec_type() == MapType::Framed ==> cur == areas[ai].spec_end(),
        areas[ai].spec_type() != MapType::Framed ==> cur == 0,
    ensures
        forall|v: usize| #[trigger] forked(areas, t, ai, cur, v) == forked(areas, t, ai + 1, 0, v),
        parent_table_after(areas, t, ai, cur) == parent_table_after(areas, t, ai + 1, 0),
        child_table_after(areas, t, kt, ai, cur) == child_table_after(areas, t, kt, ai + 1, 0),
{
    assert forall|v: usize| #[trigger] forked(areas, t, ai, cur, v) == forked(areas, t, ai + 1, 0, v) by {
        if shared_page(areas, t, v) && owner_of(areas, v) == ai {
            lemma_framed_owner(areas, v, 0);
        }
    }
    assert(parent_table_after(areas, t, ai, cur) =~= parent_table_after(areas, t, ai + 1, 0));
    assert(child_table_after(areas, t, kt, ai, cur) =~= child_table_after(areas, t, kt, ai + 1, 0));
}

/// After a fork, a shared page outside the kernel regions maps the same
/// frame in parent and child, and when its area is writable neither table
/// lets it be written: both mark it copy-on-write.
pub proof fn law_fork_shares_frames(areas: Seq<MapArea>, t: Map<usize, PageTableEntry>, v: usize)
    requires
        shared_page(areas, t, v),
    ensures
        ({
            let pe = parent_table_after(areas, t, areas.len() as int, 0)[v];
            let ce = child_entry(Map::<usize, PageTableEntry>::empty(), v, t[v].ppn, areas[owner_of(areas, v)].spec_perm());
            &&& pe.ppn == t[v].ppn
            &&& ce.ppn == t[v].ppn
            &&& has_flag(ce.flags, PTE_V)
            &&& cow_page(areas, t, v) ==> pe.cow && ce.cow && !has_flag(pe.flags, PTE_W) && !has_flag(ce.flags, PTE_W)
            &&& !cow_page(areas, t, v) ==> pe == t[v] && !ce.cow
        }),
{
    lemma_framed_owner(areas, v, 0);
    assert(forked(areas, t, areas.len() as int, 0, v));
    let perm = areas[owner_of(areas, v)].spec_perm();
    let f = t[v].flags;
    assert(((f & !4u8) & 4u8) == 0u8) by (bit_vector);
    assert(((((perm & !4u8) | 1u8) as u8 | 1u8) & 4u8) == 0u8) by (bit_vector);
    assert(((((perm & !4u8) | 1u8) as u8 | 1u8) & 1u8) != 0u8) by (bit_vector);
    assert((((perm | 1u8) as u8 | 1u8) & 1u8) != 0u8) by (bit_vector);
}

/// The link-time addresses of the kernel's sections.
#[derive(Clone, Copy, Debug)]
pub struct KernelLayout {
    pub stext: usize,
    pub etext: usize,
    pub srodata: usize,
    pub erodata: usize,
    pub sdata: usize,
    pub edata: usize,
    pub sbss_with_stack: usize,
    pub ebss: usize,
    pub ekernel: usize,
}

impl KernelLayout {
    /// Each section ends where or after it starts, and the kernel ends
    /// inside physical memory.
    pub open spec fn wf(&self) -> bool {
        &&& self.stext <= self.etext
        &&& self.srodata <= self.erodata
        &&& self.sdata <= self.edata
        &&& self.sbss_with_stack <= self.ebss
        &&& self.sdata <= self.ebss
        &&& self.ekernel <= MEMORY_END
    }
}

/// A region to map identically: start and end address and permission.
pub type Region = (usize, usize, u8);

/// Page `v` lies in the pages that region `r` touches.
pub open spec fn region_has(r: Region, v: usize) -> bool {
    r.0 / PAGE_SIZE <= v < ceil_vpn(r.1)
}

/// Page `v` lies in one of the first `n` regions.
pub open spec fn in_regions(rs: Seq<Region>, n: int, v: usize) -> bool {
    exists|j: int| 0 <= j < n && #[trigger] region_has(rs[j], v)
}

/// The permissions of the regions among the first `n` of `rs` that hold
/// page `v`, or-ed together.
pub open spec fn perm_union(rs: Seq<Region>, n: int, v: usize) -> u8
    decreases n,
{
    if n <= 0 {
        0u8
    } else {
        perm_union(rs, n - 1, v) | (if region_has(rs[n - 1], v) { rs[n - 1].2 } else { 0u8 })
    }
}

/// The flags of the entry of `v` in `m`, or none.
pub open spec fn base_flags(m: Map<usize, PageTableEntry>, v: usize) -> u8 {
    if m.contains_key(v) { m[v].flags } else { 0u8 }
}

proof fn lemma_perm_union_outside(rs: Seq<Region>, n: int, v: usize)
    requires
        !in_regions(rs, n, v),
    ensures
        perm_union(rs, n, v) == 0u8,
    decreases n,
{
    if n > 0 {
        assert(!region_has(rs[n - 1], v));
        assert forall|j: int| 0 <= j < n - 1 implies !#[trigger] region_has(rs[j], v) by {
            assert(!(0 <= j < n && region_has(rs[j], v)));
        }
        lemma_perm_union_outside(rs, n - 1, v);
        assert(0u8 | 0u8 == 0u8) by (bit_vector);
    }
}

/// No region among the first `n` of `rs` asks for the user bit, so
/// neither does their union.
proof fn lemma_perm_union_no_user(rs: Seq<Region>, n: int, v: usize)
    requires
        n <= rs.len(),
        forall|j: int| 0 <= j < n ==> (#[trigger] rs[j]).2 & PTE_U == 0u8,
    ensures
        perm_union(rs, n, v) & PTE_U == 0u8,
    decreases n,
{
    assert(0u8 & 16u8 == 0u8) by (bit_vector);
    if n > 0 {
        lemma_perm_union_no_user(rs, n - 1, v);
        let a = perm_union(rs, n - 1, v);
        let b: u8 = if region_has(rs[n - 1], v) { rs[n - 1].2 } else { 0u8 };
        assert(0u8 & 16u8 == 0u8) by (bit_vector);
        assert(b & 16u8 == 0u8);
        assert((a | b) & 16u8 == 0u8) by (bit_vector)
            requires
                a & 16u8 == 0u8,
                b & 16u8 == 0u8,
        ;
    }
}

proof fn lemma_flag_bits(b: u8, u: u8, p: u8)
    ensures
        (b | u | 1u8) | p | 1u8 == b | (u | p) | 1u8,
        u | 0u8 == u,
        0u8 | p == p,
        b | p | 1u8 == b | (0u8 | p) | 1u8,
        p | 1u8 == 0u8 | (0u8 | p) | 1u8,
{
    assert((b | u | 1u8) | p | 1u8 == b | (u | p) | 1u8) by (bit_vector);
    assert(u | 0u8 == u) by (bit_vector);
    assert(0u8 | p == p) by (bit_vector);
    assert(b | p | 1u8 == b | (0u8 | p) | 1u8) by (bit_vector);
    assert(p | 1u8 == 0u8 | (0u8 | p) | 1u8) by (bit_vector);
}

/// Every entry is valid and maps the frame of its own number.
pub open spec fn identity_on(m: Map<usize, PageTableEntry>) -> bool {
    forall|v: usize| #[trigger] m.contains_key(v) ==> m[v].ppn == v && has_flag(m[v].flags, PTE_V)
}

/// The regions the kernel maps identically into every address space: its
/// text, read-only data, data and bss, the rest of physical memory, and
/// the UART, PLIC and virtio registers.
pub open spec fn kernel_space_regions(l: KernelLayout) -> Seq<Region> {
    seq![
        (l.stext, l.etext, MAP_R | MAP_X),
        (l.srodata, l.erodata, MAP_R),
        (l.sdata, l.ebss, MAP_R | MAP_W),
        (l.ekernel, MEMORY_END, MAP_R | MAP_W),
        (UART_BASE, (UART_BASE + 0x1000) as usize, MAP_R | MAP_W),
        (PLIC_BASE, (PLIC_BASE + 0x40_0000) as usize, MAP_R | MAP_W),
        (VIRTIO0_BASE, (VIRTIO0_BASE + 0x1000) as usize, MAP_R | MAP_W),
    ]
}

/// The regions of the kernel's own address space: as
/// `kernel_space_regions`, with data and bss apart.
pub open spec fn kernel_regions(l: KernelLayout) -> Seq<Region> {
    seq![
        (l.stext, l.etext, MAP_R | MAP_X),
        (l.srodata, l.erodata, MAP_R),
        (l.sdata, l.edata, MAP_R | MAP_W),
        (l.sbss_with_stack, l.ebss, MAP_R | MAP_W),
        (l.ekernel, MEMORY_END, MAP_R | MAP_W),
        (UART_BASE, (UART_BASE + 0x1000) as usize, MAP_R | MAP_W),
        (PLIC_BASE, (PLIC_BASE + 0x40_0000) as usize, MAP_R | MAP_W),
        (VIRTIO0_BASE, (VIRTIO0_BASE + 0x1000) as usize, MAP_R | MAP_W),
    ]
}

/// The identical area of region `r`.
pub open spec fn region_area_ok(a: MapArea, r: Region) -> bool {
    &&& a.spec_start() == r.0 / PAGE_SIZE
    &&& a.spec_end() == ceil_vpn(r.1)
    &&& a.spec_type() == MapType::Identical
    &&& a.spec_perm() == r.2
    &&& a.data() == Map::<usize, usize>::empty()
    &&& a.cow() == Map::<usize, usize>::empty()
}

/// The kernel pages that a fork does not share map the frame of their own
/// number.
pub open spec fn kernel_pages_kept(ct: Map<usize, PageTableEntry>, areas: Seq<MapArea>, t: Map<usize, PageTableEntry>, layout: KernelLayout) -> bool {
    forall|v: usize| !shared_page(areas, t, v) && in_regions(kernel_space_regions(layout), 7, v)
        ==> #[trigger] ct[v].ppn == v && has_flag(ct[v].flags, PTE_V)
}

/// `ms` is the user address space that `MemorySet::from_elf` makes of
/// program headers `segs`, with stack top `top`, over resources `f`: the
/// kernel regions mapped identically, one framed area per loaded segment
/// in order, the stack of four pages after a guard page above the last
/// loaded segment, and the trampoline; its user pages are those areas',
/// each with a frame of its own holding the loaded bytes (the trampoline
/// code on its page, the last loaded segment's file byte where one covers
/// an address, else zero).
pub open spec fn elf_space(segs: Seq<ElfSegment>, layout: KernelLayout, ms: MemorySet, top: usize, f: Frames) -> bool {
    let n = segs.len() as int;
    let lo = last_load_end(segs, n) + 1;
    let shapes = load_shapes(segs, n);
    &&& top == lo * PAGE_SIZE + USER_STACK_SIZE
    &&& ms.wf()
    &&& ms.areas().len() == 7 + shapes.len() + 2
    &&& forall|j: int| 0 <= j < 7 ==> region_area_ok(#[trigger] ms.areas()[j], kernel_space_regions(layout)[j])
    &&& forall|j: int| 0 <= j < shapes.len() ==> (#[trigger] ms.areas()[7 + j]).shape() == shapes[j]
    &&& ms.areas()[7 + shapes.len() as int].shape() == shape_of((lo * PAGE_SIZE) as usize, top, MapType::Framed, MAP_R | MAP_W | MAP_U)
    &&& ms.areas()[8 + shapes.len() as int].shape() == shape_of(
        THREAD_EXIT_TRAMPOLINE,
        (THREAD_EXIT_TRAMPOLINE + PAGE_SIZE) as usize,
        MapType::Framed,
        MAP_R | MAP_X | MAP_U,
    )
    &&& user_inv(
        ms.pt(),
        f,
        kernel_space_regions(layout),
        |v: usize| elf_page(segs, n, v) || lo <= v < lo + 4 || v == trampoline_page(),
        |va: int| if THREAD_EXIT_TRAMPOLINE <= va < THREAD_EXIT_TRAMPOLINE + 12 {
            trampoline_code()[va - THREAD_EXIT_TRAMPOLINE]
        } else {
            byte_or_zero(loaded_byte(segs, n, va))
        },
    )
}

/// An address space: a page table and the areas mapped in it.
pub struct MemorySet {
    page_table: PageTable,
    areas: Vec<MapArea>,
}

impl MemorySet {
    /// The page table's entries.
    pub closed spec fn pt(&self) -> Map<usize, PageTableEntry> {
        self.page_table@
    }

    /// The frame of the root directory.
    pub closed spec fn spec_root(&self) -> usize {
        self.page_table.spec_root()
    }

    /// The areas in the order they were mapped.
    pub closed spec fn areas(&self) -> Seq<MapArea> {
        self.areas@
    }

    /// Each area's range runs forward.
    pub open spec fn wf(&self) -> bool {
        forall|j: int| 0 <= j < self.areas().len() ==> #[trigger] self.areas()[j].spec_start() <= self.areas()[j].spec_end()
    }

    /// An empty address space (its root directory takes a frame).
    pub fn new_bare(frames: &mut Frames) -> (ms: Self)
        requires
            old(frames).wf(),
            old(frames).allocator.available() > 0,
        ensures
            final(frames).wf(),
            ms.pt() == Map::<usize, PageTableEntry>::empty(),
            ms.areas() == Seq::<MapArea>::empty(),
            ms.wf(),
            old(frames).allocator.free_frames().contains(ms.spec_root()),
            final(frames).allocator.free_frames() == old(frames).allocator.free_frames().remove(ms.spec_root()),
            final(frames).allocator.available() == old(frames).allocator.available() - 1,
            final(frames).refcounts == old(frames).refcounts,
            final(frames).mem@ == old(frames).mem@.remove(ms.spec_root()),
    {
        MemorySet { page_table: PageTable::new(frames), areas: Vec::new() }
    }

    /// The `satp` value that selects this address space.
    pub fn token(&self) -> (t: u64)
        ensures
            t == ((8u64 << 60u64) | (self.spec_root() as u64)),
    {
        self.page_table.token()
    }

    /// The entry of `vpn`, if the walk reaches one.
    pub fn translate(&self, vpn: usize) -> (r: Option<PageTableEntry>)
        ensures
            r == (if self.pt().contains_key(vpn) { Some(self.pt()[vpn]) } else { None::<PageTableEntry> }),
    {
        self.page_table.translate(vpn)
    }

    /// Maps `area` and adds it.
    fn push(&mut self, area: MapArea, frames: &mut Frames)
        requires
            old(frames).wf(),
            area.spec_start() <= area.spec_end(),
            area.spec_type() == MapType::Framed ==> old(frames).allocator.available() >= area.spec_end() - area.spec_start(),
        ensures
            final(self).areas().len() == old(self).areas().len() + 1,
            final(self).areas().drop_last() == old(self).areas(),
            mapped_range(area.shape(), area.data(), area.cow(), final(self).areas().last(), old(self).pt(), final(self).pt(), *old(frames), *final(frames), area.spec_end() as int),
            final(self).spec_root() == old(self).spec_root(),
            old(self).wf() ==> final(self).wf(),
    {
        let mut area = area;
        area.map(&mut self.page_table, frames);
        self.areas.push(area);
        proof {
            assert(self.areas@.drop_last() =~= old(self).areas@);
            if old(self).wf() {
                assert forall|j: int| 0 <= j < self.areas().len() implies #[trigger] self.areas()[j].spec_start() <= self.areas()[j].spec_end() by {
                    if j < old(self).areas().len() {
                        assert(self.areas()[j] == old(self).areas()[j]);
                    }
                }
            }
        }
    }

    /// Maps `area` of pages outside the kernel regions and adds it; with
    /// `data`, copies it into the area from byte `page_offset` of its first
    /// page on. Its pages join the user pages, new ones zeroed.
    fn push_with_offset(
        &mut self,
        area: MapArea,
        data: Option<&[u8]>,
        page_offset: usize,
        frames: &mut Frames,
        Ghost(kr): Ghost<Seq<Region>>,
        Ghost(user): Ghost<spec_fn(usize) -> bool>,
        Ghost(expect): Ghost<spec_fn(int) -> u8>,
    )
        requires
            old(frames).wf(),
            area.spec_type() == MapType::Framed,
            area.data() == Map::<usize, usize>::empty(),
            area.cow() == Map::<usize, usize>::empty(),
            area.spec_start() <= area.spec_end(),
            old(frames).allocator.available() >= area.spec_end() - area.spec_start(),
            user_inv(old(self).pt(), *old(frames), kr, user, expect),
            forall|v: usize| area.spec_start() <= v < area.spec_end() ==> !#[trigger] in_regions(kr, 7, v),
            forall|v: usize, i: int| area.spec_start() <= v < area.spec_end() && !user(v) && 0 <= i < PAGE_SIZE
                ==> #[trigger] expect(v * PAGE_SIZE + i) == 0,
            data is Some ==> {
                &&& page_offset < PAGE_SIZE
                &&& area.spec_start() * PAGE_SIZE + page_offset + data->0@.len() <= usize::MAX
                &&& copy_last_page(area.spec_start(), page_offset, data->0@.len()) < area.spec_end()
            },
        ensures
            final(self).areas().len() == old(self).areas().len() + 1,
            final(self).areas().drop_last() == old(self).areas(),
            final(self).areas().last().shape() == area.shape(),
            final(self).spec_root() == old(self).spec_root(),
            old(self).wf() ==> final(self).wf(),
            final(frames).wf(),
            final(frames).refcounts == old(frames).refcounts,
            final(frames).allocator.available() >= old(frames).allocator.available() - (area.spec_end() - area.spec_start()),
            data is None ==> user_inv(final(self).pt(), *final(frames), kr, |v: usize| user(v) || area.spec_start() <= v < area.spec_end(), expect),
            data is Some ==> user_inv(
                final(self).pt(),
                *final(frames),
                kr,
                |v: usize| user(v) || area.spec_start() <= v < area.spec_end(),
                |va: int| {
                    let va0 = area.spec_start() * PAGE_SIZE + page_offset;
                    if va0 <= va < va0 + data->0@.len() { data->0@[va - va0] } else { expect(va) }
                },
            ),
    {
        let mut area = area;
        let ghost a0 = area;
        let ghost t0 = self.pt();
        let ghost f0 = *frames;
        area.map(&mut self.page_table, frames);
        let ghost user2 = |v: usize| user(v) || a0.spec_start() <= v < a0.spec_end();
        proof {
            lemma_user_map(t0, self.pt(), f0, *frames, kr, user, expect, a0.shape(), area);
        }
        match data {
            Some(d) => {
                let ghost fm = *frames;
                let ghost last = copy_last_page(a0.spec_start(), page_offset, d@.len());
                proof {
                    assert forall|v: usize| a0.spec_start() <= v <= last implies #[trigger] self.page_table@.contains_key(v) by {
                        assert(user2(v));
                    }
                    assert forall|v1: usize, v2: usize| a0.spec_start() <= v1 <= last && a0.spec_start() <= v2 <= last && v1 != v2
                        implies #[trigger] self.page_table@[v1].ppn != #[trigger] self.page_table@[v2].ppn by {
                        assert(user2(v1) && user2(v2));
                    }
                    assert forall|v: usize| a0.spec_start() <= v <= last implies #[trigger] frames.mem.page(self.page_table@[v].ppn).len() == PAGE_SIZE by {
                        assert(user2(v));
                    }
                }
                area.copy_data(&self.page_table, &mut frames.mem, d, page_offset);
                proof {
                    let va0 = a0.spec_start() * PAGE_SIZE + page_offset;
                    assert forall|v: usize| a0.spec_start() <= v <= last implies #[trigger] user2(v) by {}
                    if d@.len() > 0 {
                        assert(va0 + d@.len() <= (last + 1) * 4096) by (nonlinear_arith)
                            requires last == (va0 + d@.len() - 1) / 4096, d@.len() >= 1;
                    } else {
                        assert(va0 <= (last + 1) * 4096) by (nonlinear_arith)
                            requires last == a0.spec_start(), va0 == a0.spec_start() * 4096 + page_offset, page_offset < 4096;
                    }
                    lemma_user_copy(self.pt(), fm, *frames, kr, user2, expect, a0.spec_start() as int, last, va0, d@);
                }
            },
            None => {},
        }
        self.areas.push(area);
        proof {
            assert(self.areas@.drop_last() =~= old(self).areas@);
            if old(self).wf() {
                assert forall|j: int| 0 <= j < self.areas().len() implies #[trigger] self.areas()[j].spec_start() <= self.areas()[j].spec_end() by {
                    if j < old(self).areas().len() {
                        assert(self.areas()[j] == old(self).areas()[j]);
                    }
                }
            }
        }
    }

    /// Maps the thread exit trampoline page (read, execute, user) at its
    /// fixed address and writes its code there: a thread whose function
    /// returns lands on it and exits.
    fn map_thread_exit_trampoline(
        &mut self,
        frames: &mut Frames,
        Ghost(kr): Ghost<Seq<Region>>,
        Ghost(user): Ghost<spec_fn(usize) -> bool>,
        Ghost(expect): Ghost<spec_fn(int) -> u8>,
    )
        requires
            old(frames).wf(),
            old(frames).allocator.available() >= 1,
            user_inv(old(self).pt(), *old(frames), kr, user, expect),
            !in_regions(kr, 7, trampoline_page()),
            !user(trampoline_page()) ==> forall|i: int| 0 <= i < PAGE_SIZE ==> #[trigger] expect(THREAD_EXIT_TRAMPOLINE + i) == 0,
        ensures
            final(self).areas().len() == old(self).areas().len() + 1,
            final(self).areas().drop_last() == old(self).areas(),
            final(self).areas().last().shape() == shape_of(
                THREAD_EXIT_TRAMPOLINE,
                (THREAD_EXIT_TRAMPOLINE + PAGE_SIZE) as usize,
                MapType::Framed,
                MAP_R | MAP_X | MAP_U,
            ),
            final(self).spec_root() == old(self).spec_root(),
            old(self).wf() ==> final(self).wf(),
            final(frames).wf(),
            final(frames).refcounts == old(frames).refcounts,
            final(frames).allocator.available() >= old(frames).allocator.available() - 1,
            user_inv(
                final(self).pt(),
                *final(frames),
                kr,
                |v: usize| user(v) || v == trampoline_page(),
                |va: int| if THREAD_EXIT_TRAMPOLINE <= va < THREAD_EXIT_TRAMPOLINE + 12 {
                    trampoline_code()[va - THREAD_EXIT_TRAMPOLINE]
                } else {
                    expect(va)
                },
            ),
    {
        let area = MapArea::new(THREAD_EXIT_TRAMPOLINE, THREAD_EXIT_TRAMPOLINE + PAGE_SIZE, MapType::Framed, MAP_R | MAP_X | MAP_U);
        let ghost tp = trampoline_page();
        proof {
            assert(area.spec_start() == tp && area.spec_end() == tp + 1);
            assert forall|v: usize, i: int| area.spec_start() <= v < area.spec_end() && !user(v) && 0 <= i < PAGE_SIZE
                implies #[trigger] expect(v * PAGE_SIZE + i) == 0 by {
                assert(v == tp);
                assert(expect(THREAD_EXIT_TRAMPOLINE + i) == 0);
            }
        }
        self.push_with_offset(area, None, 0, frames, Ghost(kr), Ghost(user), Ghost(expect));
        let ghost user2 = |v: usize| user(v) || area.spec_start() <= v < area.spec_end();
        let ghost user3 = |v: usize| user(v) || v == tp;
        proof {
            assert(user2 =~= user3);
            assert(user3(tp));
        }
        let e = self.page_table.translate(THREAD_EXIT_TRAMPOLINE / PAGE_SIZE);
        let ppn = match e {
            Some(x) => x.ppn,
            None => 0,
        };
        let code: Vec<u8> = vec![0x93u8, 0x08u8, 0xd0u8, 0x05u8, 0x13u8, 0x05u8, 0x00u8, 0x00u8, 0x73u8, 0x00u8, 0x00u8, 0x00u8];
        let ghost f1 = *frames;
        proof {
            assert(code@ =~= trampoline_code());
            assert(self.pt().contains_key(tp));
        }
        frames.mem.write_bytes(ppn, 0, code.as_slice(), 0, 12);
        proof {
            assert(code@.subrange(0, 12) =~= trampoline_code());
            lemma_write_copied(self.pt(), f1.mem, frames.mem, tp, 0, trampoline_code());
            assert forall|v: usize| tp <= v <= tp implies #[trigger] user3(v) by {}
            lemma_user_copy(self.pt(), f1, *frames, kr, user3, expect, tp as int, tp as int, THREAD_EXIT_TRAMPOLINE as int, trampoline_code());
        }
    }

    /// A user address space for a program with program headers `segs`
    /// and entry point `entry`: the kernel regions mapped identically (so
    /// that traps can run), then each loaded segment in order as a framed
    /// area holding its file bytes at its address (zeros after them), then
    /// a user stack of `USER_STACK_SIZE` bytes after a guard page above the
    /// last loaded segment, then the thread exit trampoline. Returns the
    /// address space, the stack top and the entry point.
    #[verifier::rlimit(40)]
    pub fn from_elf(segs: &Vec<ElfSegment>, entry: usize, layout: &KernelLayout, frames: &mut Frames) -> (r: (MemorySet, usize, usize))
        requires
            old(frames).wf(),
            layout.wf(),
            elf_loadable(segs@, *layout, old(frames).allocator.available()),
        ensures
            r.2 == entry,
            elf_space(segs@, *layout, r.0, r.1, *final(frames)),
            final(frames).wf(),
            final(frames).refcounts == old(frames).refcounts,
    {
        let ghost kr = kernel_space_regions(*layout);
        let ghost n = segs@.len() as int;
        proof {
            lemma_load_pages_grow(segs@, 0, n, *layout);
        }
        let mut ms = MemorySet::new_bare(frames);
        ms.map_kernel_space(layout, frames);
        proof {
            let u0 = |v: usize| elf_page(segs@, 0, v);
            let e0 = |va: int| byte_or_zero(loaded_byte(segs@, 0, va));
            assert forall|v: usize| #[trigger] ms.pt().contains_key(v) <==> in_regions(kr, 7, v) || u0(v) by {}
            assert forall|v: usize| #[trigger] in_regions(kr, 7, v) implies ms.pt()[v].ppn == v && has_flag(ms.pt()[v].flags, PTE_V) by {
                assert(ms.pt().contains_key(v));
            }
            assert forall|j: int| 0 <= j < 7 implies region_area_ok(#[trigger] ms.areas()[j], kr[j]) by {
                assert(ms.areas()[0 + j] == ms.areas()[j]);
            }
            assert(load_shapes(segs@, 0) =~= Seq::<AreaShape>::empty());
            assert(user_inv(ms.pt(), *frames, kr, u0, e0));
        }
        let mut max_end_vpn: usize = 0;
        let mut i: usize = 0;
        while i < segs.len()
            invariant
                0 <= i <= segs@.len(),
                n == segs@.len(),
                kr == kernel_space_regions(*layout),
                frames.wf(),
                frames.refcounts == old(frames).refcounts,
                frames.allocator.available() >= 5 + load_pages(segs@, n) - load_pages(segs@, i as int),
                forall|k: int| 0 <= k < segs@.len() && #[trigger] segs@[k].load ==> elf_segment_ok(segs@[k], *layout),
                max_end_vpn == last_load_end(segs@, i as int),
                ms.wf(),
                ms.areas().len() == 7 + load_shapes(segs@, i as int).len(),
                forall|j: int| 0 <= j < 7 ==> region_area_ok(#[trigger] ms.areas()[j], kr[j]),
                forall|j: int| 0 <= j < load_shapes(segs@, i as int).len() ==> (#[trigger] ms.areas()[7 + j]).shape() == load_shapes(segs@, i as int)[j],
                user_inv(ms.pt(), *frames, kr, |v: usize| elf_page(segs@, i as int, v), |va: int| byte_or_zero(loaded_byte(segs@, i as int, va))),
            decreases segs@.len() - i,
        {
            let ghost u = |v: usize| elf_page(segs@, i as int, v);
            let ghost ex = |va: int| byte_or_zero(loaded_byte(segs@, i as int, va));
            let ghost u1 = |v: usize| elf_page(segs@, i + 1, v);
            let ghost ex1 = |va: int| byte_or_zero(loaded_byte(segs@, i + 1, va));
            let seg = &segs[i];
            if seg.load {
                let start_va = seg.vaddr;
                let end_va = seg.vaddr + seg.mem_size;
                let perm = perm_of_flags(seg.flags);
                let area = MapArea::new(start_va, end_va, MapType::Framed, perm);
                max_end_vpn = area.end_vpn;
                let page_offset = start_va % PAGE_SIZE;
                let ghost sh = segment_shape(*seg);
                let ghost areas0 = ms.areas();
                proof {
                    assert(elf_segment_ok(*seg, *layout));
                    assert(area.shape() == sh);
                    assert(start_va == (start_va / 4096) * 4096 + page_offset) by (nonlinear_arith)
                        requires page_offset == start_va % 4096;
                    assert forall|v: usize, k: int| area.spec_start() <= v < area.spec_end() && !u(v) && 0 <= k < PAGE_SIZE
                        implies #[trigger] ex(v * PAGE_SIZE + k) == 0 by {
                        lemma_zero_outside(segs@, i as int, *layout, v, k);
                    }
                    lemma_load_pages_grow(segs@, i + 1, n, *layout);
                    let len = seg.data@.len();
                    if len > 0 {
                        assert((start_va + len - 1) / 4096 < area.spec_end()) by (nonlinear_arith)
                            requires start_va + len <= end_va, len >= 1,
                                area.spec_end() == (if end_va % 4096 == 0 { (end_va / 4096) as int } else { end_va / 4096 + 1 });
                    }
                }
                ms.push_with_offset(area, Some(seg.data.as_slice()), page_offset, frames, Ghost(kr), Ghost(u), Ghost(ex));
                proof {
                    let va0 = sh.start * PAGE_SIZE + page_offset;
                    let ug = |v: usize| u(v) || sh.start <= v < sh.end;
                    let eg = |va: int| if va0 <= va < va0 + seg.data@.len() { seg.data@[va - va0] } else { ex(va) };
                    assert(ug =~= u1);
                    assert(eg =~= ex1);
                    assert(load_shapes(segs@, i + 1) == load_shapes(segs@, i as int).push(sh));
                    assert forall|j: int| 0 <= j < load_shapes(segs@, i + 1).len() implies (#[trigger] ms.areas()[7 + j]).shape()
                        == load_shapes(segs@, i + 1)[j] by {
                        if j < load_shapes(segs@, i as int).len() {
                            assert(ms.areas()[7 + j] == areas0[7 + j]);
                        }
                    }
                    assert forall|j: int| 0 <= j < 7 implies region_area_ok(#[trigger] ms.areas()[j], kr[j]) by {
                        assert(ms.areas()[j] == areas0[j]);
                    }
                }
            } else {
                proof {
                    assert(u =~= u1);
                    assert(ex =~= ex1);
                }
            }
            i = i + 1;
        }
        let bottom = max_end_vpn * PAGE_SIZE + PAGE_SIZE;
        let top = bottom + USER_STACK_SIZE;
        let ghost lo = last_load_end(segs@, n) + 1;
        let ghost u = |v: usize| elf_page(segs@, n, v);
        let ghost ex = |va: int| byte_or_zero(loaded_byte(segs@, n, va));
        let stack = MapArea::new(bottom, top, MapType::Framed, MAP_R | MAP_W | MAP_U);
        let ghost areas1 = ms.areas();
        proof {
            assert(bottom == lo * 4096);
            assert(bottom / 4096 == lo) by (nonlinear_arith)
                requires bottom == lo * 4096;
            assert(top % 4096 == 0 && top / 4096 == lo + 4) by (nonlinear_arith)
                requires top == lo * 4096 + 0x4000;
            assert(stack.spec_start() == lo && stack.spec_end() == lo + 4);
            assert forall|v: usize, k: int| stack.spec_start() <= v < stack.spec_end() && !u(v) && 0 <= k < PAGE_SIZE
                implies #[trigger] ex(v * PAGE_SIZE + k) == 0 by {
                lemma_zero_outside(segs@, n, *layout, v, k);
            }
        }
        ms.push_with_offset(stack, None, 0, frames, Ghost(kr), Ghost(u), Ghost(ex));
        let ghost u2 = |v: usize| u(v) || lo <= v < lo + 4;
        let ghost areas2 = ms.areas();
        proof {
            assert(u2 =~= (|v: usize| u(v) || stack.spec_start() <= v < stack.spec_end()));
            let tp = trampoline_page();
            if !u2(tp) {
                assert forall|k: int| 0 <= k < PAGE_SIZE implies #[trigger] ex(THREAD_EXIT_TRAMPOLINE + k) == 0 by {
                    lemma_zero_outside(segs@, n, *layout, tp, k);
                }
            }
        }
        ms.map_thread_exit_trampoline(frames, Ghost(kr), Ghost(u2), Ghost(ex));
        proof {
            let shapes = load_shapes(segs@, n);
            assert(ms.areas().drop_last() == areas2);
            assert(areas2.drop_last() == areas1);
            assert forall|j: int| 0 <= j < 7 implies region_area_ok(#[trigger] ms.areas()[j], kr[j]) by {
                assert(ms.areas()[j] == areas2[j]);
                assert(areas2[j] == areas1[j]);
            }
            assert forall|j: int| 0 <= j < shapes.len() implies (#[trigger] ms.areas()[7 + j]).shape() == shapes[j] by {
                assert(ms.areas()[7 + j] == areas2[7 + j]);
                assert(areas2[7 + j] == areas1[7 + j]);
            }
            assert(ms.areas()[7 + shapes.len() as int] == areas2[7 + shapes.len() as int]);
            let uf = |v: usize| elf_page(segs@, n, v) || lo <= v < lo + 4 || v == trampoline_page();
            assert(uf =~= (|v: usize| u2(v) || v == trampoline_page()));
        }
        (ms, top, entry)
    }

    /// Unmaps and removes the first area that starts at page `start_vpn`
    /// (see `MapArea::unmap`); nothing changes when no area does.
    pub fn remove_area_with_start_vpn(&mut self, start_vpn: usize, frames: &mut Frames)
        requires
            old(frames).wf(),
            area_starting(old(self).areas(), start_vpn, 0) is Some ==> {
                let a = old(self).areas()[area_starting(old(self).areas(), start_vpn, 0)->0];
                &&& unmap_ok(a, old(self).pt(), *old(frames))
                &&& area_keys_ok(a)
            },
        ensures
            match area_starting(old(self).areas(), start_vpn, 0) {
                None => final(self).areas() == old(self).areas() && final(self).pt() == old(self).pt() && *final(frames) == *old(frames),
                Some(j) => {
                    &&& final(self).areas() == old(self).areas().remove(j)
                    &&& exists|a1: MapArea| {
                        &&& #[trigger] unmapped_range(old(self).areas()[j], a1, old(self).pt(), final(self).pt(), *old(frames), *final(frames),
                            old(self).areas()[j].spec_end() as int)
                        &&& a1.data() == Map::<usize, usize>::empty()
                        &&& a1.cow() == Map::<usize, usize>::empty()
                    }
                },
            },
            final(self).spec_root() == old(self).spec_root(),
            old(self).wf() ==> final(self).wf(),
    {
        let n = self.areas.len();
        let mut idx: usize = 0;
        while idx < n && self.areas[idx].start_vpn != start_vpn
            invariant
                idx <= n,
                n == self.areas@.len(),
                self.areas@ == old(self).areas@,
                area_starting(self.areas(), start_vpn, 0) == area_starting(self.areas(), start_vpn, idx as int),
            decreases n - idx,
        {
            idx = idx + 1;
        }
        if idx < n {
            let ghost a0 = self.areas@[idx as int];
            proof {
                assert(area_starting(self.areas(), start_vpn, idx as int) == Some(idx as int));
            }
            let mut area = self.areas.remove(idx);
            area.unmap(&mut self.page_table, frames);
            proof {
                assert(a0 == old(self).areas()[idx as int]);
                assert(unmapped_range(old(self).areas()[idx as int], area, old(self).pt(), self.pt(), *old(frames), *frames, a0.spec_end() as int));
                assert(area_keys_ok(a0));
                assert(area.data() =~= Map::<usize, usize>::empty()) by {
                    assert forall|k: usize| !area.data().contains_key(k) by {
                        if a0.data().contains_key(k) {
                            assert(a0.spec_start() <= k < a0.spec_end());
                        }
                        if a0.spec_type() == MapType::Framed {
                            assert(area.data().contains_key(k) == (a0.data().contains_key(k) && !(a0.spec_start() <= k < a0.spec_end())));
                        }
                    }
                }
                assert(area.cow() =~= Map::<usize, usize>::empty()) by {
                    assert forall|k: usize| !area.cow().contains_key(k) by {
                        if a0.cow().contains_key(k) {
                            assert(shared_only(a0, a0.spec_end() as int, k));
                        }
                        if a0.spec_type() == MapType::Framed {
                            assert(area.cow().contains_key(k) == (a0.cow().contains_key(k) && !shared_only(a0, a0.spec_end() as int, k)));
                        }
                    }
                }
                if old(self).wf() {
                    assert forall|j: int| 0 <= j < self.areas().len() implies #[trigger] self.areas()[j].spec_start() <= self.areas()[j].spec_end() by {
                        if j < idx {
                            assert(self.areas()[j] == old(self).areas()[j]);
                        } else {
                            assert(self.areas()[j] == old(self).areas()[j + 1]);
                        }
                    }
                }
            }
        } else {
            proof {
                assert(area_starting(self.areas(), start_vpn, idx as int) is None);
            }
        }
    }

    /// Maps the pages of `start_va .. end_va` with fresh frames and
    /// permission `perm`.
    pub fn insert_framed_area(&mut self, start_va: usize, end_va: usize, perm: u8, frames: &mut Frames)
        requires
            old(frames).wf(),
            start_va <= end_va,
            old(frames).allocator.available() >= ceil_vpn(end_va) - start_va / PAGE_SIZE,
        ensures
            final(self).areas().len() == old(self).areas().len() + 1,
            final(self).areas().drop_last() == old(self).areas(),
            mapped_range(shape_of(start_va, end_va, MapType::Framed, perm), Map::<usize, usize>::empty(), Map::<usize, usize>::empty(), final(self).areas().last(), old(self).pt(), final(self).pt(), *old(frames), *final(frames), ceil_vpn(end_va)),
            final(self).spec_root() == old(self).spec_root(),
            old(self).wf() ==> final(self).wf(),
    {
        let area = MapArea::new(start_va, end_va, MapType::Framed, perm);
        self.push(area, frames);
    }

    /// Maps each region identically, in order.
    fn push_identical(&mut self, regions: &Vec<Region>, frames: &mut Frames)
        requires
            old(frames).wf(),
            forall|j: int| 0 <= j < regions@.len() ==> (#[trigger] regions@[j]).0 <= regions@[j].1,
            identity_on(old(self).pt()),
        ensures
            *final(frames) == *old(frames),
            final(self).spec_root() == old(self).spec_root(),
            final(self).areas().len() == old(self).areas().len() + regions@.len(),
            final(self).areas().subrange(0, old(self).areas().len() as int) == old(self).areas(),
            forall|j: int| 0 <= j < regions@.len() ==> region_area_ok(#[trigger] final(self).areas()[old(self).areas().len() + j], regions@[j]),
            identity_on(final(self).pt()),
            forall|v: usize| #[trigger] final(self).pt().contains_key(v) <==> old(self).pt().contains_key(v) || in_regions(regions@, regions@.len() as int, v),
            forall|v: usize| in_regions(regions@, regions@.len() as int, v) ==> #[trigger] final(self).pt()[v] == (PageTableEntry {
                ppn: v,
                flags: base_flags(old(self).pt(), v) | perm_union(regions@, regions@.len() as int, v) | PTE_V,
                cow: false,
            }),
            forall|v: usize| !in_regions(regions@, regions@.len() as int, v) && old(self).pt().contains_key(v)
                ==> #[trigger] final(self).pt()[v] == old(self).pt()[v],
            old(self).wf() ==> final(self).wf(),
    {
        let mut i: usize = 0;
        while i < regions.len()
            invariant
                0 <= i <= regions@.len(),
                *frames == *old(frames),
                frames.wf(),
                self.spec_root() == old(self).spec_root(),
                forall|j: int| 0 <= j < regions@.len() ==> (#[trigger] regions@[j]).0 <= regions@[j].1,
                self.areas().len() == old(self).areas().len() + i,
                self.areas().subrange(0, old(self).areas().len() as int) == old(self).areas(),
                forall|j: int| 0 <= j < i ==> region_area_ok(#[trigger] self.areas()[old(self).areas().len() + j], regions@[j]),
                identity_on(self.pt()),
                forall|v: usize| #[trigger] self.pt().contains_key(v) <==> old(self).pt().contains_key(v) || in_regions(regions@, i as int, v),
                forall|v: usize| in_regions(regions@, i as int, v) ==> #[trigger] self.pt()[v] == (PageTableEntry {
                    ppn: v,
                    flags: base_flags(old(self).pt(), v) | perm_union(regions@, i as int, v) | PTE_V,
                    cow: false,
                }),
                forall|v: usize| !in_regions(regions@, i as int, v) && old(self).pt().contains_key(v)
                    ==> #[trigger] self.pt()[v] == old(self).pt()[v],
                identity_on(old(self).pt()),
                old(self).wf() ==> self.wf(),
            decreases regions@.len() - i,
        {
            let r = regions[i];
            let area = MapArea::new(r.0, r.1, MapType::Identical, r.2);
            proof {
                assert(r.0 / PAGE_SIZE <= r.1 / PAGE_SIZE) by (nonlinear_arith)
                    requires r.0 <= r.1;
            }
            let ghost pt0 = self.pt();
            let ghost areas0 = self.areas();
            self.push(area, frames);
            proof {
                let a1 = self.areas().last();
                let pt1 = self.pt();
                assert forall|v: usize| #[trigger] pt1.contains_key(v) implies pt1[v].ppn == v && has_flag(pt1[v].flags, PTE_V) by {
                    if area.has_vpn(v) {
                        assert(maps_valid(pt1, v));
                        if maps_valid(pt0, v) {
                            assert(pt1[v].ppn == pt0[v].ppn);
                        } else {
                            assert(pt1[v] == (PageTableEntry { ppn: v, flags: area.spec_perm() | PTE_V, cow: false }));
                        }
                    } else {
                        assert(pt1.contains_key(v) == pt0.contains_key(v));
                    }
                }
                assert forall|v: usize| #[trigger] pt1.contains_key(v) <==> old(self).pt().contains_key(v) || in_regions(regions@, i + 1, v) by {
                    if area.has_vpn(v) {
                        assert(region_has(regions@[i as int], v));
                        assert(maps_valid(pt1, v));
                    } else {
                        assert(pt1.contains_key(v) == pt0.contains_key(v));
                        if in_regions(regions@, i + 1, v) {
                            let j = choose|j: int| 0 <= j < i + 1 && #[trigger] region_has(regions@[j], v);
                            assert(j != i);
                            assert(in_regions(regions@, i as int, v));
                        }
                    }
                }
                assert(self.areas().subrange(0, old(self).areas().len() as int) =~= old(self).areas()) by {
                    assert(self.areas().drop_last() == areas0);
                    assert forall|k: int| 0 <= k < old(self).areas().len() implies self.areas()[k] == old(self).areas()[k] by {
                        assert(areas0.subrange(0, old(self).areas().len() as int)[k] == old(self).areas()[k]);
                        assert(self.areas().drop_last()[k] == areas0[k]);
                    }
                }
                assert forall|j: int| 0 <= j < i + 1 implies region_area_ok(#[trigger] self.areas()[old(self).areas().len() + j], regions@[j]) by {
                    if j < i {
                        assert(self.areas().drop_last()[old(self).areas().len() + j] == areas0[old(self).areas().len() + j]);
                    }
                }
                let p = r.2;
                assert forall|v: usize| in_regions(regions@, i + 1, v) implies #[trigger] pt1[v] == (PageTableEntry {
                    ppn: v,
                    flags: base_flags(old(self).pt(), v) | perm_union(regions@, i + 1, v) | PTE_V,
                    cow: false,
                }) by {
                    let b = base_flags(old(self).pt(), v);
                    let u = perm_union(regions@, i as int, v);
                    lemma_flag_bits(b, u, p);
                    if area.has_vpn(v) {
                        assert(region_has(regions@[i as int], v));
                        assert(perm_union(regions@, i + 1, v) == u | p);
                        if in_regions(regions@, i as int, v) {
                            assert(pt0.contains_key(v));
                            assert(maps_valid(pt0, v));
                        } else {
                            lemma_perm_union_outside(regions@, i as int, v);
                            if old(self).pt().contains_key(v) {
                                assert(pt0[v] == old(self).pt()[v]);
                                assert(maps_valid(pt0, v));
                            } else {
                                assert(!pt0.contains_key(v));
                            }
                        }
                    } else {
                        assert(!region_has(regions@[i as int], v));
                        assert(perm_union(regions@, i + 1, v) == u | 0u8);
                        let j = choose|j: int| 0 <= j < i + 1 && #[trigger] region_has(regions@[j], v);
                        assert(in_regions(regions@, i as int, v));
                        assert(pt0.contains_key(v));
                        assert(pt1.contains_key(v) == pt0.contains_key(v));
                        assert(pt1[v] == pt0[v]);
                    }
                }
                assert forall|v: usize| !in_regions(regions@, i + 1, v) && old(self).pt().contains_key(v)
                    implies #[trigger] pt1[v] == old(self).pt()[v] by {
                    if area.has_vpn(v) {
                        assert(region_has(regions@[i as int], v));
                    }
                    assert forall|j: int| 0 <= j < i implies !#[trigger] region_has(regions@[j], v) by {
                        assert(!(0 <= j < i + 1 && region_has(regions@[j], v)));
                    }
                    assert(!in_regions(regions@, i as int, v));
                    assert(pt0.contains_key(v));
                    assert(pt1.contains_key(v) == pt0.contains_key(v));
                }
            }
            i = i + 1;
        }
    }

    /// Maps the kernel's regions identically (see `kernel_space_regions`),
    /// so that traps can run on this table.
    fn map_kernel_space(&mut self, layout: &KernelLayout, frames: &mut Frames)
        requires
            old(frames).wf(),
            layout.wf(),
            identity_on(old(self).pt()),
        ensures
            *final(frames) == *old(frames),
            final(self).spec_root() == old(self).spec_root(),
            final(self).areas().len() == old(self).areas().len() + 7,
            final(self).areas().subrange(0, old(self).areas().len() as int) == old(self).areas(),
            forall|j: int| 0 <= j < 7 ==> region_area_ok(#[trigger] final(self).areas()[old(self).areas().len() + j], kernel_space_regions(*layout)[j]),
            identity_on(final(self).pt()),
            forall|v: usize| #[trigger] final(self).pt().contains_key(v) <==> old(self).pt().contains_key(v) || in_regions(kernel_space_regions(*layout), 7, v),
            forall|v: usize| in_regions(kernel_space_regions(*layout), 7, v) ==> #[trigger] final(self).pt()[v] == (PageTableEntry {
                ppn: v,
                flags: base_flags(old(self).pt(), v) | perm_union(kernel_space_regions(*layout), 7, v) | PTE_V,
                cow: false,
            }),
            forall|v: usize| !in_regions(kernel_space_regions(*layout), 7, v) && old(self).pt().contains_key(v)
                ==> #[trigger] final(self).pt()[v] == old(self).pt()[v],
            old(self).wf() ==> final(self).wf(),
    {
        let mut regions: Vec<Region> = Vec::new();
        regions.push((layout.stext, layout.etext, MAP_R | MAP_X));
        regions.push((layout.srodata, layout.erodata, MAP_R));
        regions.push((layout.sdata, layout.ebss, MAP_R | MAP_W));
        regions.push((layout.ekernel, MEMORY_END, MAP_R | MAP_W));
        regions.push((UART_BASE, UART_BASE + 0x1000, MAP_R | MAP_W));
        regions.push((PLIC_BASE, PLIC_BASE + 0x40_0000, MAP_R | MAP_W));
        regions.push((VIRTIO0_BASE, VIRTIO0_BASE + 0x1000, MAP_R | MAP_W));
        proof {
            assert(regions@ =~= kernel_space_regions(*layout));
        }
        self.push_identical(&regions, frames);
    }

    /// The kernel's own address space: its sections, the rest of physical
    /// memory and the device registers, each page mapping the frame of the
    /// same number (see `kernel_regions`).
    pub fn new_kernel(layout: &KernelLayout, frames: &mut Frames) -> (ms: Self)
        requires
            old(frames).wf(),
            old(frames).allocator.available() > 0,
            layout.wf(),
        ensures
            final(frames).wf(),
            old(frames).allocator.free_frames().contains(ms.spec_root()),
            final(frames).allocator.free_frames() == old(frames).allocator.free_frames().remove(ms.spec_root()),
            final(frames).refcounts == old(frames).refcounts,
            ms.areas().len() == 8,
            forall|j: int| 0 <= j < 8 ==> region_area_ok(#[trigger] ms.areas()[j], kernel_regions(*layout)[j]),
            identity_on(ms.pt()),
            forall|v: usize| #[trigger] ms.pt().contains_key(v) <==> in_regions(kernel_regions(*layout), 8, v),
            forall|v: usize| #[trigger] ms.pt().contains_key(v) ==> ms.pt()[v] == (PageTableEntry {
                ppn: v,
                flags: perm_union(kernel_regions(*layout), 8, v) | PTE_V,
                cow: false,
            }) && !has_flag(ms.pt()[v].flags, PTE_U),
            ms.wf(),
    {
        let mut ms = MemorySet::new_bare(frames);
        let mut regions: Vec<Region> = Vec::new();
        regions.push((layout.stext, layout.etext, MAP_R | MAP_X));
        regions.push((layout.srodata, layout.erodata, MAP_R));
        regions.push((layout.sdata, layout.edata, MAP_R | MAP_W));
        regions.push((layout.sbss_with_stack, layout.ebss, MAP_R | MAP_W));
        regions.push((layout.ekernel, MEMORY_END, MAP_R | MAP_W));
        regions.push((UART_BASE, UART_BASE + 0x1000, MAP_R | MAP_W));
        regions.push((PLIC_BASE, PLIC_BASE + 0x40_0000, MAP_R | MAP_W));
        regions.push((VIRTIO0_BASE, VIRTIO0_BASE + 0x1000, MAP_R | MAP_W));
        proof {
            assert(regions@ =~= kernel_regions(*layout));
        }
        ms.push_identical(&regions, frames);
        proof {
            assert forall|j: int| 0 <= j < 8 implies region_area_ok(#[trigger] ms.areas()[j], kernel_regions(*layout)[j]) by {
                assert(ms.areas()[0 + j] == ms.areas()[j]);
            }
            let rs = kernel_regions(*layout);
            assert((MAP_R | MAP_X) & 16u8 == 0u8 && MAP_R & 16u8 == 0u8 && (MAP_R | MAP_W) & 16u8 == 0u8) by (bit_vector);
            assert forall|v: usize| #[trigger] ms.pt().contains_key(v) implies ms.pt()[v] == (PageTableEntry {
                ppn: v,
                flags: perm_union(rs, 8, v) | PTE_V,
                cow: false,
            }) && !has_flag(ms.pt()[v].flags, PTE_U) by {
                lemma_perm_union_no_user(rs, 8, v);
                let u = perm_union(rs, 8, v);
                assert(0u8 | u | 1u8 == u | 1u8) by (bit_vector);
                assert((u | 1u8) & 16u8 == 0u8) by (bit_vector)
                    requires
                        u & 16u8 == 0u8,
                ;
            }
        }
        ms
    }

    /// Maps a user stack of `USER_STACK_SIZE` bytes ending at `stack_top`
    /// with fresh frames (read, write, user) and returns `stack_top`.
    pub fn alloc_user_stack(&mut self, stack_top: usize, frames: &mut Frames) -> (r: usize)
        requires
            old(frames).wf(),
            stack_top >= USER_STACK_SIZE,
            old(frames).allocator.available() >= ceil_vpn(stack_top) - (stack_top - USER_STACK_SIZE) as usize / PAGE_SIZE,
        ensures
            r == stack_top,
            final(self).areas().len() == old(self).areas().len() + 1,
            final(self).areas().drop_last() == old(self).areas(),
            mapped_range(shape_of((stack_top - USER_STACK_SIZE) as usize, stack_top, MapType::Framed, MAP_R | MAP_W | MAP_U),
                Map::<usize, usize>::empty(), Map::<usize, usize>::empty(), final(self).areas().last(), old(self).pt(),
                final(self).pt(), *old(frames), *final(frames), ceil_vpn(stack_top)),
            final(self).spec_root() == old(self).spec_root(),
            old(self).wf() ==> final(self).wf(),
    {
        let stack_bottom = stack_top - USER_STACK_SIZE;
        self.insert_framed_area(stack_bottom, stack_top, MAP_R | MAP_W | MAP_U, frames);
        stack_top
    }

    /// Handles page `vpn` of area `ai` in a fork: a mapped page that no
    /// earlier framed area took is shared with the child (see
    /// `from_existing`).
    fn fork_page(
        area: &mut MapArea,
        new_area: &mut MapArea,
        parent_pt: &mut PageTable,
        child_pt: &mut PageTable,
        seen: &mut BTreeMap<usize, usize>,
        refs: &mut FrameRefcounts,
        vpn: usize,
        Ghost(areas): Ghost<Seq<MapArea>>,
        Ghost(t): Ghost<Map<usize, PageTableEntry>>,
        Ghost(kt): Ghost<Map<usize, PageTableEntry>>,
        Ghost(refs0): Ghost<Map<usize, usize>>,
        Ghost(ai): Ghost<int>,
    )
        requires
            0 <= ai < areas.len(),
            areas[ai].spec_type() == MapType::Framed,
            areas[ai].has_vpn(vpn),
            forkable(areas, t, refs0),
            fork_at(areas, t, kt, refs0, ai, vpn as int, *old(area), *old(new_area), old(parent_pt)@, old(child_pt)@, old(seen)@, old(refs)@),
        ensures
            fork_at(areas, t, kt, refs0, ai, vpn + 1, *final(area), *final(new_area), final(parent_pt)@, final(child_pt)@, final(seen)@, final(refs)@),
            final(parent_pt).spec_root() == old(parent_pt).spec_root(),
            final(child_pt).spec_root() == old(child_pt).spec_root(),
    {
        proof {
            lemma_framed_owner(areas, vpn, 0);
            if t.contains_key(vpn) {
                lemma_valid_kept(t[vpn].flags);
            }
        }
        let pte = parent_pt.translate(vpn);
        match pte {
            Some(e) => {
                if e.is_valid() {
                    if !seen.contains_key(&vpn) {
                        let ppn = e.ppn;
                        assert(shared_page(areas, t, vpn) && owner_of(areas, vpn) == ai);
                        seen.insert(vpn, ppn);
                        let ghost r0 = refs@;
                        match area.data_frames.remove(&vpn) {
                            Some(_) => {
                                area.cow_frames.insert(vpn, ppn);
                                crate::kern::frame::frame_refcount_register(refs, ppn);
                                crate::kern::frame::frame_refcount_inc(refs, ppn);
                                proof {
                                    assert(refs@ =~= r0.insert(ppn, bumped(r0, ppn)));
                                }
                            },
                            None => {
                                if area.cow_frames.contains_key(&vpn) {
                                    crate::kern::frame::frame_refcount_inc(refs, ppn);
                                }
                            },
                        }
                        let ghost ct0 = child_pt@;
                        if area.map_perm & MAP_W != 0 {
                            parent_pt.set_entry(vpn, PageTableEntry { ppn, flags: e.flags & !PTE_W, cow: true });
                            child_pt.map(vpn, ppn, (area.map_perm & !PTE_W) | PTE_V);
                            match child_pt.translate(vpn) {
                                Some(c) => child_pt.set_entry(vpn, PageTableEntry { cow: true, ..c }),
                                None => {},
                            }
                            proof {
                                assert(child_pt@ =~= ct0.insert(vpn, child_entry(ct0, vpn, ppn, area.spec_perm())));
                            }
                        } else {
                            child_pt.map(vpn, ppn, area.map_perm | PTE_V);
                            proof {
                                assert(child_pt@ =~= ct0.insert(vpn, child_entry(ct0, vpn, ppn, area.spec_perm())));
                            }
                        }
                        new_area.cow_frames.insert(vpn, ppn);
                        proof {
                            Self::lemma_fork_share(areas, t, kt, refs0, ai, vpn,
                                *old(area), *area, *old(new_area), *new_area, old(parent_pt)@, parent_pt@,
                                old(child_pt)@, child_pt@, old(seen)@, seen@, old(refs)@, refs@);
                        }
                        return;
                    }
                }
            },
            None => {},
        }
        proof {
            lemma_fork_skip(areas, t, ai, vpn);
            assert(child_table_after(areas, t, kt, ai, vpn + 1) =~= child_table_after(areas, t, kt, ai, vpn as int));
        }
    }

    /// The step of `fork_page` that shares page `vpn`.
    #[verifier::spinoff_prover]
    proof fn lemma_fork_share(
        areas: Seq<MapArea>,
        t: Map<usize, PageTableEntry>,
        kt: Map<usize, PageTableEntry>,
        refs0: Map<usize, usize>,
        ai: int,
        vpn: usize,
        a0: MapArea,
        a1: MapArea,
        na0: MapArea,
        na1: MapArea,
        pt0: Map<usize, PageTableEntry>,
        pt1: Map<usize, PageTableEntry>,
        ct0: Map<usize, PageTableEntry>,
        ct1: Map<usize, PageTableEntry>,
        seen0: Map<usize, usize>,
        seen1: Map<usize, usize>,
        r0: Map<usize, usize>,
        r1: Map<usize, usize>,
    )
        requires
            0 <= ai < areas.len(),
            forkable(areas, t, refs0),
            fork_at(areas, t, kt, refs0, ai, vpn as int, a0, na0, pt0, ct0, seen0, r0),
            shared_page(areas, t, vpn),
            owner_of(areas, vpn) == ai,
            a1.shape() == a0.shape(),
            a1.data() == a0.data().remove(vpn),
            a1.cow() == (if a0.data().contains_key(vpn) { a0.cow().insert(vpn, t[vpn].ppn) } else { a0.cow() }),
            r1 == (if a0.data().contains_key(vpn) || a0.cow().contains_key(vpn) {
                r0.insert(t[vpn].ppn, bumped(r0, t[vpn].ppn))
            } else {
                r0
            }),
            pt1 == (if has_flag(a0.spec_perm(), MAP_W) { pt0.insert(vpn, cow_entry(t[vpn])) } else { pt0 }),
            ct1 == ct0.insert(vpn, child_entry(ct0, vpn, t[vpn].ppn, a0.spec_perm())),
            na1.shape() == na0.shape(),
            na1.data() == na0.data(),
            na1.cow() == na0.cow().insert(vpn, t[vpn].ppn),
            seen1 == seen0.insert(vpn, t[vpn].ppn),
        ensures
            fork_at(areas, t, kt, refs0, ai, vpn + 1, a1, na1, pt1, ct1, seen1, r1),
    {
        let p = t[vpn].ppn;
        assert(refs_after(areas, t, refs0, r0, ai, vpn as int));
        assert(!forked(areas, t, ai, vpn as int, vpn));
        assert forall|v: usize| #[trigger] forked(areas, t, ai, vpn + 1, v) == (forked(areas, t, ai, vpn as int, v) || v == vpn) by {}
        assert forall|v: usize| #[trigger] moved_to_cow(areas, t, ai, vpn + 1, v) == (moved_to_cow(areas, t, ai, vpn as int, v)
            || (v == vpn && areas[ai].data().contains_key(vpn))) by {}
        assert(a0.data().contains_key(vpn) == areas[ai].data().contains_key(vpn));
        assert(!moved_to_cow(areas, t, ai, vpn as int, vpn));
        assert(a0.cow().contains_key(vpn) == areas[ai].cow().contains_key(vpn));
        // the parent area
        assert forall|v: usize| #[trigger] a1.data().contains_key(v) == (areas[ai].data().contains_key(v)
            && !(shared_page(areas, t, v) && owner_of(areas, v) == ai && v < vpn + 1)) by {
            assert(a0.data().contains_key(v) == (areas[ai].data().contains_key(v)
                && !(shared_page(areas, t, v) && owner_of(areas, v) == ai && v < vpn)));
        }
        assert forall|v: usize| a1.data().contains_key(v) implies #[trigger] a1.data()[v] == areas[ai].data()[v] by {
            assert(a0.data().contains_key(v));
        }
        assert forall|v: usize| #[trigger] a1.cow().contains_key(v) == (areas[ai].cow().contains_key(v) || moved_to_cow(areas, t, ai, vpn + 1, v)) by {
            assert(a0.cow().contains_key(v) == (areas[ai].cow().contains_key(v) || moved_to_cow(areas, t, ai, vpn as int, v)));
        }
        assert forall|v: usize| a1.cow().contains_key(v) implies #[trigger] a1.cow()[v] == (if moved_to_cow(areas, t, ai, vpn + 1, v) {
            t[v].ppn
        } else {
            areas[ai].cow()[v]
        }) by {
            if v != vpn {
                assert(a0.cow().contains_key(v));
            }
        }
        // the child area
        assert forall|v: usize| #[trigger] na1.cow().contains_key(v) == (shared_page(areas, t, v) && owner_of(areas, v) == ai && v < vpn + 1) by {
            assert(na0.cow().contains_key(v) == (shared_page(areas, t, v) && owner_of(areas, v) == ai && v < vpn));
        }
        assert forall|v: usize| na1.cow().contains_key(v) implies #[trigger] na1.cow()[v] == t[v].ppn by {
            if v != vpn {
                assert(na0.cow().contains_key(v));
            }
        }
        // the tables
        assert(pt1 =~= parent_table_after(areas, t, ai, vpn + 1)) by {
            assert(pt0.contains_key(vpn));
        }
        assert(ct0.contains_key(vpn) == kt.contains_key(vpn));
        assert(ct0.contains_key(vpn) ==> ct0[vpn] == kt[vpn]);
        assert(child_entry(ct0, vpn, p, a0.spec_perm()) == child_entry(kt, vpn, p, a0.spec_perm()));
        assert(ct1 =~= child_table_after(areas, t, kt, ai, vpn + 1));
        // the pages seen
        assert forall|v: usize| #[trigger] seen1.contains_key(v) == forked(areas, t, ai, vpn + 1, v) by {}
        assert forall|v: usize| seen1.contains_key(v) implies #[trigger] seen1[v] == t[v].ppn by {}
        // the counts
        assert forall|v: usize| forked(areas, t, ai, vpn as int, v) && counted_page(areas, t, v) implies #[trigger] t[v].ppn != p by {
            assert(v != vpn);
        }
        assert(r0.contains_key(p) == refs0.contains_key(p) && (refs0.contains_key(p) ==> r0[p] == refs0[p]));
        assert(counted_page(areas, t, vpn) == (a0.data().contains_key(vpn) || a0.cow().contains_key(vpn)));
        assert forall|v: usize| forked(areas, t, ai, vpn + 1, v) && counted_page(areas, t, v) implies #[trigger] r1.contains_key(t[v].ppn)
            && r1[t[v].ppn] == bumped(refs0, t[v].ppn) by {
            if v != vpn {
                assert(forked(areas, t, ai, vpn as int, v));
                assert(counted_page(areas, t, v));
                assert(r0.contains_key(t[v].ppn));
                assert(r0[t[v].ppn] == bumped(refs0, t[v].ppn));
                assert(t[v].ppn != p);
            }
        }
        assert forall|q: usize| (forall|v: usize| forked(areas, t, ai, vpn + 1, v) && counted_page(areas, t, v) ==> #[trigger] t[v].ppn != q)
            implies #[trigger] r1.contains_key(q) == refs0.contains_key(q) && (refs0.contains_key(q) ==> r1[q] == refs0[q]) by {
            assert forall|v: usize| forked(areas, t, ai, vpn as int, v) && counted_page(areas, t, v) implies #[trigger] t[v].ppn != q by {
                assert(forked(areas, t, ai, vpn + 1, v));
            }
            if counted_page(areas, t, vpn) {
                assert(forked(areas, t, ai, vpn + 1, vpn));
                assert(p != q);
            }
        }
        assert(parent_area_after(areas, t, ai, vpn + 1, a1));
        assert(child_area_after(areas, t, ai, vpn + 1, na1));
        assert(refs_after(areas, t, refs0, r1, ai, vpn + 1));
    }
    /// Handles every page of framed area `ai` in a fork and returns the
    /// child's copy of the area.
    fn fork_area(
        area: &mut MapArea,
        parent_pt: &mut PageTable,
        child_pt: &mut PageTable,
        seen: &mut BTreeMap<usize, usize>,
        refs: &mut FrameRefcounts,
        Ghost(areas): Ghost<Seq<MapArea>>,
        Ghost(t): Ghost<Map<usize, PageTableEntry>>,
        Ghost(kt): Ghost<Map<usize, PageTableEntry>>,
        Ghost(refs0): Ghost<Map<usize, usize>>,
        Ghost(ai): Ghost<int>,
    ) -> (na: MapArea)
        requires
            0 <= ai < areas.len(),
            areas[ai].spec_type() == MapType::Framed,
            areas[ai].spec_start() <= areas[ai].spec_end(),
            forkable(areas, t, refs0),
            *old(area) == areas[ai],
            old(parent_pt)@ == parent_table_after(areas, t, ai, 0),
            old(child_pt)@ == child_table_after(areas, t, kt, ai, 0),
            forall|v: usize| #[trigger] old(seen)@.contains_key(v) == forked(areas, t, ai, 0, v),
            forall|v: usize| old(seen)@.contains_key(v) ==> #[trigger] old(seen)@[v] == t[v].ppn,
            refs_after(areas, t, refs0, old(refs)@, ai, 0),
        ensures
            parent_area_after(areas, t, ai, areas[ai].spec_end() as int, *final(area)),
            child_area_after(areas, t, ai, areas[ai].spec_end() as int, na),
            final(parent_pt)@ == parent_table_after(areas, t, ai + 1, 0),
            final(child_pt)@ == child_table_after(areas, t, kt, ai + 1, 0),
            forall|v: usize| #[trigger] final(seen)@.contains_key(v) == forked(areas, t, ai + 1, 0, v),
            forall|v: usize| final(seen)@.contains_key(v) ==> #[trigger] final(seen)@[v] == t[v].ppn,
            refs_after(areas, t, refs0, final(refs)@, ai + 1, 0),
            final(parent_pt).spec_root() == old(parent_pt).spec_root(),
            final(child_pt).spec_root() == old(child_pt).spec_root(),
    {
        let mut na = MapArea {
            start_vpn: area.start_vpn,
            end_vpn: area.end_vpn,
            data_frames: BTreeMap::new(),
            cow_frames: BTreeMap::new(),
            map_type: area.map_type,
            map_perm: area.map_perm,
        };
        let start = area.start_vpn;
        let end = area.end_vpn;
        proof {
            assert forall|v: usize| #[trigger] forked(areas, t, ai, start as int, v) == forked(areas, t, ai, 0, v) by {
                if shared_page(areas, t, v) && owner_of(areas, v) == ai {
                    lemma_framed_owner(areas, v, 0);
                }
            }
            assert forall|v: usize| #[trigger] moved_to_cow(areas, t, ai, start as int, v) == false by {
                if shared_page(areas, t, v) && owner_of(areas, v) == ai {
                    lemma_framed_owner(areas, v, 0);
                }
            }
            assert(parent_table_after(areas, t, ai, start as int) =~= parent_table_after(areas, t, ai, 0));
            assert(child_table_after(areas, t, kt, ai, start as int) =~= child_table_after(areas, t, kt, ai, 0));
            assert forall|v: usize| #[trigger] na.cow().contains_key(v) == (shared_page(areas, t, v) && owner_of(areas, v) == ai && v < start) by {
                if shared_page(areas, t, v) && owner_of(areas, v) == ai {
                    lemma_framed_owner(areas, v, 0);
                }
            }
            assert(na.data() =~= Map::<usize, usize>::empty());
            assert forall|v: usize| !(shared_page(areas, t, v) && owner_of(areas, v) == ai && v < start) by {
                if shared_page(areas, t, v) && owner_of(areas, v) == ai {
                    lemma_framed_owner(areas, v, 0);
                }
            }
            assert(parent_area_after(areas, t, ai, start as int, *area));
            assert(child_area_after(areas, t, ai, start as int, na));
            assert forall|v: usize| forked(areas, t, ai, start as int, v) && counted_page(areas, t, v) implies #[trigger] refs@.contains_key(t[v].ppn)
                && refs@[t[v].ppn] == bumped(refs0, t[v].ppn) by {
                assert(forked(areas, t, ai, 0, v));
            }
            assert forall|q: usize| (forall|v: usize| forked(areas, t, ai, start as int, v) && counted_page(areas, t, v) ==> #[trigger] t[v].ppn != q)
                implies #[trigger] refs@.contains_key(q) == refs0.contains_key(q) && (refs0.contains_key(q) ==> refs@[q] == refs0[q]) by {
                assert forall|v: usize| forked(areas, t, ai, 0, v) && counted_page(areas, t, v) implies #[trigger] t[v].ppn != q by {
                    assert(forked(areas, t, ai, start as int, v));
                }
            }
        }
        let mut vpn = start;
        while vpn < end
            invariant
                start <= vpn <= end,
                start == areas[ai].spec_start(),
                end == areas[ai].spec_end(),
                0 <= ai < areas.len(),
                areas[ai].spec_type() == MapType::Framed,
                forkable(areas, t, refs0),
                fork_at(areas, t, kt, refs0, ai, vpn as int, *area, na, parent_pt@, child_pt@, seen@, refs@),
                parent_pt.spec_root() == old(parent_pt).spec_root(),
                child_pt.spec_root() == old(child_pt).spec_root(),
            decreases end - vpn,
        {
            Self::fork_page(area, &mut na, parent_pt, child_pt, seen, refs, vpn,
                Ghost(areas), Ghost(t), Ghost(kt), Ghost(refs0), Ghost(ai));
            vpn = vpn + 1;
        }
        proof {
            lemma_fork_next(areas, t, kt, ai, end as int);
            assert(refs_after(areas, t, refs0, refs@, ai, end as int));
            assert forall|v: usize| forked(areas, t, ai + 1, 0, v) && counted_page(areas, t, v) implies #[trigger] refs@.contains_key(t[v].ppn)
                && refs@[t[v].ppn] == bumped(refs0, t[v].ppn) by {
                assert(forked(areas, t, ai, end as int, v));
            }
            assert forall|q: usize| (forall|v: usize| forked(areas, t, ai + 1, 0, v) && counted_page(areas, t, v) ==> #[trigger] t[v].ppn != q)
                implies #[trigger] refs@.contains_key(q) == refs0.contains_key(q) && (refs0.contains_key(q) ==> refs@[q] == refs0[q]) by {
                assert forall|v: usize| forked(areas, t, ai, end as int, v) && counted_page(areas, t, v) implies #[trigger] t[v].ppn != q by {
                    assert(forked(areas, t, ai + 1, 0, v));
                }
            }
        }
        na
    }

    /// Forks address space `user_space` copy-on-write. The child maps the
    /// kernel regions (see `kernel_space_regions`) and, for each framed area
    /// of the parent in order, an area of the same shape that shares the
    /// frames of the parent's mapped pages of that area (a page lying in
    /// several framed areas goes with the first). Writable shared pages
    /// turn read-only and copy-on-write in both; frames an area owned move
    /// to its shared frames; each frame that an area held gains a sharer.
    /// Needs a free frame for the child's root directory; the frames of
    /// distinct shared pages differ, and each can gain a sharer.
    #[verifier::spinoff_prover]
    pub fn from_existing(user_space: &mut MemorySet, layout: &KernelLayout, frames: &mut Frames) -> (ms: MemorySet)
        requires
            old(frames).wf(),
            old(frames).allocator.available() > 0,
            layout.wf(),
            old(user_space).wf(),
            forkable(old(user_space).areas(), old(user_space).pt(), old(frames).refcounts@),
        ensures
            final(frames).wf(),
            old(frames).allocator.free_frames().contains(ms.spec_root()),
            final(frames).allocator.free_frames() == old(frames).allocator.free_frames().remove(ms.spec_root()),
            final(frames).mem@ == old(frames).mem@.remove(ms.spec_root()),
            refs_after(old(user_space).areas(), old(user_space).pt(), old(frames).refcounts@, final(frames).refcounts@,
                old(user_space).areas().len() as int, 0),
            final(user_space).wf(),
            ms.wf(),
            final(user_space).spec_root() == old(user_space).spec_root(),
            final(user_space).areas().len() == old(user_space).areas().len(),
            forall|j: int| 0 <= j < old(user_space).areas().len() ==> if old(user_space).areas()[j].spec_type() == MapType::Framed {
                parent_area_after(old(user_space).areas(), old(user_space).pt(), j, old(user_space).areas()[j].spec_end() as int,
                    #[trigger] final(user_space).areas()[j])
            } else {
                final(user_space).areas()[j] == old(user_space).areas()[j]
            },
            final(user_space).pt() == parent_table_after(old(user_space).areas(), old(user_space).pt(), old(user_space).areas().len() as int, 0),
            ms.areas().len() == 7 + framed_count(old(user_space).areas(), old(user_space).areas().len() as int),
            forall|j: int| 0 <= j < 7 ==> region_area_ok(#[trigger] ms.areas()[j], kernel_space_regions(*layout)[j]),
            forall|j: int| 0 <= j < old(user_space).areas().len() && old(user_space).areas()[j].spec_type() == MapType::Framed
                ==> child_area_after(old(user_space).areas(), old(user_space).pt(), j, old(user_space).areas()[j].spec_end() as int,
                    #[trigger] ms.areas()[7 + framed_count(old(user_space).areas(), j)]),
            forall|v: usize| #[trigger] ms.pt().contains_key(v) == (in_regions(kernel_space_regions(*layout), 7, v)
                || shared_page(old(user_space).areas(), old(user_space).pt(), v)),
            forall|v: usize| shared_page(old(user_space).areas(), old(user_space).pt(), v) && !in_regions(kernel_space_regions(*layout), 7, v)
                ==> #[trigger] ms.pt()[v] == child_entry(Map::<usize, PageTableEntry>::empty(), v, old(user_space).pt()[v].ppn,
                    old(user_space).areas()[owner_of(old(user_space).areas(), v)].spec_perm()),
            kernel_pages_kept(ms.pt(), old(user_space).areas(), old(user_space).pt(), *layout),
    {
        let mut ms = MemorySet::new_bare(frames);
        let ghost root = ms.spec_root();
        ms.map_kernel_space(layout, frames);
        let ghost areas0 = user_space.areas();
        let ghost t0 = user_space.pt();
        let ghost kt = ms.pt();
        proof {
            assert(identity_on(kt));
            assert forall|v: usize| #[trigger] kt.contains_key(v) == in_regions(kernel_space_regions(*layout), 7, v) by {}
        }
        let ghost refs0 = frames.refcounts@;
        let ghost fk = *frames;
        let mut seen: BTreeMap<usize, usize> = BTreeMap::new();
        proof {
            assert forall|j: int| 0 <= j < 7 implies region_area_ok(#[trigger] ms.areas()[j], kernel_space_regions(*layout)[j]) by {
                assert(ms.areas()[0 + j] == ms.areas()[j]);
            }
            assert forall|v: usize| #[trigger] parent_table_after(areas0, t0, 0, 0).contains_key(v) == t0.contains_key(v) by {}
            assert(parent_table_after(areas0, t0, 0, 0) =~= t0) by {
                assert forall|v: usize| t0.contains_key(v) implies #[trigger] parent_table_after(areas0, t0, 0, 0)[v] == t0[v] by {
                    if shared_page(areas0, t0, v) {
                        lemma_framed_owner(areas0, v, 0);
                    }
                }
            }
            assert(child_table_after(areas0, t0, kt, 0, 0) =~= kt) by {
                assert forall|v: usize| !#[trigger] forked(areas0, t0, 0, 0, v) by {
                    if shared_page(areas0, t0, v) {
                        lemma_framed_owner(areas0, v, 0);
                    }
                }
            }
            assert forall|v: usize| #[trigger] seen@.contains_key(v) == forked(areas0, t0, 0, 0, v) by {
                if shared_page(areas0, t0, v) {
                    lemma_framed_owner(areas0, v, 0);
                }
            }
            assert forall|v: usize| !#[trigger] forked(areas0, t0, 0, 0, v) by {
                if shared_page(areas0, t0, v) {
                    lemma_framed_owner(areas0, v, 0);
                }
            }
        }
        let mut ai: usize = 0;
        while ai < user_space.areas.len()
            invariant
                0 <= ai <= areas0.len(),
                user_space.areas@.len() == areas0.len(),
                areas0 == old(user_space).areas(),
                t0 == old(user_space).pt(),
                refs0 == old(frames).refcounts@,
                old(user_space).wf(),
                forkable(areas0, t0, refs0),
                forall|j: int| 0 <= j < areas0.len() ==> (#[trigger] user_space.areas()[j]).shape() == areas0[j].shape(),
                forall|j: int| ai <= j < areas0.len() ==> #[trigger] user_space.areas()[j] == areas0[j],
                forall|j: int| 0 <= j < ai ==> if areas0[j].spec_type() == MapType::Framed {
                    parent_area_after(areas0, t0, j, areas0[j].spec_end() as int, #[trigger] user_space.areas()[j])
                } else {
                    user_space.areas()[j] == areas0[j]
                },
                user_space.pt() == parent_table_after(areas0, t0, ai as int, 0),
                user_space.spec_root() == old(user_space).spec_root(),
                ms.pt() == child_table_after(areas0, t0, kt, ai as int, 0),
                forall|v: usize| #[trigger] seen@.contains_key(v) == forked(areas0, t0, ai as int, 0, v),
                forall|v: usize| seen@.contains_key(v) ==> #[trigger] seen@[v] == t0[v].ppn,
                refs_after(areas0, t0, refs0, frames.refcounts@, ai as int, 0),
                ms.areas().len() == 7 + framed_count(areas0, ai as int),
                forall|j: int| 0 <= j < 7 ==> region_area_ok(#[trigger] ms.areas()[j], kernel_space_regions(*layout)[j]),
                forall|j: int| 0 <= j < ai && areas0[j].spec_type() == MapType::Framed
                    ==> child_area_after(areas0, t0, j, areas0[j].spec_end() as int, #[trigger] ms.areas()[7 + framed_count(areas0, j)]),
                frames.allocator == fk.allocator,
                frames.mem == fk.mem,
                fk.wf(),
                frames.wf(),
                ms.spec_root() == root,
                ms.wf(),
                user_space.wf(),
            decreases areas0.len() - ai,
        {
            let ghost ua = user_space.areas();
            let ghost ma = ms.areas();
            let ghost r_before = frames.refcounts@;
            if user_space.areas[ai].map_type == MapType::Framed {
                let mut area = user_space.areas.remove(ai);
                proof {
                    assert(area == areas0[ai as int]);
                    assert(areas0[ai as int].spec_start() <= areas0[ai as int].spec_end());
                }
                let na = Self::fork_area(&mut area, &mut user_space.page_table, &mut ms.page_table, &mut seen,
                    &mut frames.refcounts, Ghost(areas0), Ghost(t0), Ghost(kt), Ghost(refs0), Ghost(ai as int));
                user_space.areas.insert(ai, area);
                ms.areas.push(na);
                proof {
                    assert(user_space.areas() =~= ua.update(ai as int, user_space.areas()[ai as int]));
                    assert(ms.areas() =~= ma.push(na));
                    assert(framed_count(areas0, ai + 1) == framed_count(areas0, ai as int) + 1);
                    lemma_framed_count_mono(areas0, ai as int, ai as int);
                    assert forall|j: int| 0 <= j < 7 implies region_area_ok(#[trigger] ms.areas()[j], kernel_space_regions(*layout)[j]) by {
                        assert(ms.areas()[j] == ma[j]);
                    }
                    assert forall|j: int| 0 <= j < ms.areas().len() implies #[trigger] ms.areas()[j].spec_start() <= ms.areas()[j].spec_end() by {
                        if j < ma.len() {
                            assert(ms.areas()[j] == ma[j]);
                        }
                    }
                    assert forall|j: int| 0 <= j < user_space.areas().len() implies #[trigger] user_space.areas()[j].spec_start() <= user_space.areas()[j].spec_end() by {
                        assert(user_space.areas()[j].shape() == areas0[j].shape());
                    }
                    assert forall|j: int| 0 <= j < ai && areas0[j].spec_type() == MapType::Framed
                        implies child_area_after(areas0, t0, j, areas0[j].spec_end() as int, #[trigger] ms.areas()[7 + framed_count(areas0, j)]) by {
                        lemma_framed_count_mono(areas0, j + 1, ai as int);
                        assert(ms.areas()[7 + framed_count(areas0, j)] == ma[7 + framed_count(areas0, j)]);
                    }
                }
            } else {
                proof {
                    lemma_fork_next(areas0, t0, kt, ai as int, 0);
                    assert(framed_count(areas0, ai + 1) == framed_count(areas0, ai as int));
                    assert forall|v: usize| forked(areas0, t0, ai + 1, 0, v) && counted_page(areas0, t0, v) implies #[trigger] frames.refcounts@.contains_key(t0[v].ppn)
                        && frames.refcounts@[t0[v].ppn] == bumped(refs0, t0[v].ppn) by {
                        assert(forked(areas0, t0, ai as int, 0, v));
                    }
                    assert forall|q: usize| (forall|v: usize| forked(areas0, t0, ai + 1, 0, v) && counted_page(areas0, t0, v) ==> #[trigger] t0[v].ppn != q)
                        implies #[trigger] frames.refcounts@.contains_key(q) == refs0.contains_key(q) && (refs0.contains_key(q) ==> frames.refcounts@[q] == refs0[q]) by {
                        assert forall|v: usize| forked(areas0, t0, ai as int, 0, v) && counted_page(areas0, t0, v) implies #[trigger] t0[v].ppn != q by {
                            assert(forked(areas0, t0, ai + 1, 0, v));
                        }
                    }
                }
            }
            ai = ai + 1;
        }
        proof {
            let n = areas0.len() as int;
            assert forall|v: usize| #[trigger] forked(areas0, t0, n, 0, v) == shared_page(areas0, t0, v) by {
                if shared_page(areas0, t0, v) {
                    lemma_framed_owner(areas0, v, 0);
                }
            }
            assert forall|v: usize| !shared_page(areas0, t0, v) && in_regions(kernel_space_regions(*layout), 7, v)
                implies #[trigger] ms.pt()[v].ppn == v && has_flag(ms.pt()[v].flags, PTE_V) by {
                assert(!forked(areas0, t0, n, 0, v));
                assert(kt.contains_key(v));
                assert(ms.pt()[v] == kt[v]);
            }
            assert(kernel_pages_kept(ms.pt(), old(user_space).areas(), old(user_space).pt(), *layout));
        }
        ms
    }

    /// Resolves a write fault on page `vpn`. A copy-on-write page whose
    /// frame others share gets a copy of it in a fresh frame; one whose
    /// frame is shared no more takes that frame; either way the page turns
    /// writable, and its area owns the frame. Returns whether the faulting
    /// write can be retried: also for a page that is writable already, not
    /// for any other page, one outside all areas, or when no frame is free.
    /// The frames that the areas own, and the shared frame of the page, are
    /// in use (not free).
    pub fn handle_cow_fault(&mut self, vpn: usize, frames: &mut Frames) -> (ok: bool)
        requires
            old(frames).wf(),
            old(self).pt().contains_key(vpn) && old(self).pt()[vpn].cow ==> !old(frames).allocator.free_frames().contains(old(self).pt()[vpn].ppn),
            forall|i: int| 0 <= i < old(self).areas().len() && (#[trigger] old(self).areas()[i]).data().contains_key(vpn) ==>
                old(self).areas()[i].data()[vpn] < old(frames).allocator.spec_current()
                && !old(frames).allocator.spec_recycled().contains(old(self).areas()[i].data()[vpn]),
        ensures
            final(frames).wf(),
            final(self).spec_root() == old(self).spec_root(),
            final(self).areas().len() == old(self).areas().len(),
            forall|j: int| 0 <= j < old(self).areas().len() ==> (#[trigger] final(self).areas()[j]).shape() == old(self).areas()[j].shape(),
            old(self).wf() ==> final(self).wf(),
            ok && old(self).pt().contains_key(vpn) && old(self).pt()[vpn].cow ==> {
                let e1 = final(self).pt()[vpn];
                &&& final(self).pt().contains_key(vpn)
                &&& has_flag(e1.flags, PTE_W)
                &&& !e1.cow
                &&& final(frames).mem.page(e1.ppn) == old(frames).mem.page(old(self).pt()[vpn].ppn)
            },
            ({
                let t0 = old(self).pt();
                let e = t0[vpn];
                let p = e.ppn;
                let rc = refcount(old(frames).refcounts@, p);
                if !t0.contains_key(vpn) || (!e.cow && !has_flag(e.flags, PTE_W)) {
                    &&& !ok
                    &&& final(self).pt() == t0 && final(self).areas() == old(self).areas() && *final(frames) == *old(frames)
                } else if !e.cow {
                    &&& ok
                    &&& final(self).pt() == t0 && final(self).areas() == old(self).areas() && *final(frames) == *old(frames)
                } else {
                    match first_area(old(self).areas(), vpn, 0) {
                        None => !ok && final(self).pt() == t0 && final(self).areas() == old(self).areas() && *final(frames) == *old(frames),
                        Some(i) => {
                            let a0 = old(self).areas()[i];
                            let a1 = final(self).areas()[i];
                            let freed = if a0.data().contains_key(vpn) {
                                old(frames).allocator.free_frames().insert(a0.data()[vpn])
                            } else {
                                old(frames).allocator.free_frames()
                            };
                            &&& forall|j: int| 0 <= j < old(self).areas().len() && j != i ==> #[trigger] final(self).areas()[j] == old(self).areas()[j]
                            &&& if rc > 1 {
                                if old(frames).allocator.available() == 0 {
                                    &&& !ok
                                    &&& final(self).pt() == t0 && final(self).areas() == old(self).areas()
                                    &&& final(frames).refcounts == old(frames).refcounts
                                    &&& final(frames).mem@ == old(frames).mem@
                                    &&& final(frames).allocator.free_frames() == old(frames).allocator.free_frames()
                                } else {
                                    let q = final(self).pt()[vpn].ppn;
                                    &&& ok
                                    &&& old(frames).allocator.free_frames().contains(q)
                                    &&& final(frames).allocator.free_frames() == freed.remove(q)
                                    &&& final(frames).mem@ == old(frames).mem@.insert(q, old(frames).mem.page(p))
                                    &&& final(frames).refcounts@ == old(frames).refcounts@.insert(p, (rc - 1) as usize)
                                    &&& final(self).pt() == t0.insert(vpn, resolved_entry(e, q))
                                    &&& a1.shape() == a0.shape()
                                    &&& a1.data() == a0.data().insert(vpn, q)
                                    &&& a1.cow() == a0.cow().remove(vpn)
                                }
                            } else {
                                &&& ok
                                &&& final(frames).allocator.free_frames() == freed
                                &&& final(frames).mem == old(frames).mem
                                &&& final(frames).refcounts@ == old(frames).refcounts@.remove(p)
                                &&& final(self).pt() == t0.insert(vpn, resolved_entry(e, p))
                                &&& a1.shape() == a0.shape()
                                &&& a1.data() == a0.data().insert(vpn, p)
                                &&& a1.cow() == a0.cow().remove(vpn)
                            }
                        },
                    }
                }
            }),
    {
        let ppn = match self.page_table.translate(vpn) {
            Some(pte) => {
                if pte.is_cow() {
                    pte.ppn
                } else if pte.writable() {
                    return true;
                } else {
                    return false;
                }
            },
            None => return false,
        };
        proof {
            lemma_first_area(self.areas@, vpn, 0);
        }
        let mut idx: usize = 0;
        while idx < self.areas.len()
            invariant
                idx <= self.areas@.len(),
                first_area(self.areas@, vpn, 0) == first_area(self.areas@, vpn, idx as int),
                *self == *old(self),
                *frames == *old(frames),
            ensures
                idx <= self.areas@.len(),
                first_area(self.areas@, vpn, 0) == first_area(self.areas@, vpn, idx as int),
                idx < self.areas@.len() ==> self.areas@[idx as int].has_vpn(vpn),
                *self == *old(self),
                *frames == *old(frames),
            decreases self.areas@.len() - idx,
        {
            if self.areas[idx].start_vpn <= vpn && vpn < self.areas[idx].end_vpn {
                break;
            }
            idx = idx + 1;
        }
        if idx == self.areas.len() {
            return false;
        }
        let ghost a0 = self.areas@[idx as int];
        let ghost rc = refcount(frames.refcounts@, ppn);
        let refcount = crate::kern::frame::frame_refcount_get(&frames.refcounts, ppn);
        let e = match self.page_table.translate(vpn) {
            Some(pte) => pte,
            None => PageTableEntry::empty(),
        };
        proof {
            lemma_write_set(e.flags);
        }
        if refcount > 1 {
            let f = frames.alloc_frame();
            let new_ppn = match f {
                Some(p) => p,
                None => return false,
            };
            frames.mem.copy_page(ppn, new_ppn);
            frame_refcount_dec(&mut frames.refcounts, &mut frames.allocator, ppn);
            proof {
                if a0.data().contains_key(vpn) {
                    let q = a0.data()[vpn];
                    assert(!old(frames).allocator.free_frames().contains(q));
                    assert(!frames.allocator.free_frames().contains(q));
                    assert(!frames.allocator.spec_recycled().to_set().contains(q));
                }
            }
            let mut area = self.areas.remove(idx);
            area.own_frame(vpn, new_ppn, frames);
            self.areas.insert(idx, area);
            self.page_table.set_entry(vpn, PageTableEntry { ppn: new_ppn, flags: e.flags | PTE_W, cow: false });
            proof {
                assert(self.areas@ =~= old(self).areas@.update(idx as int, self.areas@[idx as int]));
            }
        } else {
            crate::kern::frame::frame_refcount_take(&mut frames.refcounts, ppn);
            let mut area = self.areas.remove(idx);
            area.own_frame(vpn, ppn, frames);
            self.areas.insert(idx, area);
            self.page_table.set_entry(vpn, PageTableEntry { ppn, flags: e.flags | PTE_W, cow: false });
            proof {
                assert(self.areas@ =~= old(self).areas@.update(idx as int, self.areas@[idx as int]));
            }
        }
        true
    }
}

} // verus!
