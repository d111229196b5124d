use vstd::prelude::*;

verus! {

/// Hands out process ids: freed ones first, last freed first, else the
/// next never used one.
pub struct PidAllocator {
    current: usize,
    recycled: Vec<usize>,
}

/// A process id owned by a process.
pub struct PidHandle(pub usize);

impl PidAllocator {
    /// The next pid never handed out.
    pub closed spec fn spec_current(&self) -> usize {
        self.current
    }

    /// The freed pids, the next to be reused last.
    pub closed spec fn spec_recycled(&self) -> Seq<usize> {
        self.recycled@
    }

    /// The pids in use: handed out and not freed.
    pub open spec fn in_use(&self) -> Set<usize> {
        Set::new(|p: usize| p < self.spec_current() && !self.spec_recycled().contains(p))
    }

    /// Freed pids were handed out before and occur once.
    pub open spec fn wf(&self) -> bool {
        &&& self.spec_recycled().no_duplicates()
        &&& forall|i: int| 0 <= i < self.spec_recycled().len() ==> #[trigger] self.spec_recycled()[i] < self.spec_current()
    }

    /// No pid handed out yet.
    pub fn new() -> (a: Self)
        ensures
            a.wf(),
            a.spec_current() == 0,
            a.spec_recycled() == Seq::<usize>::empty(),
    {
        PidAllocator { current: 0, recycled: Vec::new() }
    }

    /// Hands out a pid not in use.
    pub fn allocate(&mut self) -> (h: PidHandle)
        requires
            old(self).wf(),
            old(self).spec_recycled().len() == 0 ==> old(self).spec_current() < usize::MAX,
        ensures
            final(self).wf(),
            !old(self).in_use().contains(h.0),
            final(self).in_use() == old(self).in_use().insert(h.0),
            old(self).spec_recycled().len() > 0 ==> h.0 == old(self).spec_recycled().last()
                && final(self).spec_recycled() == old(self).spec_recycled().drop_last()
                && final(self).spec_current() == old(self).spec_current(),
            old(self).spec_recycled().len() == 0 ==> h.0 == old(self).spec_current()
                && final(self).spec_current() == old(self).spec_current() + 1
                && final(self).spec_recycled() == old(self).spec_recycled(),
    {
        let ghost rec = self.recycled@;
        if let Some(pid) = self.recycled.pop() {
            proof {
                assert(rec =~= rec.drop_last().push(pid));
                assert(!rec.drop_last().contains(pid)) by {
                    if rec.drop_last().contains(pid) {
                        let k = choose|k: int| 0 <= k < rec.drop_last().len() && rec.drop_last()[k] == pid;
                        assert(rec[k] == rec[rec.len() - 1]);
                    }
                }
                assert(rec.contains(pid)) by {
                    assert(rec[rec.len() - 1] == pid);
                }
                assert forall|p: usize| #[trigger] rec.drop_last().contains(p) implies rec.contains(p) by {
                    let k = choose|k: int| 0 <= k < rec.drop_last().len() && rec.drop_last()[k] == p;
                    assert(rec[k] == p);
                }
                assert forall|p: usize| #[trigger] rec.contains(p) && p != pid implies rec.drop_last().contains(p) by {
                    let k = choose|k: int| 0 <= k < rec.len() && rec[k] == p;
                    assert(k != rec.len() - 1);
                    assert(rec.drop_last()[k] == p);
                }
                assert(self.in_use() =~= old(self).in_use().insert(pid));
            }
            PidHandle(pid)
        } else {
            self.current = self.current + 1;
            proof {
                assert(self.in_use() =~= old(self).in_use().insert((self.current - 1) as usize));
            }
            PidHandle(self.current - 1)
        }
    }

    /// Takes pid `pid` back.
    pub fn dealloc(&mut self, pid: usize)
        requires
            old(self).wf(),
            pid < old(self).spec_current(),
            !old(self).spec_recycled().contains(pid),
        ensures
            final(self).wf(),
            final(self).spec_current() == old(self).spec_current(),
            final(self).spec_recycled() == old(self).spec_recycled().push(pid),
            final(self).in_use() == old(self).in_use().remove(pid),
    {
        let ghost rec = self.recycled@;
        self.recycled.push(pid);
        proof {
            assert forall|i: int, j: int| 0 <= i < j < self.recycled@.len() implies self.recycled@[i] != self.recycled@[j] by {
                if j == self.recycled@.len() - 1 {
                    assert(rec[i] == self.recycled@[i]);
                    assert(rec.contains(rec[i]));
                }
            }
            assert forall|p: usize| #[trigger] self.recycled@.contains(p) <==> rec.contains(p) || p == pid by {
                if self.recycled@.contains(p) {
                    let k = choose|k: int| 0 <= k < self.recycled@.len() && self.recycled@[k] == p;
                    if k < rec.len() {
                        assert(rec[k] == p);
                    }
                }
                if rec.contains(p) {
                    let k = choose|k: int| 0 <= k < rec.len() && rec[k] == p;
                    assert(self.recycled@[k] == p);
                }
                if p == pid {
                    assert(self.recycled@[rec.len() as int] == p);
                }
            }
            assert(self.in_use() =~= old(self).in_use().remove(pid));
        }
    }
}

/// Hands out a pid (see `PidAllocator::allocate`).
pub fn pid_alloc(allocator: &mut PidAllocator) -> (h: PidHandle)
    requires
        old(allocator).wf(),
        old(allocator).spec_recycled().len() == 0 ==> old(allocator).spec_current() < usize::MAX,
    ensures
        final(allocator).wf(),
        !old(allocator).in_use().contains(h.0),
        final(allocator).in_use() == old(allocator).in_use().insert(h.0),
{
    allocator.allocate()
}

/// A kernel stack: `size` bytes from `base`.
pub struct KernelStack {
    pub base: usize,
    pub size: usize,
}

impl KernelStack {
    /// The top of the stack, one past its highest byte.
    pub fn get_top(&self) -> (t: usize)
        requires
            self.base + self.size <= usize::MAX,
        ensures
            t == self.base + self.size,
    {
        self.base + self.size
    }
}

} // verus!
