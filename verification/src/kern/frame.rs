use vstd::prelude::*;
use std::collections::BTreeMap;

verus! {

/// A stack allocator of physical frames: frames from `current` up to `end`
/// were never handed out; `recycled` holds freed frames, reused last
/// freed first.
pub struct StackFrameAllocator {
    current: usize,
    end: usize,
    recycled: Vec<usize>,
}

impl StackFrameAllocator {
    /// The next frame never handed out.
    pub closed spec fn spec_current(&self) -> usize {
        self.current
    }

    /// The end of the frame range.
    pub closed spec fn spec_end(&self) -> usize {
        self.end
    }

    /// The freed frames, the next to be reused last.
    pub closed spec fn spec_recycled(&self) -> Seq<usize> {
        self.recycled@
    }

    /// The frames that `allocate` can hand out.
    pub open spec fn free_frames(&self) -> Set<usize> {
        self.spec_recycled().to_set() + Set::new(|p: usize| self.spec_current() <= p < self.spec_end())
    }

    /// How many frames `allocate` can still hand out.
    pub open spec fn available(&self) -> int {
        self.spec_recycled().len() + (self.spec_end() - self.spec_current())
    }

    /// Freed frames were handed out before and occur once; the range does
    /// not run backwards.
    pub open spec fn wf(&self) -> bool {
        &&& self.spec_current() <= self.spec_end()
        &&& self.spec_recycled().no_duplicates()
        &&& forall|i: int| 0 <= i < self.spec_recycled().len() ==> #[trigger] self.spec_recycled()[i] < self.spec_current()
    }

    /// An allocator with no frames.
    pub fn new() -> (a: Self)
        ensures
            a.wf(),
            a.spec_current() == 0,
            a.spec_end() == 0,
            a.spec_recycled() == Seq::<usize>::empty(),
    {
        StackFrameAllocator { current: 0, end: 0, recycled: Vec::new() }
    }

    /// Hands out frames `l .. r` from now on.
    pub fn init(&mut self, l: usize, r: usize)
        requires
            l <= r,
            old(self).spec_recycled() == Seq::<usize>::empty(),
        ensures
            final(self).wf(),
            final(self).spec_current() == l,
            final(self).spec_end() == r,
            final(self).spec_recycled() == Seq::<usize>::empty(),
    {
        self.current = l;
        self.end = r;
    }

    /// Hands out the last freed frame, else the next never used one; none
    /// when the range is used up.
    pub fn allocate(&mut self) -> (r: Option<usize>)
        requires
            old(self).wf(),
        ensures
            final(self).wf(),
            final(self).spec_end() == old(self).spec_end(),
            old(self).spec_recycled().len() > 0 ==> r == Some(old(self).spec_recycled().last())
                && final(self).spec_recycled() == old(self).spec_recycled().drop_last()
                && final(self).spec_current() == old(self).spec_current(),
            old(self).spec_recycled().len() == 0 && old(self).spec_current() == old(self).spec_end() ==> r is None
                && final(self).spec_current() == old(self).spec_current(),
            old(self).spec_recycled().len() == 0 && old(self).spec_current() < old(self).spec_end() ==> r == Some(
                old(self).spec_current(),
            ) && final(self).spec_current() == old(self).spec_current() + 1
                && final(self).spec_recycled() == old(self).spec_recycled(),
            match r {
                Some(p) => old(self).free_frames().contains(p) && final(self).free_frames() == old(self).free_frames().remove(p),
                None => old(self).free_frames().is_empty() && final(self).free_frames() == old(self).free_frames(),
            },
            r is Some <==> old(self).available() > 0,
            r is Some ==> final(self).available() == old(self).available() - 1,
            r is None ==> final(self).available() == old(self).available(),
    {
        let ghost f0 = self.free_frames();
        let ghost rec = self.recycled@;
        if let Some(ppn) = self.recycled.pop() {
            proof {
                rec.drop_last().unique_seq_to_set();
                assert(rec =~= rec.drop_last().push(ppn));
                rec.drop_last().lemma_push_to_set_commute(ppn);
                assert(rec.to_set() =~= rec.drop_last().to_set().insert(ppn));
                assert(!rec.drop_last().contains(ppn)) by {
                    if rec.drop_last().contains(ppn) {
                        let k = choose|k: int| 0 <= k < rec.drop_last().len() && rec.drop_last()[k] == ppn;
                        assert(rec[k] == rec[rec.len() - 1]);
                    }
                }
                assert(self.free_frames() =~= f0.remove(ppn));
            }
            Some(ppn)
        } else if self.current == self.end {
            proof {
                assert(f0 =~= Set::empty());
            }
            None
        } else {
            self.current = self.current + 1;
            proof {
                assert(self.free_frames() =~= f0.remove((self.current - 1) as usize)) by {
                    assert(forall|p: usize| !rec.to_set().contains(p));
                }
            }
            Some(self.current - 1)
        }
    }

    /// Takes frame `ppn` back.
    pub fn dealloc(&mut self, ppn: usize)
        requires
            old(self).wf(),
            ppn < old(self).spec_current(),
            !old(self).spec_recycled().contains(ppn),
        ensures
            final(self).wf(),
            final(self).spec_current() == old(self).spec_current(),
            final(self).spec_end() == old(self).spec_end(),
            final(self).spec_recycled() == old(self).spec_recycled().push(ppn),
            final(self).free_frames() == old(self).free_frames().insert(ppn),
    {
        let ghost rec = self.recycled@;
        self.recycled.push(ppn);
        proof {
            rec.lemma_push_to_set_commute(ppn);
            assert(self.recycled@.to_set() =~= rec.to_set().insert(ppn));
            assert(self.free_frames() =~= old(self).free_frames().insert(ppn));
            assert forall|i: int, j: int| 0 <= i < j < self.recycled@.len() implies self.recycled@[i] != self.recycled@[j] by {
                if j == self.recycled@.len() - 1 {
                    assert(rec[i] == self.recycled@[i]);
                    assert(rec.contains(rec[i]));
                }
            }
        }
    }
}

/// Ownership of one physical frame, by page number.
pub struct FrameTracker {
    pub ppn: usize,
}

impl FrameTracker {
    /// Takes ownership of frame `ppn` as it is (a copy-on-write frame whose
    /// last sharer this is).
    pub fn from_existing_ppn(ppn: usize) -> (f: Self)
        ensures
            f.ppn == ppn,
    {
        FrameTracker { ppn }
    }
}

/// Allocates a frame (see `StackFrameAllocator::allocate`).
pub fn frame_alloc(allocator: &mut StackFrameAllocator) -> (f: Option<FrameTracker>)
    requires
        old(allocator).wf(),
    ensures
        final(allocator).wf(),
        match f {
            Some(t) => old(allocator).free_frames().contains(t.ppn) && final(allocator).free_frames() == old(allocator).free_frames().remove(t.ppn),
            None => old(allocator).free_frames().is_empty() && final(allocator).free_frames() == old(allocator).free_frames(),
        },
        f is Some <==> old(allocator).available() > 0,
        f is Some ==> final(allocator).available() == old(allocator).available() - 1,
        f is None ==> final(allocator).available() == old(allocator).available(),
        final(allocator).spec_current() >= old(allocator).spec_current(),
        final(allocator).spec_end() == old(allocator).spec_end(),
        old(allocator).spec_recycled().len() > 0 ==> f == Some(FrameTracker { ppn: old(allocator).spec_recycled().last() })
            && final(allocator).spec_recycled() == old(allocator).spec_recycled().drop_last(),
        old(allocator).spec_recycled().len() == 0 && old(allocator).spec_current() < old(allocator).spec_end()
            ==> f == Some(FrameTracker { ppn: old(allocator).spec_current() }),
{
    match allocator.allocate() {
        Some(ppn) => Some(FrameTracker { ppn }),
        None => None,
    }
}

/// Reference counts of frames shared copy-on-write, by page number.
pub struct FrameRefcounts {
    map: BTreeMap<usize, usize>,
}

impl FrameRefcounts {
    /// The counts.
    pub closed spec fn view(&self) -> Map<usize, usize> {
        self.map@
    }

    /// No frame is tracked.
    pub fn new() -> (t: Self)
        ensures
            t@ == Map::<usize, usize>::empty(),
    {
        FrameRefcounts { map: BTreeMap::new() }
    }
}

/// Adds one reference to frame `ppn` (an untracked frame counts as 1) and
/// returns the new count.
pub fn frame_refcount_inc(refs: &mut FrameRefcounts, ppn: usize) -> (n: usize)
    requires
        old(refs)@.contains_key(ppn) ==> old(refs)@[ppn] < usize::MAX,
    ensures
        n == (if old(refs)@.contains_key(ppn) { old(refs)@[ppn] + 1 } else { 2 }),
        final(refs)@ == old(refs)@.insert(ppn, n),
{
    let cur = match refs.map.get(&ppn) {
        Some(c) => *c,
        None => 1,
    };
    let n = cur + 1;
    refs.map.insert(ppn, n);
    n
}

/// Drops one reference to frame `ppn` and returns the new count; at 0 the
/// entry goes and the frame returns to the allocator. An untracked frame
/// gives 0 and changes nothing.
pub fn frame_refcount_dec(refs: &mut FrameRefcounts, allocator: &mut StackFrameAllocator, ppn: usize) -> (n: usize)
    requires
        old(refs)@.contains_key(ppn) ==> old(refs)@[ppn] >= 1,
        old(refs)@.contains_key(ppn) && old(refs)@[ppn] == 1 ==> ppn < old(allocator).spec_current()
            && !old(allocator).spec_recycled().contains(ppn),
        old(allocator).wf(),
    ensures
        final(allocator).wf(),
        !old(refs)@.contains_key(ppn) ==> n == 0 && final(refs)@ == old(refs)@ && *final(allocator) == *old(allocator),
        old(refs)@.contains_key(ppn) && old(refs)@[ppn] == 1 ==> n == 0 && final(refs)@ == old(refs)@.remove(ppn)
            && final(allocator).free_frames() == old(allocator).free_frames().insert(ppn)
            && final(allocator).spec_recycled() == old(allocator).spec_recycled().push(ppn)
            && final(allocator).spec_current() == old(allocator).spec_current()
            && final(allocator).spec_end() == old(allocator).spec_end(),
        old(refs)@.contains_key(ppn) && old(refs)@[ppn] > 1 ==> n == old(refs)@[ppn] - 1
            && final(refs)@ == old(refs)@.insert(ppn, n) && *final(allocator) == *old(allocator),
{
    match refs.map.get(&ppn) {
        Some(c) => {
            let n = *c - 1;
            if n == 0 {
                refs.map.remove(&ppn);
                allocator.dealloc(ppn);
                0
            } else {
                refs.map.insert(ppn, n);
                n
            }
        },
        None => 0,
    }
}

/// The reference count of frame `ppn`; 0 when untracked.
pub fn frame_refcount_get(refs: &FrameRefcounts, ppn: usize) -> (n: usize)
    ensures
        n == (if refs@.contains_key(ppn) { refs@[ppn] } else { 0 }),
{
    match refs.map.get(&ppn) {
        Some(c) => *c,
        None => 0,
    }
}

/// Starts tracking frame `ppn` with count 1, unless it is tracked.
pub fn frame_refcount_register(refs: &mut FrameRefcounts, ppn: usize)
    ensures
        final(refs)@ == (if old(refs)@.contains_key(ppn) { old(refs)@ } else { old(refs)@.insert(ppn, 1) }),
{
    if !refs.map.contains_key(&ppn) {
        refs.map.insert(ppn, 1);
    }
}

/// Stops tracking frame `ppn` without freeing it; whether it was tracked.
pub fn frame_refcount_take(refs: &mut FrameRefcounts, ppn: usize) -> (b: bool)
    ensures
        b == old(refs)@.contains_key(ppn),
        final(refs)@ == old(refs)@.remove(ppn),
{
    refs.map.remove(&ppn).is_some()
}

} // verus!
