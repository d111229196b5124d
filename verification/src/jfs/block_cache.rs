use vstd::prelude::*;
use std::collections::HashMap;
use crate::jfs::disk::{Block, FileDisk, BLOCK_SIZE};

verus! {

broadcast use vstd::std_specs::hash::group_hash_axioms;

/// A cached block.
#[derive(Clone, Copy)]
pub struct CachedBlock {
    pub data: Block,
    pub dirty: bool,
    /// Pinned blocks are left out of `sync` (the log manages them).
    pub pinned: bool,
}

/// The content of block `b` as the file system sees it: the cached copy if
/// there is one, else the block on disk.
pub open spec fn content(c: Map<u32, CachedBlock>, d: Seq<Block>, b: u32) -> Block {
    if c.contains_key(b) {
        c[b].data
    } else {
        d[b as int]
    }
}

/// Block `b` can be read: it is cached or on the disk.
pub open spec fn readable(c: Map<u32, CachedBlock>, disk: FileDisk, b: u32) -> bool {
    c.contains_key(b) || (disk.wf() && b < disk.nblocks)
}

/// What `sync` leaves of a cache entry: dirty, unpinned blocks are clean.
pub open spec fn synced_entry(e: CachedBlock) -> CachedBlock {
    if e.dirty && !e.pinned {
        CachedBlock { dirty: false, ..e }
    } else {
        e
    }
}

/// A write-back cache of disk blocks that tracks dirty state.
pub struct BlockCache {
    cache: HashMap<u32, CachedBlock>,
}

impl BlockCache {
    /// The cached blocks by block number.
    pub closed spec fn view(&self) -> Map<u32, CachedBlock> {
        self.cache@
    }

    pub fn new() -> (c: Self)
        ensures
            c@ == Map::<u32, CachedBlock>::empty(),
    {
        BlockCache { cache: HashMap::new() }
    }

    fn fetch(&self, disk: &FileDisk, block_no: u32) -> (e: CachedBlock)
        requires
            readable(self@, *disk, block_no),
        ensures
            e == (if self@.contains_key(block_no) {
                self@[block_no]
            } else {
                CachedBlock { data: disk@[block_no as int], dirty: false, pinned: false }
            }),
    {
        match self.cache.get(&block_no) {
            Some(e) => *e,
            None => {
                let mut data: Block = [0u8; BLOCK_SIZE];
                disk.read_block(block_no, &mut data);
                CachedBlock { data, dirty: false, pinned: false }
            },
        }
    }

    /// Reads a block, from the cache if it is there, else from disk into
    /// the cache.
    pub fn read(&mut self, disk: &FileDisk, block_no: u32) -> (data: Block)
        requires
            readable(old(self)@, *disk, block_no),
        ensures
            data == content(old(self)@, disk@, block_no),
            final(self)@ == (if old(self)@.contains_key(block_no) {
                old(self)@
            } else {
                old(self)@.insert(
                    block_no,
                    CachedBlock { data: disk@[block_no as int], dirty: false, pinned: false },
                )
            }),
    {
        let e = self.fetch(disk, block_no);
        if !self.cache.contains_key(&block_no) {
            self.cache.insert(block_no, e);
        }
        e.data
    }

    /// Reads a block for modification: it is cached and marked dirty; the
    /// new content is stored with `write`.
    pub fn read_mut(&mut self, disk: &FileDisk, block_no: u32) -> (data: Block)
        requires
            readable(old(self)@, *disk, block_no),
        ensures
            data == content(old(self)@, disk@, block_no),
            final(self)@ == old(self)@.insert(
                block_no,
                CachedBlock {
                    data: content(old(self)@, disk@, block_no),
                    dirty: true,
                    pinned: old(self)@.contains_key(block_no) && old(self)@[block_no].pinned,
                },
            ),
    {
        let e = self.fetch(disk, block_no);
        self.cache.insert(block_no, CachedBlock { dirty: true, ..e });
        e.data
    }

    /// Writes `data` to a cached block (the disk is untouched until a sync)
    /// and returns the block's previous content.
    pub fn write(&mut self, disk: &FileDisk, block_no: u32, data: &Block) -> (prev: Block)
        requires
            readable(old(self)@, *disk, block_no),
        ensures
            prev == content(old(self)@, disk@, block_no),
            final(self)@ == old(self)@.insert(
                block_no,
                CachedBlock {
                    data: *data,
                    dirty: true,
                    pinned: old(self)@.contains_key(block_no) && old(self)@[block_no].pinned,
                },
            ),
    {
        let e = self.fetch(disk, block_no);
        self.cache.insert(block_no, CachedBlock { data: *data, dirty: true, ..e });
        e.data
    }

    /// Writes every dirty, unpinned block to disk and marks it clean.
    pub fn sync(&mut self, disk: &mut FileDisk)
        requires
            old(disk).wf(),
        ensures
            final(disk).wf(),
            final(disk).nblocks == old(disk).nblocks,
            final(self)@.dom() == old(self)@.dom(),
            forall|b: u32| #[trigger]
                final(self)@.contains_key(b) ==> final(self)@[b] == (if b < old(disk).nblocks {
                    synced_entry(old(self)@[b])
                } else {
                    old(self)@[b]
                }),
            forall|i: int|
                0 <= i < old(disk)@.len() ==> #[trigger] final(disk)@[i] == (if old(self)@.contains_key(
                    i as u32,
                ) && old(self)@[i as u32].dirty && !old(self)@[i as u32].pinned {
                    old(self)@[i as u32].data
                } else {
                    old(disk)@[i]
                }),
    {
        let n = disk.nblocks;
        let mut b: u32 = 0;
        while b < n
            invariant
                b <= n,
                n == disk.nblocks,
                disk.wf(),
                old(disk).wf(),
                n == old(disk).nblocks,
                final_dom_same(old(self)@, self@),
                forall|k: u32|
                    #[trigger] self@.contains_key(k) ==> self@[k] == (if k < b {
                        synced_entry(old(self)@[k])
                    } else {
                        old(self)@[k]
                    }),
                forall|i: int|
                    0 <= i < n ==> #[trigger] disk@[i] == (if i < b && old(self)@.contains_key(
                        i as u32,
                    ) && old(self)@[i as u32].dirty && !old(self)@[i as u32].pinned {
                        old(self)@[i as u32].data
                    } else {
                        old(disk)@[i]
                    }),
            decreases n - b,
        {
            match self.cache.get(&b) {
                Some(e) => {
                    let e = *e;
                    if e.dirty && !e.pinned {
                        disk.write_block(b, &e.data);
                        self.cache.insert(b, CachedBlock { dirty: false, ..e });
                        assert(self@.dom() =~= old(self)@.dom());
                    }
                },
                None => {},
            }
            b = b + 1;
        }
    }

    /// Writes every cached block that lies on the disk to the disk, clean
    /// or dirty: afterwards the disk alone holds what disk and cache showed
    /// together. The cache is left as it is.
    pub(crate) fn write_through(&self, disk: &mut FileDisk)
        requires
            old(disk).wf(),
        ensures
            final(disk).wf(),
            final(disk).nblocks == old(disk).nblocks,
            forall|i: int| 0 <= i < old(disk)@.len() ==> #[trigger] final(disk)@[i] == content(self@, old(disk)@, i as u32),
    {
        let n = disk.nblocks;
        let mut b: u32 = 0;
        while b < n
            invariant
                b <= n,
                n == disk.nblocks,
                n == old(disk).nblocks,
                disk.wf(),
                old(disk).wf(),
                forall|i: int| 0 <= i < b ==> #[trigger] disk@[i] == content(self@, old(disk)@, i as u32),
                forall|i: int| b <= i < n ==> #[trigger] disk@[i] == old(disk)@[i],
            decreases n - b,
        {
            if self.cache.contains_key(&b) {
                let e = self.fetch(disk, b);
                disk.write_block(b, &e.data);
            }
            b = b + 1;
        }
    }

    /// Writes the listed blocks to disk when they are cached and dirty, and
    /// marks them clean.
    pub fn sync_blocks(&mut self, disk: &mut FileDisk, blocks: &[u32])
        requires
            old(disk).wf(),
            forall|k: int|
                0 <= k < blocks@.len() && #[trigger] old(self)@.contains_key(blocks@[k]) && old(
                    self,
                )@[blocks@[k]].dirty ==> blocks@[k] < old(disk).nblocks,
        ensures
            final(disk).wf(),
            final(disk).nblocks == old(disk).nblocks,
            final(self)@.dom() == old(self)@.dom(),
            forall|b: u32| #[trigger]
                final(self)@.contains_key(b) ==> final(self)@[b] == (if blocks@.contains(b) {
                    CachedBlock { dirty: false, ..old(self)@[b] }
                } else {
                    old(self)@[b]
                }),
            forall|i: int|
                0 <= i < old(disk)@.len() ==> #[trigger] final(disk)@[i] == (if blocks@.contains(
                    i as u32,
                ) && old(self)@.contains_key(i as u32) && old(self)@[i as u32].dirty {
                    old(self)@[i as u32].data
                } else {
                    old(disk)@[i]
                }),
    {
        let mut k: usize = 0;
        while k < blocks.len()
            invariant
                k <= blocks@.len(),
                disk.wf(),
                old(disk).wf(),
                disk.nblocks == old(disk).nblocks,
                final_dom_same(old(self)@, self@),
                forall|j: int|
                    0 <= j < blocks@.len() && #[trigger] old(self)@.contains_key(blocks@[j]) && old(
                        self,
                    )@[blocks@[j]].dirty ==> blocks@[j] < old(disk).nblocks,
                forall|b: u32| #[trigger]
                    self@.contains_key(b) ==> self@[b] == (if blocks@.take(k as int).contains(b) {
                        CachedBlock { dirty: false, ..old(self)@[b] }
                    } else {
                        old(self)@[b]
                    }),
                forall|i: int|
                    0 <= i < old(disk)@.len() ==> #[trigger] disk@[i] == (if blocks@.take(
                        k as int,
                    ).contains(i as u32) && old(self)@.contains_key(i as u32) && old(
                        self,
                    )@[i as u32].dirty {
                        old(self)@[i as u32].data
                    } else {
                        old(disk)@[i]
                    }),
            decreases blocks@.len() - k,
        {
            let b = blocks[k];
            proof {
                assert forall|x: u32| blocks@.take(k + 1).contains(x) <==> (blocks@.take(
                    k as int,
                ).contains(x) || x == b) by {
                    if blocks@.take(k + 1).contains(x) {
                        let j = choose|j: int| 0 <= j < k + 1 && #[trigger] blocks@.take(k + 1)[j] == x;
                        if j < k {
                            assert(blocks@.take(k as int)[j] == x);
                        }
                    }
                    if blocks@.take(k as int).contains(x) {
                        let j = choose|j: int| 0 <= j < k && #[trigger] blocks@.take(k as int)[j] == x;
                        assert(blocks@.take(k + 1)[j] == x);
                    }
                    if x == b {
                        assert(blocks@.take(k + 1)[k as int] == x);
                    }
                }
            }
            match self.cache.get(&b) {
                Some(e) => {
                    let e = *e;
                    if e.dirty {
                        proof {
                            assert(old(self)@.contains_key(b));
                            assert(!blocks@.take(k as int).contains(b));
                            assert(old(self)@[blocks@[k as int]].dirty);
                        }
                        let ghost d0 = disk@;
                        disk.write_block(b, &e.data);
                        self.cache.insert(b, CachedBlock { dirty: false, ..e });
                        assert(self@.dom() =~= old(self)@.dom());
                        assert forall|i: int| 0 <= i < old(disk)@.len() implies #[trigger] disk@[i] == (if blocks@.take(
                            k + 1,
                        ).contains(i as u32) && old(self)@.contains_key(i as u32) && old(
                            self,
                        )@[i as u32].dirty {
                            old(self)@[i as u32].data
                        } else {
                            old(disk)@[i]
                        }) by {
                            if i == b as int {
                                assert(i as u32 == b);
                            } else {
                                assert(disk@[i] == d0[i]);
                                assert(i as u32 != b);
                            }
                        }
                    }
                },
                None => {},
            }
            k = k + 1;
        }
        proof {
            assert(blocks@.take(k as int) =~= blocks@);
        }
    }

    /// Pins a cached block: `sync` leaves it alone.
    pub fn pin(&mut self, block_no: u32)
        ensures
            final(self)@ == (if old(self)@.contains_key(block_no) {
                old(self)@.insert(block_no, CachedBlock { pinned: true, ..old(self)@[block_no] })
            } else {
                old(self)@
            }),
    {
        match self.cache.get(&block_no) {
            Some(e) => {
                let e = *e;
                self.cache.insert(block_no, CachedBlock { pinned: true, ..e });
            },
            None => {},
        }
    }

    /// Unpins a cached block.
    pub fn unpin(&mut self, block_no: u32)
        ensures
            final(self)@ == (if old(self)@.contains_key(block_no) {
                old(self)@.insert(block_no, CachedBlock { pinned: false, ..old(self)@[block_no] })
            } else {
                old(self)@
            }),
    {
        match self.cache.get(&block_no) {
            Some(e) => {
                let e = *e;
                self.cache.insert(block_no, CachedBlock { pinned: false, ..e });
            },
            None => {},
        }
    }

    /// Drops a block from the cache.
    pub fn invalidate(&mut self, block_no: u32)
        ensures
            final(self)@ == old(self)@.remove(block_no),
    {
        self.cache.remove(&block_no);
    }

    /// Drops every block from the cache.
    pub fn clear(&mut self)
        ensures
            final(self)@ == Map::<u32, CachedBlock>::empty(),
    {
        self.cache.clear();
    }

    /// Whether a block is cached.
    pub fn contains(&self, block_no: u32) -> (b: bool)
        ensures
            b == self@.contains_key(block_no),
    {
        self.cache.contains_key(&block_no)
    }

    /// The number of cached blocks.
    pub fn len(&self) -> (n: usize)
        ensures
            n == self@.len(),
    {
        self.cache.len()
    }

    pub fn is_empty(&self) -> (b: bool)
        ensures
            b == (self@.len() == 0),
    {
        self.cache.is_empty()
    }
}

pub open spec fn final_dom_same(a: Map<u32, CachedBlock>, b: Map<u32, CachedBlock>) -> bool {
    a.dom() == b.dom()
}

} // verus!

verus! {

/// Every block outside `s` keeps its content, and no cached block is
/// dropped.
pub open spec fn unchanged_except(
    old: Map<u32, CachedBlock>,
    new: Map<u32, CachedBlock>,
    d: Seq<Block>,
    s: Set<u32>,
) -> bool {
    &&& forall|k: u32| #[trigger] old.contains_key(k) ==> new.contains_key(k)
    &&& forall|k: u32|
        !s.contains(k) && (old.contains_key(k) || k < d.len()) ==> #[trigger] content(new, d, k)
            == content(old, d, k)
}

pub proof fn lemma_unchanged_except_trans(
    a: Map<u32, CachedBlock>,
    b: Map<u32, CachedBlock>,
    c: Map<u32, CachedBlock>,
    d: Seq<Block>,
    s1: Set<u32>,
    s2: Set<u32>,
)
    requires
        unchanged_except(a, b, d, s1),
        unchanged_except(b, c, d, s2),
    ensures
        unchanged_except(a, c, d, s1 + s2),
{
    assert forall|k: u32|
        !(s1 + s2).contains(k) && (a.contains_key(k) || k < d.len()) implies #[trigger] content(
        c,
        d,
        k,
    ) == content(a, d, k) by {
        assert(content(b, d, k) == content(a, d, k));
        assert(b.contains_key(k) || k < d.len());
    }
}

} // verus!
