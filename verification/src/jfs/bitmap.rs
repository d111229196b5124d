use vstd::prelude::*;
use crate::jfs::block_cache::{BlockCache, CachedBlock, content, readable};
use crate::jfs::disk::{Block, FileDisk, BLOCK_SIZE};

verus! {

/// Bit `k` of byte `x`.
pub open spec fn byte_bit(x: u8, k: u8) -> bool {
    x & (1u8 << k) != 0
}

/// Bit `i` of a bitmap held in `s`: bit `i % 8` of byte `i / 8`.
pub open spec fn bit_set(s: Seq<u8>, i: int) -> bool {
    byte_bit(s[i / 8], (i % 8) as u8)
}

/// `s` with bit `i` set.
pub open spec fn with_bit(s: Seq<u8>, i: int) -> Seq<u8> {
    s.update(i / 8, s[i / 8] | (1u8 << ((i % 8) as u8)))
}

/// `s` with bit `i` cleared.
pub open spec fn without_bit(s: Seq<u8>, i: int) -> Seq<u8> {
    s.update(i / 8, s[i / 8] & !(1u8 << ((i % 8) as u8)))
}

/// `new` is `old` where block `b` now holds `data`, dirty, with its pin
/// state kept.
pub open spec fn cache_updated(
    old: Map<u32, CachedBlock>,
    new: Map<u32, CachedBlock>,
    b: u32,
    data: Seq<u8>,
) -> bool {
    &&& new.dom() == old.dom().insert(b)
    &&& forall|k: u32| #[trigger] new.contains_key(k) && k != b ==> new[k] == old[k]
    &&& new[b].data@ == data
    &&& new[b].dirty
    &&& new[b].pinned == (old.contains_key(b) && old[b].pinned)
}

/// `new` is `old` after reading block `b`: it is cached, nothing else
/// changes.
pub open spec fn cache_read(
    old: Map<u32, CachedBlock>,
    new: Map<u32, CachedBlock>,
    b: u32,
    d: Seq<Block>,
) -> bool {
    new == (if old.contains_key(b) {
        old
    } else {
        old.insert(b, CachedBlock { data: d[b as int], dirty: false, pinned: false })
    })
}

/// A write after a read for modification leaves the block updated.
pub proof fn lemma_cache_write_after_read_mut(
    old: Map<u32, CachedBlock>,
    mid: Map<u32, CachedBlock>,
    new: Map<u32, CachedBlock>,
    b: u32,
    c: Block,
    data: Block,
)
    requires
        mid == old.insert(
            b,
            CachedBlock { data: c, dirty: true, pinned: old.contains_key(b) && old[b].pinned },
        ),
        new == mid.insert(
            b,
            CachedBlock { data, dirty: true, pinned: mid.contains_key(b) && mid[b].pinned },
        ),
    ensures
        cache_updated(old, new, b, data@),
{
    assert(new.dom() =~= old.dom().insert(b));
}

/// A cache entry updated twice holds the second update.
pub proof fn lemma_cache_updated_twice(
    a: Map<u32, CachedBlock>,
    b: Map<u32, CachedBlock>,
    c: Map<u32, CachedBlock>,
    blk: u32,
    d1: Seq<u8>,
    d2: Seq<u8>,
)
    requires
        cache_updated(a, b, blk, d1),
        cache_updated(b, c, blk, d2),
    ensures
        cache_updated(a, c, blk, d2),
{
    assert(c.dom() =~= a.dom().insert(blk));
}

pub proof fn lemma_or_bit(x: u8, k: u8, j: u8)
    requires
        k < 8,
        j < 8,
    ensures
        byte_bit(x | (1u8 << k), j) == (byte_bit(x, j) || j == k),
{
    assert((x | (1u8 << k)) & (1u8 << j) != 0 <==> (x & (1u8 << j) != 0 || j == k)) by (bit_vector)
        requires
            k < 8,
            j < 8,
    ;
}

pub proof fn lemma_andnot_bit(x: u8, k: u8, j: u8)
    requires
        k < 8,
        j < 8,
    ensures
        byte_bit(x & !(1u8 << k), j) == (byte_bit(x, j) && j != k),
{
    assert((x & !(1u8 << k)) & (1u8 << j) != 0 <==> (x & (1u8 << j) != 0 && j != k)) by (bit_vector)
        requires
            k < 8,
            j < 8,
    ;
}

/// Setting bit `i` sets it and keeps every other bit.
pub proof fn lemma_with_bit(s: Seq<u8>, i: int, j: int)
    requires
        0 <= i < 8 * s.len(),
        0 <= j < 8 * s.len(),
    ensures
        bit_set(with_bit(s, i), j) == (bit_set(s, j) || j == i),
{
    if j / 8 == i / 8 {
        lemma_or_bit(s[i / 8], (i % 8) as u8, (j % 8) as u8);
    }
}

/// Clearing bit `i` clears it and keeps every other bit.
pub proof fn lemma_without_bit(s: Seq<u8>, i: int, j: int)
    requires
        0 <= i < 8 * s.len(),
        0 <= j < 8 * s.len(),
    ensures
        bit_set(without_bit(s, i), j) == (bit_set(s, j) && j != i),
{
    if j / 8 == i / 8 {
        lemma_andnot_bit(s[i / 8], (i % 8) as u8, (j % 8) as u8);
    }
}

/// Bitmap allocator for inodes and data blocks: one bit per item in one
/// bitmap block.
pub struct Bitmap;

impl Bitmap {
    /// Allocates the lowest free item among the first `max_items` (at most
    /// 4096) of the bitmap in `bitmap_block` and returns its index; `None`
    /// when all are in use.
    pub fn allocate(
        cache: &mut BlockCache,
        disk: &FileDisk,
        bitmap_block: u32,
        max_items: u32,
    ) -> (r: Option<u32>)
        requires
            readable(old(cache)@, *disk, bitmap_block),
        ensures
            ({
                let c = content(old(cache)@, disk@, bitmap_block)@;
                let bits = if max_items < 4096 {
                    max_items as int
                } else {
                    4096
                };
                match r {
                    Some(i) => {
                        &&& i < bits
                        &&& !bit_set(c, i as int)
                        &&& forall|j: int| 0 <= j < i ==> #[trigger] bit_set(c, j)
                        &&& cache_updated(old(cache)@, final(cache)@, bitmap_block, with_bit(c, i as int))
                    },
                    None => {
                        &&& forall|j: int| 0 <= j < bits ==> #[trigger] bit_set(c, j)
                        &&& cache_updated(old(cache)@, final(cache)@, bitmap_block, c)
                    },
                }
            }),
    {
        let ghost c0 = cache@;
        let mut data = cache.read_mut(disk, bitmap_block);
        let ghost c = data@;
        let ghost c1 = cache@;
        proof {
            assert(cache@.dom() =~= c0.dom().insert(bitmap_block));
        }
        let bits: u32 = if max_items < (BLOCK_SIZE * 8) as u32 {
            max_items
        } else {
            (BLOCK_SIZE * 8) as u32
        };
        let mut i: u32 = 0;
        while i < bits
            invariant
                i <= bits,
                bits <= 4096,
                bits == (if max_items < 4096 { max_items as int } else { 4096 }),
                data@ == c,
                c == content(old(cache)@, disk@, bitmap_block)@,
                cache_updated(old(cache)@, cache@, bitmap_block, c),
                cache@ == old(cache)@.insert(
                    bitmap_block,
                    CachedBlock {
                        data: content(old(cache)@, disk@, bitmap_block),
                        dirty: true,
                        pinned: old(cache)@.contains_key(bitmap_block) && old(cache)@[bitmap_block].pinned,
                    },
                ),
                forall|j: int| 0 <= j < i ==> #[trigger] bit_set(c, j),
            decreases bits - i,
        {
            let byte_idx = (i / 8) as usize;
            let bit_idx = (i % 8) as u8;
            if data[byte_idx] & (1u8 << bit_idx) == 0 {
                data[byte_idx] = data[byte_idx] | (1u8 << bit_idx);
                assert(data@ =~= with_bit(c, i as int));
                let ghost c2 = cache@;
                cache.write(disk, bitmap_block, &data);
                proof {
                    lemma_cache_write_after_read_mut(old(cache)@, c2, cache@, bitmap_block, content(old(cache)@, disk@, bitmap_block), data);
                }
                return Some(i);
            }
            i = i + 1;
        }
        None
    }

    /// Frees item `index`.
    pub fn free(cache: &mut BlockCache, disk: &FileDisk, bitmap_block: u32, index: u32)
        requires
            readable(old(cache)@, *disk, bitmap_block),
            index < 4096,
        ensures
            cache_updated(
                old(cache)@,
                final(cache)@,
                bitmap_block,
                without_bit(content(old(cache)@, disk@, bitmap_block)@, index as int),
            ),
    {
        let mut data = cache.read_mut(disk, bitmap_block);
        let ghost c2 = cache@;
        let byte_idx = (index / 8) as usize;
        let bit_idx = (index % 8) as u8;
        data[byte_idx] = data[byte_idx] & !(1u8 << bit_idx);
        assert(data@ =~= without_bit(content(old(cache)@, disk@, bitmap_block)@, index as int));
        cache.write(disk, bitmap_block, &data);
        proof {
            lemma_cache_write_after_read_mut(old(cache)@, c2, cache@, bitmap_block, content(old(cache)@, disk@, bitmap_block), data);
        }
    }

    /// Whether item `index` is allocated.
    pub fn is_allocated(
        cache: &mut BlockCache,
        disk: &FileDisk,
        bitmap_block: u32,
        index: u32,
    ) -> (b: bool)
        requires
            readable(old(cache)@, *disk, bitmap_block),
            index < 4096,
        ensures
            b == bit_set(content(old(cache)@, disk@, bitmap_block)@, index as int),
            cache_read(old(cache)@, final(cache)@, bitmap_block, disk@),
    {
        let data = cache.read(disk, bitmap_block);
        let byte_idx = (index / 8) as usize;
        let bit_idx = (index % 8) as u8;
        data[byte_idx] & (1u8 << bit_idx) != 0
    }

    /// Marks item `index` as allocated.
    pub fn mark(cache: &mut BlockCache, disk: &FileDisk, bitmap_block: u32, index: u32)
        requires
            readable(old(cache)@, *disk, bitmap_block),
            index < 4096,
        ensures
            cache_updated(
                old(cache)@,
                final(cache)@,
                bitmap_block,
                with_bit(content(old(cache)@, disk@, bitmap_block)@, index as int),
            ),
    {
        let mut data = cache.read_mut(disk, bitmap_block);
        let ghost c2 = cache@;
        let byte_idx = (index / 8) as usize;
        let bit_idx = (index % 8) as u8;
        data[byte_idx] = data[byte_idx] | (1u8 << bit_idx);
        assert(data@ =~= with_bit(content(old(cache)@, disk@, bitmap_block)@, index as int));
        cache.write(disk, bitmap_block, &data);
        proof {
            lemma_cache_write_after_read_mut(old(cache)@, c2, cache@, bitmap_block, content(old(cache)@, disk@, bitmap_block), data);
        }
    }
}

/// Marks every item of a bitmap block as free.
pub fn bitmap_init(cache: &mut BlockCache, disk: &FileDisk, bitmap_block: u32)
    requires
        readable(old(cache)@, *disk, bitmap_block),
    ensures
        cache_updated(old(cache)@, final(cache)@, bitmap_block, Seq::new(512, |i: int| 0u8)),
{
    let c = cache.read_mut(disk, bitmap_block);
    let ghost c2 = cache@;
    let data: Block = [0u8; BLOCK_SIZE];
    assert(data@ =~= Seq::new(512, |i: int| 0u8));
    cache.write(disk, bitmap_block, &data);
    proof {
        lemma_cache_write_after_read_mut(old(cache)@, c2, cache@, bitmap_block, c, data);
    }
}

} // verus!
