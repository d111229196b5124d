use vstd::prelude::*;
use crate::jfs::bitmap::{Bitmap, bit_set, with_bit, cache_updated, lemma_cache_write_after_read_mut};
use crate::jfs::block_cache::{BlockCache, CachedBlock, content, readable, unchanged_except};
use crate::jfs::codec::{get_u16, get_u32, put_u16, put_u32, put_bytes, read_u16, read_u32, write_u16, write_u32, lemma_get_put_u16, lemma_get_put_u32};
use crate::jfs::disk::{Block, FileDisk, BLOCK_SIZE};
use crate::jfs::superblock::Superblock;

verus! {

pub const INODE_NONE: u16 = 0;
pub const INODE_FILE: u16 = 1;
pub const INODE_DIR: u16 = 2;

/// Number of direct block pointers per inode.
pub const NDIRECT: usize = 12;

/// On-disk inode size in bytes.
pub const INODE_SIZE: usize = 64;

/// Number of inodes per block.
pub const INODES_PER_BLOCK: u32 = 8;

/// On-disk inode.
#[derive(Debug, Clone, Copy)]
pub struct DiskInode {
    /// 0 = none, 1 = file, 2 = directory.
    pub itype: u16,
    pub nlink: u16,
    pub size: u32,
    pub direct: [u32; NDIRECT],
}

/// `s` with the direct pointers `dir[0..n]` stored from byte 8 on.
pub open spec fn put_directs(s: Seq<u8>, dir: Seq<u32>, n: nat) -> Seq<u8>
    decreases n,
{
    if n == 0 {
        s
    } else {
        put_u32(put_directs(s, dir, (n - 1) as nat), 8 + 4 * (n - 1), dir[n - 1])
    }
}

/// The 64-byte encoding of an inode: type, link count, size, then the
/// direct pointers, all little-endian, the last 8 bytes zero.
pub open spec fn encode_inode(d: DiskInode) -> Seq<u8> {
    put_directs(
        put_u32(put_u16(put_u16(Seq::new(64, |i: int| 0u8), 0, d.itype), 2, d.nlink), 4, d.size),
        d.direct@,
        12,
    )
}

/// `d` is the inode that the 64 bytes `b` decode to.
pub open spec fn decodes_inode(b: Seq<u8>, d: DiskInode) -> bool {
    &&& d.itype == get_u16(b, 0)
    &&& d.nlink == get_u16(b, 2)
    &&& d.size == get_u32(b, 4)
    &&& forall|i: int| 0 <= i < 12 ==> #[trigger] d.direct@[i] == get_u32(b, 8 + 4 * i)
}

/// The encoding of an inode ends in 8 zero bytes, and an unused inode
/// with no blocks encodes to 64 zero bytes.
pub proof fn law_inode_padding(d: DiskInode)
    ensures
        encode_inode(d).len() == 64,
        encode_inode(d).subrange(56, 64) == Seq::new(8, |i: int| 0u8),
        d.itype == 0 && d.nlink == 0 && d.size == 0 && d.direct@ == Seq::new(12, |i: int| 0u32)
            ==> encode_inode(d) == Seq::new(64, |i: int| 0u8),
{
    let z = Seq::new(64, |i: int| 0u8);
    let h = put_u32(put_u16(put_u16(z, 0, d.itype), 2, d.nlink), 4, d.size);
    lemma_directs_keep_tail(h, d.direct@, 12);
    assert(encode_inode(d).subrange(56, 64) =~= Seq::new(8, |i: int| 0u8));
    if d.itype == 0 && d.nlink == 0 && d.size == 0 && d.direct@ == Seq::new(12, |i: int| 0u32) {
        assert(h =~= z);
        lemma_zero_directs(12);
    }
}

proof fn lemma_directs_keep_tail(s: Seq<u8>, dir: Seq<u32>, n: nat)
    requires
        s.len() == 64,
        n <= 12,
    ensures
        put_directs(s, dir, n).len() == 64,
        put_directs(s, dir, n).subrange(56, 64) == s.subrange(56, 64),
    decreases n,
{
    if n > 0 {
        lemma_directs_keep_tail(s, dir, (n - 1) as nat);
        let p = put_directs(s, dir, (n - 1) as nat);
        assert(put_u32(p, 8 + 4 * (n - 1), dir[n - 1]).subrange(56, 64) =~= p.subrange(56, 64));
    }
}

proof fn lemma_zero_directs(n: nat)
    requires
        n <= 12,
    ensures
        put_directs(Seq::new(64, |i: int| 0u8), Seq::new(12, |i: int| 0u32), n) == Seq::new(64, |i: int| 0u8),
    decreases n,
{
    if n > 0 {
        lemma_zero_directs((n - 1) as nat);
        assert(put_u32(Seq::new(64, |i: int| 0u8), 8 + 4 * (n - 1), 0u32) =~= Seq::new(64, |i: int| 0u8));
    }
}

pub proof fn lemma_put_directs_len(s: Seq<u8>, dir: Seq<u32>, n: nat)
    requires
        s.len() == 64,
        n <= 12,
    ensures
        put_directs(s, dir, n).len() == 64,
    decreases n,
{
    if n > 0 {
        lemma_put_directs_len(s, dir, (n - 1) as nat);
    }
}

/// Loading back what `put_directs` stored: pointer `i < n` is `dir[i]`,
/// and bytes outside `8 .. 8 + 4n` are untouched.
pub proof fn lemma_put_directs_get(s: Seq<u8>, dir: Seq<u32>, n: nat)
    requires
        s.len() == 64,
        n <= 12,
    ensures
        forall|i: int| 0 <= i < n ==> #[trigger] get_u32(put_directs(s, dir, n), 8 + 4 * i) == dir[i],
        forall|j: int| 0 <= j < 64 && !(8 <= j < 8 + 4 * n) ==> #[trigger] put_directs(s, dir, n)[j] == s[j],
    decreases n,
{
    if n > 0 {
        let m = (n - 1) as nat;
        lemma_put_directs_get(s, dir, m);
        lemma_put_directs_len(s, dir, m);
        let p = put_directs(s, dir, m);
        lemma_get_put_u32(p, 8 + 4 * (m as int), dir[m as int]);
        assert forall|i: int| 0 <= i < n implies #[trigger] get_u32(put_directs(s, dir, n), 8 + 4 * i)
            == dir[i] by {
            if i < m {
                assert(get_u32(p, 8 + 4 * i) == dir[i]);
            }
        }
    }
}

/// Decoding the encoding of an inode gives it back.
pub proof fn lemma_inode_roundtrip(d: DiskInode)
    ensures
        encode_inode(d).len() == 64,
        decodes_inode(encode_inode(d), d),
{
    let z = Seq::new(64, |i: int| 0u8);
    let a = put_u16(z, 0, d.itype);
    let b = put_u16(a, 2, d.nlink);
    let c = put_u32(b, 4, d.size);
    lemma_get_put_u16(z, 0, d.itype);
    lemma_get_put_u16(a, 2, d.nlink);
    lemma_get_put_u32(b, 4, d.size);
    lemma_put_directs_get(c, d.direct@, 12);
    lemma_put_directs_len(c, d.direct@, 12);
}

impl DiskInode {
    /// An unused inode: type none, no links, size 0, no blocks.
    pub fn zeroed() -> (d: Self)
        ensures
            d.itype == INODE_NONE,
            d.nlink == 0,
            d.size == 0,
            d.direct@ == Seq::new(12, |i: int| 0u32),
    {
        let d = DiskInode { itype: INODE_NONE, nlink: 0, size: 0, direct: [0u32; NDIRECT] };
        assert(d.direct@ =~= Seq::new(12, |i: int| 0u32));
        d
    }

    /// The 64-byte on-disk encoding.
    pub fn to_bytes(&self) -> (buf: [u8; INODE_SIZE])
        ensures
            buf@ == encode_inode(*self),
    {
        let mut buf = [0u8; INODE_SIZE];
        let ghost z = buf@;
        assert(z =~= Seq::new(64, |i: int| 0u8));
        write_u16(&mut buf, 0, self.itype);
        write_u16(&mut buf, 2, self.nlink);
        write_u32(&mut buf, 4, self.size);
        let ghost c = buf@;
        let mut i: usize = 0;
        while i < NDIRECT
            invariant
                i <= 12,
                c.len() == 64,
                buf@ == put_directs(c, self.direct@, i as nat),
                c == put_u32(put_u16(put_u16(Seq::new(64, |i: int| 0u8), 0, self.itype), 2, self.nlink), 4, self.size),
            decreases 12 - i,
        {
            proof {
                lemma_put_directs_len(c, self.direct@, i as nat);
            }
            write_u32(&mut buf, 8 + i * 4, self.direct[i]);
            i = i + 1;
        }
        buf
    }

    /// Decodes a 64-byte on-disk inode.
    pub fn from_bytes(buf: &[u8; INODE_SIZE]) -> (d: Self)
        ensures
            decodes_inode(buf@, d),
    {
        let mut direct = [0u32; NDIRECT];
        let mut i: usize = 0;
        while i < NDIRECT
            invariant
                i <= 12,
                buf@.len() == 64,
                forall|j: int| 0 <= j < i ==> #[trigger] direct@[j] == get_u32(buf@, 8 + 4 * j),
            decreases 12 - i,
        {
            direct[i] = read_u32(buf, 8 + i * 4);
            i = i + 1;
        }
        DiskInode { itype: read_u16(buf, 0), nlink: read_u16(buf, 2), size: read_u32(buf, 4), direct }
    }
}

/// In-memory inode.
pub struct Inode {
    pub inum: u32,
    pub disk: DiskInode,
    pub valid: bool,
    pub ref_count: u32,
}

impl Inode {
    pub fn new(inum: u32) -> (i: Self)
        ensures
            i.inum == inum,
            i.disk.itype == INODE_NONE && i.disk.nlink == 0 && i.disk.size == 0,
            i.disk.direct@ == Seq::new(12, |k: int| 0u32),
            !i.valid,
            i.ref_count == 0,
    {
        Inode { inum, disk: DiskInode::zeroed(), valid: false, ref_count: 0 }
    }
}

/// Block that holds inode `inum`.
pub open spec fn inode_block(sb: Superblock, inum: u32) -> int {
    sb.inode_start + inum / 8
}

/// Byte offset of inode `inum` in its block.
pub open spec fn inode_offset(inum: u32) -> int {
    (inum % 8) * 64
}

/// The 64 bytes of inode `inum` as the cache and disk hold them.
pub open spec fn inode_bytes(c: Map<u32, CachedBlock>, d: Seq<Block>, sb: Superblock, inum: u32) -> Seq<u8> {
    content(c, d, inode_block(sb, inum) as u32)@.subrange(inode_offset(inum), inode_offset(inum) + 64)
}

/// Inode `inum` is unused: its type is none.
pub open spec fn inode_free(c: Map<u32, CachedBlock>, d: Seq<Block>, sb: Superblock, inum: u32) -> bool {
    get_u16(inode_bytes(c, d, sb, inum), 0) == INODE_NONE
}

/// A new inode of type `itype`: one link, size 0, no blocks.
pub open spec fn fresh_inode(d: DiskInode, itype: u16) -> bool {
    &&& d.itype == itype
    &&& d.nlink == 1
    &&& d.size == 0
    &&& d.direct@ == Seq::new(12, |i: int| 0u32)
}

/// Byte `pos` of a file: zero in a hole, else the byte of its data block.
pub open spec fn file_byte(c: Map<u32, CachedBlock>, d: Seq<Block>, di: DiskInode, pos: int) -> u8 {
    let b = di.direct@[pos / 512];
    if b == 0 {
        0
    } else {
        content(c, d, b)@[pos % 512]
    }
}

/// Number of bytes that `readi` reads: from `offset` up to the end of the
/// file, the end of the buffer or the end of the direct blocks.
pub open spec fn readi_len(di: DiskInode, offset: u32, len: nat) -> int {
    let end = if offset + len < di.size { offset + len } else { di.size as int };
    let lim: int = if end < 6144 { end } else { 6144int };
    if offset >= di.size || offset >= lim {
        0
    } else {
        lim - offset
    }
}

/// Reading only adds clean copies of disk blocks to the cache.
pub open spec fn cache_grows_clean(old: Map<u32, CachedBlock>, new: Map<u32, CachedBlock>, d: Seq<Block>) -> bool {
    &&& forall|k: u32| #[trigger] old.contains_key(k) ==> new.contains_key(k) && new[k] == old[k]
    &&& forall|k: u32|
        #[trigger] new.contains_key(k) && !old.contains_key(k) ==> new[k] == CachedBlock {
            data: d[k as int],
            dirty: false,
            pinned: false,
        }
}

/// The inode blocks of `sb` lie on the disk.
pub open spec fn inode_area_ok(sb: Superblock, disk: FileDisk) -> bool {
    &&& disk.wf()
    &&& sb.ninodes >= 1
    &&& sb.inode_start + (sb.ninodes - 1) / 8 < disk.nblocks
}

fn copy_out(data: &Block, off: usize) -> (buf: [u8; INODE_SIZE])
    requires
        off + 64 <= 512,
    ensures
        buf@ == data@.subrange(off as int, off + 64),
{
    let mut buf = [0u8; INODE_SIZE];
    let mut k: usize = 0;
    while k < INODE_SIZE
        invariant
            k <= 64,
            off + 64 <= 512,
            forall|j: int| 0 <= j < k ==> #[trigger] buf@[j] == data@[off + j],
        decreases 64 - k,
    {
        buf[k] = data[off + k];
        k = k + 1;
    }
    assert(buf@ =~= data@.subrange(off as int, off + 64));
    buf
}

fn copy_in(data: &mut Block, off: usize, bytes: &[u8; INODE_SIZE])
    requires
        off + 64 <= 512,
    ensures
        final(data)@ == put_bytes(old(data)@, off as int, bytes@),
{
    let mut k: usize = 0;
    while k < INODE_SIZE
        invariant
            k <= 64,
            off + 64 <= 512,
            data@.len() == 512,
            forall|j: int|
                0 <= j < 512 ==> #[trigger] data@[j] == (if off <= j < off + k {
                    bytes@[j - off]
                } else {
                    old(data)@[j]
                }),
        decreases 64 - k,
    {
        data[off + k] = bytes[k];
        k = k + 1;
    }
    assert(data@ =~= put_bytes(old(data)@, off as int, bytes@));
}

/// The non-zero direct blocks of `di` differ from each other.
pub open spec fn blocks_distinct(di: DiskInode) -> bool {
    forall|i: int, j: int|
        0 <= i < 12 && 0 <= j < 12 && i != j && #[trigger] di.direct@[i] != 0 ==> di.direct@[i] != #[trigger] di.direct@[j]
}

/// Every non-zero direct block of `di` lies in the data area of `sb` and is
/// marked in use in the data bitmap `bm`.
pub open spec fn blocks_marked(di: DiskInode, sb: Superblock, bm: Seq<u8>) -> bool {
    forall|i: int| 0 <= i < 12 && #[trigger] di.direct@[i] != 0 ==> {
        &&& sb.data_start <= di.direct@[i] < sb.nblocks
        &&& di.direct@[i] - sb.data_start < 4096
        &&& bit_set(bm, di.direct@[i] - sb.data_start)
    }
}

/// The data blocks of `di`.
pub open spec fn data_blocks(di: DiskInode) -> Set<u32> {
    Set::new(|b: u32| b != 0 && exists|i: int| 0 <= i < 12 && di.direct@[i] == b)
}

/// How many bytes a write of `len` bytes at `offset` covers: up to the end
/// of the direct blocks (12 blocks of 512 bytes).
pub open spec fn write_len(offset: int, len: int) -> int {
    if offset >= 6144 {
        0
    } else if len < 6144 - offset {
        len
    } else {
        6144 - offset
    }
}

/// Every bit of the data bitmap `bm` that stands for a data block of `sb`
/// is set: no data block is free.
pub open spec fn data_bitmap_full(bm: Seq<u8>, sb: Superblock) -> bool {
    let ndata = sb.nblocks - sb.data_start;
    let bits = if ndata < 4096 { ndata } else { 4096 };
    forall|j: int| 0 <= j < bits ==> #[trigger] bit_set(bm, j)
}

/// The state of a write: bytes `offset .. offset + done` hold `buf`, the
/// other bytes of the direct blocks are those of file `d0` in `c0`.
pub open spec fn written_so_far(
    c0: Map<u32, CachedBlock>,
    c: Map<u32, CachedBlock>,
    d: Seq<Block>,
    d0: DiskInode,
    di: DiskInode,
    buf: Seq<u8>,
    offset: int,
    done: int,
) -> bool {
    &&& forall|k: int| 0 <= k < done ==> #[trigger] file_byte(c, d, di, offset + k) == buf[k]
    &&& forall|pos: int| 0 <= pos < 6144 && !(offset <= pos < offset + done) ==> #[trigger] file_byte(c, d, di, pos)
        == file_byte(c0, d, d0, pos)
}

proof fn lemma_write_chunk(
    c0: Map<u32, CachedBlock>,
    ca: Map<u32, CachedBlock>,
    cb: Map<u32, CachedBlock>,
    cc: Map<u32, CachedBlock>,
    d: Seq<Block>,
    d0: DiskInode,
    da: DiskInode,
    db: DiskInode,
    sb: Superblock,
    buf: Seq<u8>,
    offset: int,
    done: int,
    chunk: int,
    data: Seq<u8>,
)
    requires
        0 <= offset,
        0 <= done,
        0 < chunk,
        done + chunk <= buf.len(),
        (offset + done) / 512 < 12,
        (offset + done) % 512 + chunk <= 512,
        sb.data_bitmap < sb.data_start,
        sb.nblocks <= d.len(),
        written_so_far(c0, ca, d, d0, da, buf, offset, done),
        blocks_distinct(da),
        blocks_marked(da, sb, content(ca, d, sb.data_bitmap)@),
        db.direct@.len() == 12,
        ({
            let bi = (offset + done) / 512;
            let b = db.direct@[bi];
            &&& b != 0
            &&& forall|i: int| 0 <= i < 12 && i != bi ==> #[trigger] db.direct@[i] == da.direct@[i]
            &&& da.direct@[bi] != 0 ==> db.direct@[bi] == da.direct@[bi] && cb == ca
            &&& da.direct@[bi] == 0 ==> {
                &&& sb.data_start <= b < sb.nblocks
                &&& b - sb.data_start < 4096
                &&& !bit_set(content(ca, d, sb.data_bitmap)@, b - sb.data_start)
                &&& content(cb, d, sb.data_bitmap)@ == with_bit(content(ca, d, sb.data_bitmap)@, b - sb.data_start)
                &&& content(cb, d, b)@ == Seq::new(512, |k: int| 0u8)
                &&& unchanged_except(ca, cb, d, set![sb.data_bitmap, b])
            }
            &&& data.len() == 512
            &&& forall|j: int| 0 <= j < 512 ==> #[trigger] data[j] == (if (offset + done) % 512 <= j < (offset + done) % 512 + chunk {
                buf[done + j - (offset + done) % 512]
            } else {
                content(cb, d, b)@[j]
            })
            &&& forall|k: u32| k != b ==> #[trigger] content(cc, d, k) == content(cb, d, k)
            &&& content(cc, d, b)@ == data
        }),
    ensures
        written_so_far(c0, cc, d, d0, db, buf, offset, done + chunk),
        blocks_distinct(db),
        blocks_marked(db, sb, content(cc, d, sb.data_bitmap)@),
{
    let bi = (offset + done) / 512;
    let bo = (offset + done) % 512;
    let b = db.direct@[bi];
    let bma = content(ca, d, sb.data_bitmap)@;
    broadcast use vstd::array::group_array_axioms;
    // Blocks other than the one written keep their bytes.
    assert forall|i: int| 0 <= i < 12 && i != bi && #[trigger] db.direct@[i] != 0 implies db.direct@[i] != b
        && content(cc, d, db.direct@[i]) == content(ca, d, da.direct@[i]) by {
        if da.direct@[bi] != 0 {
            assert(da.direct@[i] != da.direct@[bi]);
        } else {
            assert(bit_set(bma, da.direct@[i] - sb.data_start));
            assert(da.direct@[i] != sb.data_bitmap);
        }
    }
    assert forall|k: int| 0 <= k < done + chunk implies #[trigger] file_byte(cc, d, db, offset + k) == buf[k] by {
        let pos = offset + k;
        if k < done {
            assert(file_byte(ca, d, da, pos) == buf[k]);
            assert(pos / 512 <= bi);
            if pos / 512 == bi {
                assert(pos % 512 < bo);
                if da.direct@[bi] == 0 {
                    assert(content(cb, d, b)@[pos % 512] == 0u8);
                }
            }
        } else {
            assert(pos / 512 == bi);
            assert(pos % 512 == bo + (k - done));
        }
    }
    assert forall|pos: int| 0 <= pos < 6144 && !(offset <= pos < offset + done + chunk) implies #[trigger] file_byte(cc, d, db, pos)
        == file_byte(c0, d, d0, pos) by {
        assert(file_byte(ca, d, da, pos) == file_byte(c0, d, d0, pos));
        if pos / 512 == bi {
            assert(!(bo <= pos % 512 < bo + chunk));
            if da.direct@[bi] == 0 {
                assert(content(cb, d, b)@[pos % 512] == 0u8);
            }
        }
    }
    assert forall|i: int, j: int| 0 <= i < 12 && 0 <= j < 12 && i != j && #[trigger] db.direct@[i] != 0 implies db.direct@[i]
        != #[trigger] db.direct@[j] by {
        if i != bi && j != bi {
            assert(da.direct@[i] != da.direct@[j]);
        }
    }
    assert forall|i: int| 0 <= i < 12 && #[trigger] db.direct@[i] != 0 implies {
        &&& sb.data_start <= db.direct@[i] < sb.nblocks
        &&& db.direct@[i] - sb.data_start < 4096
        &&& bit_set(content(cc, d, sb.data_bitmap)@, db.direct@[i] - sb.data_start)
    } by {
        assert(b != sb.data_bitmap);
        if da.direct@[bi] == 0 {
            crate::jfs::bitmap::lemma_with_bit(bma, b - sb.data_start, db.direct@[i] - sb.data_start);
        }
    }
}

/// Storing the inode (block `ib`, outside the data blocks) keeps what the
/// file reads.
proof fn lemma_write_finish(
    c0: Map<u32, CachedBlock>,
    c1: Map<u32, CachedBlock>,
    c2: Map<u32, CachedBlock>,
    d: Seq<Block>,
    d0: DiskInode,
    d1: DiskInode,
    d2: DiskInode,
    buf: Seq<u8>,
    offset: int,
    n: int,
    ib: u32,
    sb: Superblock,
)
    requires
        written_so_far(c0, c1, d, d0, d1, buf, offset, n),
        n > 0 ==> 0 <= offset && offset + n <= 6144,
        d2.direct@ == d1.direct@,
        forall|k: u32| k != ib ==> #[trigger] content(c2, d, k) == content(c1, d, k),
        forall|i: int| 0 <= i < 12 && #[trigger] d1.direct@[i] != 0 ==> sb.data_start <= d1.direct@[i],
        ib < sb.data_start,
    ensures
        written_so_far(c0, c2, d, d0, d2, buf, offset, n),
{
    assert forall|pos: int| 0 <= pos < 6144 implies #[trigger] file_byte(c2, d, d2, pos) == file_byte(c1, d, d1, pos) by {
        let b = d1.direct@[pos / 512];
        if b != 0 {
            assert(content(c2, d, b) == content(c1, d, b));
        }
    }
    assert forall|k: int| 0 <= k < n implies #[trigger] file_byte(c2, d, d2, offset + k) == buf[k] by {
        assert(file_byte(c1, d, d1, offset + k) == buf[k]);
        let b = d1.direct@[(offset + k) / 512];
        if b != 0 {
            assert(content(c2, d, b) == content(c1, d, b));
        }
    }
}

/// A failed allocation changes no block: the file reads as before.
proof fn lemma_write_unchanged(
    c0: Map<u32, CachedBlock>,
    ca: Map<u32, CachedBlock>,
    cb: Map<u32, CachedBlock>,
    d: Seq<Block>,
    d0: DiskInode,
    da: DiskInode,
    buf: Seq<u8>,
    offset: int,
    n: int,
    sb: Superblock,
)
    requires
        written_so_far(c0, ca, d, d0, da, buf, offset, n),
        n > 0 ==> 0 <= offset && offset + n <= 6144,
        unchanged_except(ca, cb, d, Set::empty()),
        forall|i: int| 0 <= i < 12 && #[trigger] da.direct@[i] != 0 ==> da.direct@[i] < sb.nblocks,
        sb.nblocks <= d.len(),
    ensures
        written_so_far(c0, cb, d, d0, da, buf, offset, n),
        forall|k: u32| (ca.contains_key(k) || k < d.len()) ==> #[trigger] content(cb, d, k) == content(ca, d, k),
{
    assert forall|pos: int| 0 <= pos < 6144 implies #[trigger] file_byte(cb, d, da, pos) == file_byte(ca, d, da, pos) by {
        let b = da.direct@[pos / 512];
        if b != 0 {
            assert(content(cb, d, b) == content(ca, d, b));
        }
    }
    assert forall|k: int| 0 <= k < n implies #[trigger] file_byte(cb, d, da, offset + k) == buf[k] by {
        assert(file_byte(ca, d, da, offset + k) == buf[k]);
        let b = da.direct@[(offset + k) / 512];
        if b != 0 {
            assert(content(cb, d, b) == content(ca, d, b));
        }
    }
    assert forall|k: u32| (ca.contains_key(k) || k < d.len()) implies #[trigger] content(cb, d, k) == content(ca, d, k) by {
        assert(!Set::<u32>::empty().contains(k));
    }
}

/// Inode operations.
pub struct InodeOps;

impl InodeOps {
    /// Allocates the lowest unused inode from 1 on, as a new inode of type
    /// `itype`, and returns its number.
    pub fn ialloc(cache: &mut BlockCache, disk: &FileDisk, sb: &Superblock, itype: u16) -> (r: Option<u32>)
        requires
            inode_area_ok(*sb, *disk),
        ensures
            match r {
                Some(inum) => {
                    &&& 1 <= inum < sb.ninodes
                    &&& inode_free(old(cache)@, disk@, *sb, inum)
                    &&& forall|j: u32| 1 <= j < inum ==> !#[trigger] inode_free(old(cache)@, disk@, *sb, j)
                    &&& exists|fresh: DiskInode| fresh_inode(fresh, itype) && content(final(cache)@, disk@, inode_block(*sb, inum) as u32)@
                        == put_bytes(content(old(cache)@, disk@, inode_block(*sb, inum) as u32)@, inode_offset(inum), encode_inode(fresh))
                    &&& unchanged_except(old(cache)@, final(cache)@, disk@, set![inode_block(*sb, inum) as u32])
                },
                None => {
                    &&& forall|j: u32| 1 <= j < sb.ninodes ==> !#[trigger] inode_free(old(cache)@, disk@, *sb, j)
                    &&& unchanged_except(old(cache)@, final(cache)@, disk@, Set::empty())
                },
            },
    {
        let mut inum: u32 = 1;
        while inum < sb.ninodes
            invariant
                1 <= inum,
                inode_area_ok(*sb, *disk),
                forall|j: u32| 1 <= j < inum ==> !#[trigger] inode_free(old(cache)@, disk@, *sb, j),
                unchanged_except(old(cache)@, cache@, disk@, Set::empty()),
                cache@.dom().subset_of(old(cache)@.dom() + Set::new(|k: u32| k < disk.nblocks)),
                forall|k: u32| #[trigger] old(cache)@.contains_key(k) ==> cache@[k].pinned == old(cache)@[k].pinned,
            decreases sb.ninodes - inum,
        {
            let block_no = sb.inode_start + inum / INODES_PER_BLOCK;
            let offset = ((inum % INODES_PER_BLOCK) * 64) as usize;
            let ghost c0 = cache@;
            let data = cache.read_mut(disk, block_no);
            proof {
                assert(content(c0, disk@, block_no) == content(old(cache)@, disk@, block_no));
                assert(cache@.dom() =~= c0.dom().insert(block_no));
                assert forall|k: u32| !Set::<u32>::empty().contains(k) && (old(cache)@.contains_key(k) || k < disk@.len())
                    implies #[trigger] content(cache@, disk@, k) == content(old(cache)@, disk@, k) by {
                    assert(content(c0, disk@, k) == content(old(cache)@, disk@, k));
                }
            }
            let bytes = copy_out(&data, offset);
            let itype_now = read_u16(&bytes, 0);
            if itype_now == INODE_NONE {
                let mut dinode = DiskInode::zeroed();
                dinode.itype = itype;
                dinode.nlink = 1;
                dinode.size = 0;
                let enc = dinode.to_bytes();
                let mut new_data = data;
                copy_in(&mut new_data, offset, &enc);
                let ghost c2 = cache@;
                cache.write(disk, block_no, &new_data);
                proof {
                    assert(inode_bytes(old(cache)@, disk@, *sb, inum) == bytes@);
                    assert(fresh_inode(dinode, itype));
                    assert(content(cache@, disk@, block_no) == new_data);
                    assert forall|k: u32| !set![block_no].contains(k) && (old(cache)@.contains_key(k) || k < disk@.len())
                        implies #[trigger] content(cache@, disk@, k) == content(old(cache)@, disk@, k) by {
                        assert(content(cache@, disk@, k) == content(c2, disk@, k));
                    }
                }
                return Some(inum);
            }
            proof {
                assert(inode_bytes(old(cache)@, disk@, *sb, inum) == bytes@);
            }
            inum = inum + 1;
        }
        None
    }

    /// Reads inode `inum`.
    pub fn iget(cache: &mut BlockCache, disk: &FileDisk, sb: &Superblock, inum: u32) -> (d: DiskInode)
        requires
            0 < inum < sb.ninodes,
            inode_block(*sb, inum) <= u32::MAX,
            readable(old(cache)@, *disk, inode_block(*sb, inum) as u32),
        ensures
            decodes_inode(inode_bytes(old(cache)@, disk@, *sb, inum), d),
            crate::jfs::bitmap::cache_read(old(cache)@, final(cache)@, inode_block(*sb, inum) as u32, disk@),
    {
        let block_no = sb.inode_start + inum / INODES_PER_BLOCK;
        let offset = ((inum % INODES_PER_BLOCK) * 64) as usize;
        let data = cache.read(disk, block_no);
        let bytes = copy_out(&data, offset);
        DiskInode::from_bytes(&bytes)
    }

    /// Writes inode `inum` back through the cache.
    pub fn iupdate(cache: &mut BlockCache, disk: &FileDisk, sb: &Superblock, inum: u32, dinode: &DiskInode)
        requires
            inode_block(*sb, inum) <= u32::MAX,
            readable(old(cache)@, *disk, inode_block(*sb, inum) as u32),
        ensures
            cache_updated(
                old(cache)@,
                final(cache)@,
                inode_block(*sb, inum) as u32,
                put_bytes(content(old(cache)@, disk@, inode_block(*sb, inum) as u32)@, inode_offset(inum), encode_inode(*dinode)),
            ),
    {
        let block_no = sb.inode_start + inum / INODES_PER_BLOCK;
        let offset = ((inum % INODES_PER_BLOCK) * 64) as usize;
        let data = cache.read_mut(disk, block_no);
        let ghost c2 = cache@;
        let enc = dinode.to_bytes();
        let mut new_data = data;
        copy_in(&mut new_data, offset, &enc);
        cache.write(disk, block_no, &new_data);
        proof {
            lemma_cache_write_after_read_mut(old(cache)@, c2, cache@, block_no, data, new_data);
        }
    }

    /// Allocates the lowest free data block, zeroes it and returns its
    /// block number.
    pub fn balloc(cache: &mut BlockCache, disk: &FileDisk, sb: &Superblock) -> (r: Option<u32>)
        requires
            disk.wf(),
            sb.data_bitmap < sb.data_start <= sb.nblocks <= disk.nblocks,
            readable(old(cache)@, *disk, sb.data_bitmap),
        ensures
            ({
                let bm = content(old(cache)@, disk@, sb.data_bitmap)@;
                let ndata = sb.nblocks - sb.data_start;
                let bits = if ndata < 4096 { ndata } else { 4096 };
                match r {
                    Some(b) => {
                        let i = b - sb.data_start;
                        &&& sb.data_start <= b < sb.nblocks
                        &&& i < bits
                        &&& !bit_set(bm, i)
                        &&& forall|j: int| 0 <= j < i ==> #[trigger] bit_set(bm, j)
                        &&& content(final(cache)@, disk@, sb.data_bitmap)@ == with_bit(bm, i)
                        &&& content(final(cache)@, disk@, b)@ == Seq::new(512, |k: int| 0u8)
                        &&& unchanged_except(old(cache)@, final(cache)@, disk@, set![sb.data_bitmap, b])
                    },
                    None => {
                        &&& forall|j: int| 0 <= j < bits ==> #[trigger] bit_set(bm, j)
                        &&& unchanged_except(old(cache)@, final(cache)@, disk@, Set::empty())
                    },
                }
            }),
    {
        let ndata = sb.ndata_blocks();
        let ghost c0 = cache@;
        let r = Bitmap::allocate(cache, disk, sb.data_bitmap, ndata);
        let ghost c1 = cache@;
        proof {
            assert forall|k: u32| !Set::<u32>::empty().insert(sb.data_bitmap).contains(k) && (c0.contains_key(k) || k < disk@.len())
                implies #[trigger] content(c1, disk@, k) == content(c0, disk@, k) by {}
        }
        match r {
            None => {
                proof {
                    assert(content(c1, disk@, sb.data_bitmap) =~= content(c0, disk@, sb.data_bitmap));
                    assert forall|k: u32| !Set::<u32>::empty().contains(k) && (c0.contains_key(k) || k < disk@.len())
                        implies #[trigger] content(c1, disk@, k) == content(c0, disk@, k) by {
                        if k == sb.data_bitmap {
                            assert(content(c1, disk@, k)@ =~= content(c0, disk@, k)@);
                        }
                    }
                }
                None
            },
            Some(bnum) => {
                let block_no = sb.data_start + bnum;
                let _ = cache.read_mut(disk, block_no);
                let ghost c2 = cache@;
                let zero: Block = [0u8; BLOCK_SIZE];
                cache.write(disk, block_no, &zero);
                proof {
                    assert(zero@ =~= Seq::new(512, |k: int| 0u8));
                    assert(content(cache@, disk@, sb.data_bitmap) == content(c1, disk@, sb.data_bitmap));
                    assert forall|k: u32| !set![sb.data_bitmap, block_no].contains(k) && (c0.contains_key(k) || k < disk@.len())
                        implies #[trigger] content(cache@, disk@, k) == content(c0, disk@, k) by {
                        assert(content(cache@, disk@, k) == content(c2, disk@, k));
                        assert(content(c2, disk@, k) == content(c1, disk@, k));
                    }
                }
                Some(block_no)
            },
        }
    }

    /// Frees data block `block_no`.
    pub fn bfree(cache: &mut BlockCache, disk: &FileDisk, sb: &Superblock, block_no: u32)
        requires
            sb.data_start <= block_no,
            block_no - sb.data_start < 4096,
            readable(old(cache)@, *disk, sb.data_bitmap),
        ensures
            cache_updated(
                old(cache)@,
                final(cache)@,
                sb.data_bitmap,
                crate::jfs::bitmap::without_bit(content(old(cache)@, disk@, sb.data_bitmap)@, block_no - sb.data_start),
            ),
    {
        let bnum = block_no - sb.data_start;
        Bitmap::free(cache, disk, sb.data_bitmap, bnum);
    }

    /// Reads file bytes from `offset` into `buf` and returns how many it
    /// read: up to the end of the file, of the buffer or of the direct
    /// blocks; holes read as zeros.
    pub fn readi(cache: &mut BlockCache, disk: &FileDisk, dinode: &DiskInode, buf: &mut [u8], offset: u32) -> (n: usize)
        requires
            offset + old(buf)@.len() <= u32::MAX,
            forall|i: int| 0 <= i < 12 && #[trigger] dinode.direct@[i] != 0 ==> readable(old(cache)@, *disk, dinode.direct@[i]),
        ensures
            n == readi_len(*dinode, offset, old(buf)@.len()),
            final(buf)@.len() == old(buf)@.len(),
            forall|k: int| 0 <= k < n ==> #[trigger] final(buf)@[k] == file_byte(old(cache)@, disk@, *dinode, offset + k),
            forall|k: int| n <= k < old(buf)@.len() ==> #[trigger] final(buf)@[k] == old(buf)@[k],
            cache_grows_clean(old(cache)@, final(cache)@, disk@),
    {
        let size = dinode.size;
        if offset >= size {
            return 0;
        }
        let len = buf.len() as u32;
        let end = if offset + len < size { offset + len } else { size };
        let mut bytes_read: usize = 0;
        let mut off: u32 = offset;
        while off < end && ((off / 512) as usize) < NDIRECT
            invariant
                old(buf)@.len() <= usize::MAX,
                offset < size,
                size == dinode.size,
                end == (if offset + old(buf)@.len() < size { offset + old(buf)@.len() } else { size as int }),
                offset <= off,
                off <= end || (end <= off && off == offset),
                bytes_read == off - offset,
                off <= 6144 || off == offset,
                buf@.len() == old(buf)@.len(),
                end <= offset + buf@.len(),
                forall|i: int| 0 <= i < 12 && #[trigger] dinode.direct@[i] != 0 ==> readable(old(cache)@, *disk, dinode.direct@[i]),
                forall|k: int| 0 <= k < bytes_read ==> #[trigger] buf@[k] == file_byte(old(cache)@, disk@, *dinode, offset + k),
                forall|k: int| bytes_read <= k < buf@.len() ==> #[trigger] buf@[k] == old(buf)@[k],
                cache_grows_clean(old(cache)@, cache@, disk@),
            decreases end - off,
        {
            let block_idx = (off / 512) as usize;
            let block_off = (off % 512) as usize;
            let bytes_left = (end - off) as usize;
            let chunk = if bytes_left < BLOCK_SIZE - block_off { bytes_left } else { BLOCK_SIZE - block_off };
            let data_block = dinode.direct[block_idx];
            let ghost b0 = buf@;
            if data_block == 0 {
                let mut k: usize = 0;
                while k < chunk
                    invariant
                        k <= chunk,
                        bytes_read + chunk <= buf@.len(),
                        buf@.len() == b0.len(),
                        forall|j: int| 0 <= j < buf@.len() ==> #[trigger] buf@[j] == (if bytes_read <= j < bytes_read + k { 0u8 } else { b0[j] }),
                    decreases chunk - k,
                {
                    buf[bytes_read + k] = 0;
                    k = k + 1;
                }
            } else {
                let ghost cc = cache@;
                let data = cache.read(disk, data_block);
                proof {
                    assert(readable(old(cache)@, *disk, dinode.direct@[block_idx as int]));
                    assert(data == content(old(cache)@, disk@, data_block));
                }
                let mut k: usize = 0;
                while k < chunk
                    invariant
                        k <= chunk,
                        bytes_read + chunk <= buf@.len(),
                        buf@.len() <= usize::MAX,
                        block_off + chunk <= 512,
                        buf@.len() == b0.len(),
                        forall|j: int| 0 <= j < buf@.len() ==> #[trigger] buf@[j] == (if bytes_read <= j < bytes_read + k { data@[block_off + j - bytes_read] } else { b0[j] }),
                    decreases chunk - k,
                {
                    buf[bytes_read + k] = data[block_off + k];
                    k = k + 1;
                }
            }
            proof {
                assert forall|k: int| 0 <= k < bytes_read + chunk implies #[trigger] buf@[k] == file_byte(old(cache)@, disk@, *dinode, offset + k) by {
                    if k >= bytes_read {
                        assert((offset + k) / 512 == block_idx);
                        assert((offset + k) % 512 == block_off + k - bytes_read);
                    }
                }
            }
            bytes_read = bytes_read + chunk;
            off = off + chunk as u32;
        }
        proof {
            if off >= end {
                assert(off == end || off == offset);
            }
        }
        bytes_read
    }

    /// Writes `buf` at `offset` into the file of inode `inum`, allocating
    /// data blocks for holes, grows the size when the write ends past it,
    /// stores the inode and returns the number of bytes written. Writing
    /// stops at the end of the direct blocks or when no data block is free.
    /// The file's blocks are distinct and marked in use; afterwards the
    /// file reads `buf[..n]` at `offset` and its other bytes as before.
    #[verifier::rlimit(60)]
    pub fn writei(
        cache: &mut BlockCache,
        disk: &FileDisk,
        sb: &Superblock,
        dinode: &mut DiskInode,
        inum: u32,
        buf: &[u8],
        offset: u32,
    ) -> (n: usize)
        requires
            disk.wf(),
            sb.data_bitmap < sb.data_start <= sb.nblocks <= disk.nblocks,
            readable(old(cache)@, *disk, sb.data_bitmap),
            sb.data_bitmap < inode_block(*sb, inum) < sb.data_start,
            readable(old(cache)@, *disk, inode_block(*sb, inum) as u32),
            forall|i: int| 0 <= i < 12 && #[trigger] old(dinode).direct@[i] != 0 ==> readable(old(cache)@, *disk, old(dinode).direct@[i]),
            offset + buf@.len() <= u32::MAX,
            blocks_distinct(*old(dinode)),
            blocks_marked(*old(dinode), *sb, content(old(cache)@, disk@, sb.data_bitmap)@),
        ensures
            n <= buf@.len(),
            n > 0 ==> offset + n <= 6144,
            n == write_len(offset as int, buf@.len() as int) || (n < write_len(offset as int, buf@.len() as int)
                && final(dinode).direct@[(offset + n) / 512] == 0
                && data_bitmap_full(content(final(cache)@, disk@, sb.data_bitmap)@, *sb)),
            final(dinode).size == (if old(dinode).size < offset + n { (offset + n) as u32 } else { old(dinode).size }),
            final(dinode).itype == old(dinode).itype,
            final(dinode).nlink == old(dinode).nlink,
            forall|i: int| 0 <= i < 12 && #[trigger] old(dinode).direct@[i] != 0 ==> final(dinode).direct@[i] == old(dinode).direct@[i],
            forall|i: int| 0 <= i < 12 && old(dinode).direct@[i] == 0 && #[trigger] final(dinode).direct@[i] != 0
                ==> sb.data_start <= final(dinode).direct@[i] < sb.nblocks
                && !bit_set(content(old(cache)@, disk@, sb.data_bitmap)@, final(dinode).direct@[i] - sb.data_start),
            content(final(cache)@, disk@, inode_block(*sb, inum) as u32)@.subrange(inode_offset(inum), inode_offset(inum) + 64)
                == encode_inode(*final(dinode)),
            content(final(cache)@, disk@, inode_block(*sb, inum) as u32)@ == put_bytes(
                content(old(cache)@, disk@, inode_block(*sb, inum) as u32)@,
                inode_offset(inum),
                encode_inode(*final(dinode)),
            ),
            written_so_far(old(cache)@, final(cache)@, disk@, *old(dinode), *final(dinode), buf@, offset as int, n as int),
            blocks_distinct(*final(dinode)),
            blocks_marked(*final(dinode), *sb, content(final(cache)@, disk@, sb.data_bitmap)@),
            forall|k: u32| k != sb.data_bitmap && k != inode_block(*sb, inum) && !data_blocks(*final(dinode)).contains(k)
                && (old(cache)@.contains_key(k) || k < disk@.len()) ==> #[trigger] content(final(cache)@, disk@, k)
                == content(old(cache)@, disk@, k),
    {
        let ghost d0 = *dinode;
        let ghost c0 = cache@;
        let buf_len = buf.len();
        let mut bytes_written: usize = 0;
        let mut off: u32 = offset;
        let mut failed = false;
        proof {
            assert(written_so_far(c0, cache@, disk@, d0, *dinode, buf@, offset as int, 0));
        }
        while !failed && bytes_written < buf.len() && ((off / 512) as usize) < NDIRECT
            invariant
                disk.wf(),
                sb.data_bitmap < sb.data_start <= sb.nblocks <= disk.nblocks,
                sb.data_bitmap < inode_block(*sb, inum) < sb.data_start,
                offset + buf@.len() <= u32::MAX,
                bytes_written <= buf@.len(),
                bytes_written > 0 ==> offset + bytes_written <= 6144,
                off == offset + bytes_written,
                dinode.size == d0.size,
                dinode.itype == d0.itype,
                dinode.nlink == d0.nlink,
                forall|i: int| 0 <= i < 12 && #[trigger] d0.direct@[i] != 0 ==> dinode.direct@[i] == d0.direct@[i],
                forall|i: int| 0 <= i < 12 && d0.direct@[i] == 0 && #[trigger] dinode.direct@[i] != 0
                    ==> sb.data_start <= dinode.direct@[i] < sb.nblocks
                    && !bit_set(content(c0, disk@, sb.data_bitmap)@, dinode.direct@[i] - sb.data_start),
                forall|x: int| 0 <= x < 4096 && #[trigger] bit_set(content(c0, disk@, sb.data_bitmap)@, x)
                    ==> bit_set(content(cache@, disk@, sb.data_bitmap)@, x),
                forall|k: u32| #[trigger] old(cache)@.contains_key(k) ==> cache@.contains_key(k),
                readable(cache@, *disk, sb.data_bitmap),
                readable(cache@, *disk, inode_block(*sb, inum) as u32),
                forall|i: int| 0 <= i < 12 && #[trigger] dinode.direct@[i] != 0 ==> readable(cache@, *disk, dinode.direct@[i]),
                written_so_far(c0, cache@, disk@, d0, *dinode, buf@, offset as int, bytes_written as int),
                blocks_distinct(*dinode),
                blocks_marked(*dinode, *sb, content(cache@, disk@, sb.data_bitmap)@),
                forall|k: u32| k != sb.data_bitmap && !data_blocks(*dinode).contains(k) && (c0.contains_key(k) || k < disk@.len())
                    ==> #[trigger] content(cache@, disk@, k) == content(c0, disk@, k),
                c0 == old(cache)@,
                bytes_written <= write_len(offset as int, buf@.len() as int),
                offset < 6144 ==> off <= 6144,
                !failed && bytes_written < write_len(offset as int, buf@.len() as int) ==> off < 6144,
                failed ==> bytes_written < write_len(offset as int, buf@.len() as int) && off < 6144
                    && dinode.direct@[(off / 512) as int] == 0 && data_bitmap_full(content(cache@, disk@, sb.data_bitmap)@, *sb),
            decreases buf@.len() - bytes_written, if failed { 0int } else { 1int },
        {
            let block_idx = (off / 512) as usize;
            let block_off = (off % 512) as usize;
            let bytes_left = buf.len() - bytes_written;
            let chunk = if bytes_left < BLOCK_SIZE - block_off { bytes_left } else { BLOCK_SIZE - block_off };
            let ghost ca = cache@;
            let ghost da = *dinode;
            if dinode.direct[block_idx] == 0 {
                let ghost c_pre = cache@;
                match Self::balloc(cache, disk, sb) {
                    Some(b) => {
                        dinode.direct[block_idx] = b;
                    },
                    None => {
                        failed = true;
                    },
                }
                proof {
                    assert forall|i: int| 0 <= i < 12 && #[trigger] dinode.direct@[i] != 0 implies readable(cache@, *disk, dinode.direct@[i]) by {
                        if !(i == block_idx) {
                            assert(readable(c_pre, *disk, dinode.direct@[i]));
                        }
                    }
                }
            }
            if !failed {
                let ghost cb = cache@;
                let ghost db = *dinode;
                let data_block = dinode.direct[block_idx];
                assert(readable(cache@, *disk, dinode.direct@[block_idx as int]));
                let mut data = cache.read_mut(disk, data_block);
                let ghost data0 = data@;
                let mut k: usize = 0;
                while k < chunk
                    invariant
                        k <= chunk,
                        bytes_written + chunk <= buf@.len(),
                        buf@.len() <= usize::MAX,
                        block_off + chunk <= 512,
                        data@.len() == 512,
                        forall|j: int| 0 <= j < 512 ==> #[trigger] data@[j] == (if block_off <= j < block_off + k {
                            buf@[bytes_written + j - block_off]
                        } else {
                            data0[j]
                        }),
                    decreases chunk - k,
                {
                    data[block_off + k] = buf[bytes_written + k];
                    k = k + 1;
                }
                let ghost cm = cache@;
                cache.write(disk, data_block, &data);
                proof {
                    broadcast use vstd::array::group_array_axioms;
                    assert forall|kk: u32| kk != data_block implies #[trigger] content(cache@, disk@, kk) == content(cb, disk@, kk) by {}
                    if da.direct@[block_idx as int] != 0 {
                        assert(cb == ca);
                    }
                    lemma_write_chunk(c0, ca, cb, cache@, disk@, d0, da, db, *sb, buf@, offset as int,
                        bytes_written as int, chunk as int, data@);
                    let bm0 = content(c0, disk@, sb.data_bitmap)@;
                    let bma = content(ca, disk@, sb.data_bitmap)@;
                    assert(content(cache@, disk@, sb.data_bitmap) == content(cb, disk@, sb.data_bitmap));
                    if da.direct@[block_idx as int] == 0 {
                        let x0 = data_block - sb.data_start;
                        assert forall|x: int| 0 <= x < 4096 && #[trigger] bit_set(bm0, x)
                            implies bit_set(content(cache@, disk@, sb.data_bitmap)@, x) by {
                            assert(bit_set(bma, x));
                            crate::jfs::bitmap::lemma_with_bit(bma, x0, x);
                        }
                        if bit_set(bm0, x0) {
                            assert(bit_set(bma, x0));
                        }
                    }
                    assert forall|kk: u32| kk != sb.data_bitmap && !data_blocks(*dinode).contains(kk) && (c0.contains_key(kk) || kk < disk@.len())
                        implies #[trigger] content(cache@, disk@, kk) == content(c0, disk@, kk) by {
                        assert(kk != data_block);
                        if da.direct@[block_idx as int] == 0 {
                            assert(content(cb, disk@, kk) == content(ca, disk@, kk));
                        }
                        if data_blocks(da).contains(kk) {
                            let i = choose|i: int| 0 <= i < 12 && da.direct@[i] == kk;
                            assert(dinode.direct@[i] == kk);
                        }
                    }
                    assert(readable(cache@, *disk, sb.data_bitmap));
                }
                bytes_written = bytes_written + chunk;
                off = off + chunk as u32;
            } else {
                proof {
                    assert(*dinode == da);
                    lemma_write_unchanged(c0, ca, cache@, disk@, d0, da, buf@, offset as int, bytes_written as int, *sb);
                    assert(content(cache@, disk@, sb.data_bitmap) == content(ca, disk@, sb.data_bitmap));
                }
            }
        }
        let end = offset + bytes_written as u32;
        let new_size = if dinode.size < end { end } else { dinode.size };
        let ghost c_last = cache@;
        let ghost d_last = *dinode;
        dinode.size = new_size;
        Self::iupdate(cache, disk, sb, inum, dinode);
        proof {
            lemma_inode_roundtrip(*dinode);
            let c = content(cache@, disk@, inode_block(*sb, inum) as u32)@;
            assert(c.subrange(inode_offset(inum), inode_offset(inum) + 64) =~= encode_inode(*dinode));
            let ib = inode_block(*sb, inum) as u32;
            assert forall|kk: u32| kk != ib implies #[trigger] content(cache@, disk@, kk) == content(c_last, disk@, kk) by {}
            assert(dinode.direct@ == d_last.direct@);
            lemma_write_finish(c0, c_last, cache@, disk@, d0, d_last, *dinode, buf@, offset as int, bytes_written as int, ib, *sb);
            assert(!data_blocks(d_last).contains(ib));
            assert(content(c_last, disk@, ib) == content(c0, disk@, ib));
            assert(content(cache@, disk@, sb.data_bitmap) == content(c_last, disk@, sb.data_bitmap));
        }
        bytes_written
    }
}

/// A read gives back what a write wrote: after `writei` wrote `n` bytes
/// of `buf` at `offset` (leaving the inode `d1` in cache `c1`), a `readi`
/// of `len` bytes at `offset` reads at least `min(n, len)` bytes, and the
/// first of them are `buf`'s.
pub proof fn law_read_back_write(
    c0: Map<u32, CachedBlock>,
    c1: Map<u32, CachedBlock>,
    d: Seq<Block>,
    d0: DiskInode,
    d1: DiskInode,
    buf: Seq<u8>,
    offset: u32,
    n: int,
    len: nat,
)
    requires
        0 <= n <= buf.len(),
        n > 0 ==> offset + n <= 6144,
        d1.size == (if d0.size < offset + n { (offset + n) as u32 } else { d0.size }),
        written_so_far(c0, c1, d, d0, d1, buf, offset as int, n),
    ensures
        forall|k: int| 0 <= k < n && k < len ==> k < #[trigger] readi_len(d1, offset, len) && file_byte(c1, d, d1, offset + k)
            == buf[k],
{
    assert forall|k: int| 0 <= k < n && k < len implies k < #[trigger] readi_len(d1, offset, len) && file_byte(c1, d, d1, offset + k)
        == buf[k] by {
        assert(file_byte(c1, d, d1, offset + k) == buf[k]);
    }
}

} // verus!
