use vstd::prelude::*;
use vstd::utf8::{valid_utf8, encode_utf8};
use vstd::string::StringSliceAdditionalSpecFns;
use crate::jfs::block_cache::{BlockCache, CachedBlock, content, readable, unchanged_except};
use crate::jfs::codec::{get_u32, put_u32, put_bytes, read_u32, write_u32, lemma_get_put_u32};
use crate::jfs::disk::{Block, FileDisk, BLOCK_SIZE};
use crate::jfs::inode::{DiskInode, InodeOps, INODE_DIR, NDIRECT, decodes_inode, encode_inode, inode_bytes, inode_block, inode_offset, cache_grows_clean, lemma_inode_roundtrip};
use crate::jfs::bitmap::{bit_set, cache_updated};
use crate::jfs::superblock::Superblock;

verus! {

/// Length of a name in a directory entry.
pub const DIRSIZ: usize = 28;

/// Size of a directory entry: a 4-byte inode number, then the name.
pub const DIRENT_SIZE: usize = 32;

/// Directory entries per block.
pub const DIRENTS_PER_BLOCK: usize = 16;

/// Inode number of the root directory.
pub const ROOT_INUM: u32 = 1;

/// A directory entry. Inode number 0 marks a free slot.
#[derive(Debug, Clone, Copy)]
pub struct DirEntry {
    pub inum: u32,
    pub name: [u8; DIRSIZ],
}

/// The name field that holds the bytes `b`: cut to 28 bytes, padded with
/// zeros.
pub open spec fn name_field(b: Seq<u8>) -> Seq<u8> {
    Seq::new(28, |i: int| if i < b.len() { b[i] } else { 0u8 })
}

/// The 32-byte encoding of an entry: the inode number little-endian, then
/// the name.
pub open spec fn encode_dirent(e: DirEntry) -> Seq<u8> {
    put_bytes(put_u32(Seq::new(32, |i: int| 0u8), 0, e.inum), 4, e.name@)
}

/// `e` is the entry that the 32 bytes `b` decode to.
pub open spec fn decodes_dirent(b: Seq<u8>, e: DirEntry) -> bool {
    e.inum == get_u32(b, 0) && e.name@ == b.subrange(4, 32)
}

/// Where the name of an entry ends: at its first zero byte, else after 28
/// bytes.
pub open spec fn name_end(name: Seq<u8>) -> int
    decreases name.len(),
{
    if name.len() == 0 {
        0
    } else if name[0] == 0 {
        0
    } else {
        1 + name_end(name.subrange(1, name.len() as int))
    }
}

/// How many bytes of a looked-up name are compared: at most 28.
pub open spec fn match_len(name: Seq<u8>) -> int {
    if name.len() < 28 {
        name.len() as int
    } else {
        28
    }
}

/// The name field `field` matches the name `name`: the first
/// `match_len(name)` bytes agree, and the field ends there.
pub open spec fn name_matches(field: Seq<u8>, name: Seq<u8>) -> bool {
    let len = match_len(name);
    &&& field.subrange(0, len) == name.subrange(0, len)
    &&& (len == 28 || field[len] == 0)
}

pub proof fn lemma_name_end(name: Seq<u8>)
    ensures
        0 <= name_end(name) <= name.len(),
        name_end(name) < name.len() ==> name[name_end(name)] == 0,
        forall|i: int| 0 <= i < name_end(name) ==> name[i] != 0,
        forall|i: int| 0 <= i < name.len() && name[i] == 0 ==> name_end(name) <= i,
    decreases name.len(),
{
    if name.len() > 0 && name[0] != 0 {
        let rest = name.subrange(1, name.len() as int);
        lemma_name_end(rest);
        assert forall|i: int| 0 <= i < name_end(name) implies name[i] != 0 by {
            if i > 0 {
                assert(name[i] == rest[i - 1]);
            }
        }
        assert forall|i: int| 0 <= i < name.len() && name[i] == 0 implies name_end(name) <= i by {
            assert(rest[i - 1] == name[i]);
        }
    }
}

/// Decoding the encoding of an entry gives it back.
/// A name of at most 28 bytes, none of them zero, comes back whole from
/// the name field that stores it: the text the field shows is the name.
pub proof fn law_name_roundtrip(n: Seq<u8>)
    requires
        n.len() <= 28,
        forall|i: int| 0 <= i < n.len() ==> #[trigger] n[i] != 0,
    ensures
        name_field(n).subrange(0, name_end(name_field(n))) == n,
        valid_utf8(n) ==> field_text(name_field(n)) == n,
{
    let f = name_field(n);
    lemma_name_end(f);
    let e = name_end(f);
    if e < n.len() {
        assert(f[e] == n[e]);
    }
    if n.len() < 28 {
        assert(f[n.len() as int] == 0u8);
    }
    assert(e == n.len());
    assert(f.subrange(0, e) =~= n);
}

/// Decoding 32 bytes into an entry and encoding the entry gives the bytes
/// back.
pub proof fn law_dirent_bytes_roundtrip(b: Seq<u8>, e: DirEntry)
    requires
        b.len() == 32,
        decodes_dirent(b, e),
    ensures
        encode_dirent(e) == b,
{
    let z = Seq::new(32, |i: int| 0u8);
    let p = put_u32(z, 0, e.inum);
    let (b0, b1, b2, b3) = (b[0], b[1], b[2], b[3]);
    let x = e.inum;
    assert(x == (b0 + 256 * b1 + 65536 * b2 + 16777216 * b3) as u32);
    assert(x % 256 == b0 && (x / 256) % 256 == b1 && (x / 65536) % 256 == b2 && x / 16777216 == b3) by (bit_vector)
        requires
            x == (b0 + 256 * b1 + 65536 * b2 + 16777216 * b3) as u32,
    ;
    assert(encode_dirent(e) =~= b);
}

pub proof fn lemma_dirent_roundtrip(e: DirEntry)
    ensures
        encode_dirent(e).len() == 32,
        decodes_dirent(encode_dirent(e), e),
{
    let z = Seq::new(32, |i: int| 0u8);
    lemma_get_put_u32(z, 0, e.inum);
    let p = put_u32(z, 0, e.inum);
    assert(encode_dirent(e).subrange(4, 32) =~= e.name@);
    assert(encode_dirent(e).subrange(0, 4) =~= p.subrange(0, 4));
}

/// `std::str::from_utf8`: the text whose UTF-8 encoding is `bytes`, when
/// they are valid UTF-8; claimed: it succeeds exactly on valid UTF-8 and
/// then keeps the bytes.
#[verifier::external_body]
fn utf8_text(bytes: &[u8]) -> (r: Option<&str>)
    ensures
        r.is_some() <==> valid_utf8(bytes@),
        r.is_some() ==> r.unwrap().spec_bytes() == bytes@,
{
    std::str::from_utf8(bytes).ok()
}

impl DirEntry {
    /// A free slot: inode 0, empty name.
    pub fn empty() -> (e: Self)
        ensures
            e.inum == 0,
            e.name@ == Seq::new(28, |i: int| 0u8),
    {
        let e = DirEntry { inum: 0, name: [0u8; DIRSIZ] };
        assert(e.name@ =~= Seq::new(28, |i: int| 0u8));
        e
    }

    /// An entry for inode `inum` under `name`, cut to 28 bytes.
    pub fn new(inum: u32, name: &str) -> (e: Self)
        ensures
            e.inum == inum,
            e.name@ == name_field(name.spec_bytes()),
    {
        let mut entry = Self::empty();
        entry.inum = inum;
        let bytes = name.as_bytes();
        let len = if bytes.len() < DIRSIZ { bytes.len() } else { DIRSIZ };
        let mut k: usize = 0;
        while k < len
            invariant
                k <= len <= 28,
                len <= bytes@.len(),
                entry.inum == inum,
                forall|j: int| 0 <= j < 28 ==> #[trigger] entry.name@[j] == (if j < k { bytes@[j] } else { 0u8 }),
            decreases len - k,
        {
            entry.name[k] = bytes[k];
            k = k + 1;
        }
        assert(entry.name@ =~= name_field(name.spec_bytes()));
        entry
    }

    /// The name as text: the bytes before the first zero, or the empty
    /// text when they are not valid UTF-8.
    pub fn name_str(&self) -> (s: &str)
        ensures
            valid_utf8(self.name@.subrange(0, name_end(self.name@))) ==> s.spec_bytes() == self.name@.subrange(0, name_end(self.name@)),
            !valid_utf8(self.name@.subrange(0, name_end(self.name@))) ==> s.spec_bytes() == Seq::<u8>::empty(),
    {
        proof {
            lemma_name_end(self.name@);
        }
        let mut end: usize = 0;
        while end < DIRSIZ && self.name[end] != 0
            invariant
                end <= 28,
                forall|i: int| 0 <= i < end ==> self.name@[i] != 0,
                end <= name_end(self.name@),
            decreases 28 - end,
        {
            proof {
                lemma_name_end(self.name@);
            }
            end = end + 1;
        }
        let slice = self.name.as_slice();
        match utf8_text(&slice[0..end]) {
            Some(s) => s,
            None => {
                let e = "";
                proof {
                    reveal_strlit("");
                }
                e
            },
        }
    }

    /// The 32-byte on-disk encoding.
    pub fn to_bytes(&self) -> (buf: [u8; DIRENT_SIZE])
        ensures
            buf@ == encode_dirent(*self),
    {
        let mut buf = [0u8; DIRENT_SIZE];
        assert(buf@ =~= Seq::new(32, |i: int| 0u8));
        write_u32(&mut buf, 0, self.inum);
        let ghost p = buf@;
        let mut k: usize = 0;
        while k < DIRSIZ
            invariant
                k <= 28,
                p.len() == 32,
                buf@.len() == 32,
                forall|j: int| 0 <= j < 32 ==> #[trigger] buf@[j] == (if 4 <= j < 4 + k { self.name@[j - 4] } else { p[j] }),
            decreases 28 - k,
        {
            buf[4 + k] = self.name[k];
            k = k + 1;
        }
        assert(buf@ =~= put_bytes(p, 4, self.name@));
        buf
    }

    /// Decodes a 32-byte on-disk entry.
    pub fn from_bytes(buf: &[u8; DIRENT_SIZE]) -> (e: Self)
        ensures
            decodes_dirent(buf@, e),
    {
        let mut name = [0u8; DIRSIZ];
        let mut k: usize = 0;
        while k < DIRSIZ
            invariant
                k <= 28,
                buf@.len() == 32,
                forall|j: int| 0 <= j < k ==> #[trigger] name@[j] == buf@[4 + j],
            decreases 28 - k,
        {
            name[k] = buf[4 + k];
            k = k + 1;
        }
        assert(name@ =~= buf@.subrange(4, 32));
        DirEntry { inum: read_u32(buf, 0), name }
    }
}

/// The 32 bytes of slot `k` of directory `di`: entry `k % 16` of its data
/// block `k / 16`.
pub open spec fn slot_bytes(c: Map<u32, CachedBlock>, d: Seq<Block>, di: DiskInode, k: int) -> Seq<u8> {
    content(c, d, di.direct@[k / 16])@.subrange((k % 16) * 32, (k % 16) * 32 + 32)
}

/// Slot `k` holds an entry: its block is allocated and its inode number
/// is not 0.
pub open spec fn slot_live(c: Map<u32, CachedBlock>, d: Seq<Block>, di: DiskInode, k: int) -> bool {
    di.direct@[k / 16] != 0 && get_u32(slot_bytes(c, d, di, k), 0) != 0
}

/// Slot `k` holds an entry whose name matches `name`.
pub open spec fn slot_named(c: Map<u32, CachedBlock>, d: Seq<Block>, di: DiskInode, k: int, name: Seq<u8>) -> bool {
    slot_live(c, d, di, k) && name_matches(slot_bytes(c, d, di, k).subrange(4, 32), name)
}

/// The first slot in `k .. n` whose entry matches `name`.
pub open spec fn dir_find(c: Map<u32, CachedBlock>, d: Seq<Block>, di: DiskInode, name: Seq<u8>, k: int, n: int) -> Option<int>
    decreases n - k,
{
    if k >= n {
        None
    } else if slot_named(c, d, di, k, name) {
        Some(k)
    } else {
        dir_find(c, d, di, name, k + 1, n)
    }
}

/// The inode number that `name` has in directory `di`: the entry of the
/// first matching slot in the blocks that its size covers; none when `di`
/// is not a directory.
pub open spec fn dir_lookup(c: Map<u32, CachedBlock>, d: Seq<Block>, di: DiskInode, name: Seq<u8>) -> Option<u32> {
    if di.itype != INODE_DIR {
        None
    } else {
        match dir_find(c, d, di, name, 0, (di.size / 512) * 16) {
            Some(k) => Some(get_u32(slot_bytes(c, d, di, k), 0)),
            None => None,
        }
    }
}

/// The data blocks of `di` can be read.
pub open spec fn dir_blocks_readable(c: Map<u32, CachedBlock>, disk: FileDisk, di: DiskInode) -> bool {
    forall|i: int| 0 <= i < 12 && #[trigger] di.direct@[i] != 0 ==> readable(c, disk, di.direct@[i])
}

/// Inode `inum` can be read, and if it is a directory, its size lies
/// within the direct blocks and its blocks can be read.
pub open spec fn dir_inode_ok(c: Map<u32, CachedBlock>, disk: FileDisk, sb: Superblock, inum: u32) -> bool {
    &&& 0 < inum < sb.ninodes
    &&& inode_block(sb, inum) <= u32::MAX
    &&& readable(c, disk, inode_block(sb, inum) as u32)
    &&& forall|di: DiskInode| #[trigger] decodes_inode(inode_bytes(c, disk@, sb, inum), di) && di.itype == INODE_DIR
        ==> di.size / 512 <= 12 && dir_blocks_readable(c, disk, di)
}

/// Slots with no match can be skipped.
pub proof fn lemma_find_skip(c: Map<u32, CachedBlock>, d: Seq<Block>, di: DiskInode, name: Seq<u8>, k: int, m: int, n: int)
    requires
        k <= m,
        forall|j: int| k <= j < m ==> !#[trigger] slot_named(c, d, di, j, name),
    ensures
        dir_find(c, d, di, name, k, n) == dir_find(c, d, di, name, m, n),
    decreases m - k,
{
    if k < m {
        lemma_find_skip(c, d, di, name, k + 1, m, n);
    }
}

/// A block with no allocated data has no live slots.
pub proof fn lemma_live_skip(c: Map<u32, CachedBlock>, d: Seq<Block>, di: DiskInode, k: int, m: int)
    requires
        k <= m,
        m % 16 == 0,
        m - 16 <= k,
        0 <= k,
        di.direct@[(m - 16) / 16] == 0,
    ensures
        live_slots(c, d, di, k) == live_slots(c, d, di, m),
    decreases m - k,
{
    if k < m {
        assert(k / 16 == (m - 16) / 16);
        lemma_live_skip(c, d, di, k + 1, m);
    }
}

pub proof fn lemma_live_congruent(c: Map<u32, CachedBlock>, d: Seq<Block>, di1: DiskInode, di2: DiskInode, k: int)
    requires
        di1.direct@ == di2.direct@,
    ensures
        live_slots(c, d, di1, k) == live_slots(c, d, di2, k),
    decreases 192 - k,
{
    if k < 192 {
        assert(slot_bytes(c, d, di1, k) == slot_bytes(c, d, di2, k));
        lemma_live_congruent(c, d, di1, di2, k + 1);
    }
}

/// What the search finds lies in range and matches.
/// No slot from `k` to `n` matches when the search finds none.
pub proof fn lemma_find_none(c: Map<u32, CachedBlock>, d: Seq<Block>, di: DiskInode, name: Seq<u8>, k: int, n: int)
    requires
        dir_find(c, d, di, name, k, n) is None,
    ensures
        forall|j: int| k <= j < n ==> !#[trigger] slot_named(c, d, di, j, name),
    decreases n - k,
{
    if k < n {
        lemma_find_none(c, d, di, name, k + 1, n);
    }
}

pub proof fn lemma_find_found(c: Map<u32, CachedBlock>, d: Seq<Block>, di: DiskInode, name: Seq<u8>, k: int, n: int)
    ensures
        match dir_find(c, d, di, name, k, n) {
            Some(j) => k <= j < n && slot_named(c, d, di, j, name),
            None => true,
        },
    decreases n - k,
{
    if k < n {
        lemma_find_found(c, d, di, name, k + 1, n);
    }
}

/// A search that finds a match keeps finding it when it looks further.
pub proof fn lemma_find_extend(c: Map<u32, CachedBlock>, d: Seq<Block>, di: DiskInode, name: Seq<u8>, k: int, n: int, m: int)
    requires
        k <= n <= m,
        dir_find(c, d, di, name, k, n) is Some,
    ensures
        dir_find(c, d, di, name, k, m) == dir_find(c, d, di, name, k, n),
    decreases n - k,
{
    if k < n && !slot_named(c, d, di, k, name) {
        lemma_find_extend(c, d, di, name, k + 1, n, m);
    }
}

/// The search depends only on block contents and the block pointers.
pub proof fn lemma_find_congruent(
    c1: Map<u32, CachedBlock>,
    c2: Map<u32, CachedBlock>,
    d: Seq<Block>,
    di1: DiskInode,
    di2: DiskInode,
    name: Seq<u8>,
    k: int,
    n: int,
)
    requires
        forall|b: u32| #[trigger] content(c1, d, b) == content(c2, d, b),
        di1.direct@ == di2.direct@,
    ensures
        dir_find(c1, d, di1, name, k, n) == dir_find(c2, d, di2, name, k, n),
    decreases n - k,
{
    if k < n {
        assert(slot_bytes(c1, d, di1, k) == slot_bytes(c2, d, di2, k));
        lemma_find_congruent(c1, c2, d, di1, di2, name, k + 1, n);
    }
}

/// The search depends only on the contents of the directory's own blocks.
pub proof fn lemma_find_own_blocks(
    c1: Map<u32, CachedBlock>,
    c2: Map<u32, CachedBlock>,
    d: Seq<Block>,
    di: DiskInode,
    name: Seq<u8>,
    k: int,
    n: int,
)
    requires
        forall|i: int| 0 <= i < 12 && #[trigger] di.direct@[i] != 0 ==> content(c1, d, di.direct@[i]) == content(c2, d, di.direct@[i]),
        0 <= k,
        n <= 192,
    ensures
        dir_find(c1, d, di, name, k, n) == dir_find(c2, d, di, name, k, n),
        match dir_find(c1, d, di, name, k, n) {
            Some(j) => slot_bytes(c1, d, di, j) == slot_bytes(c2, d, di, j),
            None => true,
        },
    decreases n - k,
{
    if k < n {
        if di.direct@[k / 16] != 0 {
            assert(content(c1, d, di.direct@[k / 16]) == content(c2, d, di.direct@[k / 16]));
            assert(slot_bytes(c1, d, di, k) == slot_bytes(c2, d, di, k));
        }
        lemma_find_own_blocks(c1, c2, d, di, name, k + 1, n);
    }
}

/// A cache that only gained clean copies of disk blocks shows the same
/// content.
pub proof fn lemma_grows_clean_content(a: Map<u32, CachedBlock>, b: Map<u32, CachedBlock>, d: Seq<Block>)
    requires
        cache_grows_clean(a, b, d),
    ensures
        forall|k: u32| #[trigger] content(b, d, k) == content(a, d, k),
{
    assert forall|k: u32| #[trigger] content(b, d, k) == content(a, d, k) by {
        if b.contains_key(k) && !a.contains_key(k) {
        }
    }
}

pub proof fn lemma_grows_clean_trans(a: Map<u32, CachedBlock>, b: Map<u32, CachedBlock>, c: Map<u32, CachedBlock>, d: Seq<Block>)
    requires
        cache_grows_clean(a, b, d),
        cache_grows_clean(b, c, d),
    ensures
        cache_grows_clean(a, c, d),
{
    assert forall|k: u32| #[trigger] c.contains_key(k) && !a.contains_key(k) implies c[k] == (CachedBlock {
        data: d[k as int],
        dirty: false,
        pinned: false,
    }) by {
        if b.contains_key(k) {
            assert(b[k] == c[k]);
        }
    }
}

/// Copies the entry stored at `off` in a block.
fn read_dirent(data: &Block, off: usize) -> (e: DirEntry)
    requires
        off + 32 <= 512,
    ensures
        decodes_dirent(data@.subrange(off as int, off + 32), e),
{
    let mut buf = [0u8; DIRENT_SIZE];
    let mut k: usize = 0;
    while k < DIRENT_SIZE
        invariant
            k <= 32,
            off + 32 <= 512,
            forall|j: int| 0 <= j < k ==> #[trigger] buf@[j] == data@[off + j],
        decreases 32 - k,
    {
        buf[k] = data[off + k];
        k = k + 1;
    }
    assert(buf@ =~= data@.subrange(off as int, off + 32));
    DirEntry::from_bytes(&buf)
}

/// Whether the name field `field` matches `name` (see `name_matches`).
fn field_matches(field: &[u8; DIRSIZ], name: &[u8]) -> (b: bool)
    ensures
        b == name_matches(field@, name@),
{
    let len = if name.len() < DIRSIZ { name.len() } else { DIRSIZ };
    let mut k: usize = 0;
    while k < len
        invariant
            k <= len,
            len == match_len(name@),
            forall|j: int| 0 <= j < k ==> field@[j] == name@[j],
        decreases len - k,
    {
        if field[k] != name[k] {
            assert(field@.subrange(0, len as int)[k as int] != name@.subrange(0, len as int)[k as int]);
            return false;
        }
        k = k + 1;
    }
    assert(field@.subrange(0, len as int) =~= name@.subrange(0, len as int));
    len == DIRSIZ || field[len] == 0
}

pub proof fn lemma_slot_index(b: int, i: int)
    requires
        0 <= b,
        0 <= i < 16,
    ensures
        (b * 16 + i) / 16 == b,
        (b * 16 + i) % 16 == i,
{
    assert((b * 16 + i) / 16 == b) by (nonlinear_arith)
        requires
            0 <= b,
            0 <= i < 16,
    ;
    assert((b * 16 + i) % 16 == i) by (nonlinear_arith)
        requires
            0 <= b,
            0 <= i < 16,
    ;
}

/// Why a directory operation was refused.
#[derive(Debug, Clone, Copy, PartialEq, Eq, Structural)]
pub enum DirError {
    /// The name is already in the directory.
    AlreadyExists,
    /// The inode is not a directory.
    NotADirectory,
    /// A directory block was needed and none is free.
    NoFreeBlocks,
    /// All slots of all direct blocks are in use.
    DirectoryFull,
    /// The name is not in the directory.
    NotFound,
}

/// The text of a directory error in operation `op` on the entry `name`.
pub open spec fn dir_error_text(e: DirError, op: Seq<char>, name: Seq<char>) -> Seq<char> {
    match e {
        DirError::AlreadyExists => op + ": "@ + name + " already exists"@,
        DirError::NotADirectory => op + ": not a directory"@,
        DirError::NoFreeBlocks => op + ": no free blocks"@,
        DirError::DirectoryFull => op + ": directory full"@,
        DirError::NotFound => op + ": "@ + name + " not found"@,
    }
}

impl DirError {
    /// The message for this error in operation `op` (`link` or `unlink`)
    /// on the entry `name`, such as "link: a already exists".
    pub fn message(&self, op: &str, name: &str) -> (s: String)
        ensures
            s@ == dir_error_text(*self, op@, name@),
    {
        let s = String::from_str(op);
        match self {
            DirError::AlreadyExists => s.concat(": ").concat(name).concat(" already exists"),
            DirError::NotADirectory => s.concat(": not a directory"),
            DirError::NoFreeBlocks => s.concat(": no free blocks"),
            DirError::DirectoryFull => s.concat(": directory full"),
            DirError::NotFound => s.concat(": ").concat(name).concat(" not found"),
        }
    }
}

/// The 32 bytes of a new entry for inode `inum` under the name `name`.
pub open spec fn new_dirent_bytes(inum: u32, name: Seq<u8>) -> Seq<u8> {
    put_bytes(put_u32(Seq::new(32, |i: int| 0u8), 0, inum), 4, name_field(name))
}

/// Where `link` puts a new entry, searching from slot `k`: the first free
/// slot of an allocated block, or the first slot of the first unallocated
/// block, whichever comes first; none when all 12 blocks are full.
pub open spec fn link_slot(c: Map<u32, CachedBlock>, d: Seq<Block>, di: DiskInode, k: int) -> Option<int>
    decreases 192 - k,
{
    if k >= 192 {
        None
    } else if di.direct@[k / 16] == 0 || get_u32(slot_bytes(c, d, di, k), 0) == 0 {
        Some(k)
    } else {
        link_slot(c, d, di, k + 1)
    }
}

/// The block size of a directory after a new block at index `b`.
pub open spec fn grown_size(b: int) -> u32 {
    ((b + 1) * 512) as u32
}

/// The layout that the directory code relies on: the inode blocks lie
/// before the data blocks, all on the disk.
pub open spec fn sb_ok(sb: Superblock, disk: FileDisk) -> bool {
    &&& disk.wf()
    &&& sb.ninodes >= 1
    &&& sb.data_bitmap < sb.inode_start
    &&& sb.inode_start + (sb.ninodes - 1) / 8 < sb.data_start <= sb.nblocks <= disk.nblocks
}

pub proof fn lemma_link_slot_congruent(
    c1: Map<u32, CachedBlock>,
    c2: Map<u32, CachedBlock>,
    d: Seq<Block>,
    di1: DiskInode,
    di2: DiskInode,
    k: int,
)
    requires
        forall|b: u32| #[trigger] content(c1, d, b) == content(c2, d, b),
        di1.direct@ == di2.direct@,
    ensures
        link_slot(c1, d, di1, k) == link_slot(c2, d, di2, k),
    decreases 192 - k,
{
    if k < 192 {
        assert(slot_bytes(c1, d, di1, k) == slot_bytes(c2, d, di2, k));
        lemma_link_slot_congruent(c1, c2, d, di1, di2, k + 1);
    }
}

/// The slot that `link_slot` picks from `k` on lies between `k` and the
/// last slot.
pub proof fn lemma_link_slot_range(c: Map<u32, CachedBlock>, d: Seq<Block>, di: DiskInode, k: int)
    ensures
        link_slot(c, d, di, k) matches Some(j) ==> k <= j < 192,
    decreases 192 - k,
{
    if k < 192 {
        lemma_link_slot_range(c, d, di, k + 1);
    }
}

/// What `link` leaves when the name was absent from directory `di` (inode
/// `inum`): the new entry in the slot that `link_slot` picks; in a new
/// block, the lowest free data block, with the directory grown to cover
/// it; the errors when no block or slot is left.
pub open spec fn link_effect(
    c: Map<u32, CachedBlock>,
    c2: Map<u32, CachedBlock>,
    d: Seq<Block>,
    sb: Superblock,
    inum: u32,
    di: DiskInode,
    entry: Seq<u8>,
    r: Result<(), DirError>,
) -> bool {
    match link_slot(c, d, di, 0) {
        None => r == Err::<(), DirError>(DirError::DirectoryFull),
        Some(k) => {
            let b = di.direct@[k / 16];
            if b != 0 {
                &&& r == Ok::<(), DirError>(())
                &&& content(c2, d, b)@ == put_bytes(content(c, d, b)@, (k % 16) * 32, entry)
                &&& unchanged_except(c, c2, d, set![b])
            } else {
                let bm = content(c, d, sb.data_bitmap)@;
                let ndata = sb.nblocks - sb.data_start;
                let bits = if ndata < 4096 { ndata } else { 4096 };
                if forall|j: int| 0 <= j < bits ==> #[trigger] bit_set(bm, j) {
                    r == Err::<(), DirError>(DirError::NoFreeBlocks)
                } else {
                    &&& r == Ok::<(), DirError>(())
                    &&& exists|nb: u32|
                        #![trigger content(c2, d, nb)]
                        {
                            &&& sb.data_start <= nb < sb.nblocks
                            &&& !bit_set(bm, nb - sb.data_start)
                            &&& forall|j: int| 0 <= j < nb - sb.data_start ==> #[trigger] bit_set(bm, j)
                            &&& content(c2, d, nb)@ == put_bytes(Seq::new(512, |i: int| 0u8), 0, entry)
                            &&& forall|di2: DiskInode| #[trigger] decodes_inode(inode_bytes(c2, d, sb, inum), di2)
                                ==> {
                                &&& di2.direct@ == di.direct@.update(k / 16, nb)
                                &&& di2.size == grown_size(k / 16)
                                &&& di2.itype == di.itype
                                &&& di2.nlink == di.nlink
                            }
                            &&& unchanged_except(c, c2, d, set![nb, sb.data_bitmap, inode_block(sb, inum) as u32])
                            &&& forall|j: u32| j != inum && j < sb.ninodes ==> #[trigger] inode_bytes(c2, d, sb, j) == inode_bytes(c, d, sb, j)
                        }
                }
            }
        },
    }
}

/// The data blocks of inode `cd` lie in the data area, within the reach of
/// the data bitmap.
pub open spec fn inode_blocks_ok(cd: DiskInode, sb: Superblock) -> bool {
    forall|i: int| 0 <= i < 12 && #[trigger] cd.direct@[i] != 0
        ==> sb.data_start <= cd.direct@[i] < sb.nblocks && cd.direct@[i] - sb.data_start < 4096
}

/// Every live entry of directory `di` names an inode in range whose data
/// blocks lie in the data area.
pub open spec fn dir_entries_ok(c: Map<u32, CachedBlock>, d: Seq<Block>, sb: Superblock, di: DiskInode) -> bool {
    forall|k: int| 0 <= k < 192 && #[trigger] slot_live(c, d, di, k) ==> {
        let ci = get_u32(slot_bytes(c, d, di, k), 0);
        &&& 0 < ci < sb.ninodes
        &&& forall|cd: DiskInode| #[trigger] decodes_inode(inode_bytes(c, d, sb, ci), cd) ==> inode_blocks_ok(cd, sb)
    }
}

/// `bm` with the bits of the non-zero blocks among `blocks[0..n]` cleared
/// (block `b` has bit `b - base`).
pub open spec fn clear_bits(bm: Seq<u8>, blocks: Seq<u32>, base: u32, n: int) -> Seq<u8>
    decreases n,
{
    if n <= 0 {
        bm
    } else {
        let prev = clear_bits(bm, blocks, base, n - 1);
        if blocks[n - 1] != 0 {
            crate::jfs::bitmap::without_bit(prev, blocks[n - 1] - base)
        } else {
            prev
        }
    }
}

/// What dropping one link of inode `cd` leaves: `cd2` is `cd` with one
/// link less, or, when that was the last link, an unused inode whose
/// blocks were freed from `bm` giving `bm2`.
pub open spec fn link_dropped(cd: DiskInode, cd2: DiskInode, bm: Seq<u8>, bm2: Seq<u8>, base: u32) -> bool {
    if cd.nlink <= 1 {
        &&& cd2.itype == 0
        &&& cd2.nlink == 0
        &&& cd2.size == 0
        &&& cd2.direct@ == Seq::new(12, |i: int| 0u32)
        &&& bm2 == clear_bits(bm, cd.direct@, base, 12)
    } else {
        &&& cd2.itype == cd.itype
        &&& cd2.nlink == cd.nlink - 1
        &&& cd2.size == cd.size
        &&& cd2.direct@ == cd.direct@
        &&& bm2 == bm
    }
}

/// The live slots of directory `di` from slot `k` on, in order.
pub open spec fn live_slots(c: Map<u32, CachedBlock>, d: Seq<Block>, di: DiskInode, k: int) -> Seq<int>
    decreases 192 - k,
{
    if k >= 192 {
        Seq::empty()
    } else if slot_live(c, d, di, k) {
        seq![k] + live_slots(c, d, di, k + 1)
    } else {
        live_slots(c, d, di, k + 1)
    }
}

/// The UTF-8 bytes of the text that a name field shows: the bytes before
/// its first zero, or nothing when they are not valid UTF-8.
pub open spec fn field_text(field: Seq<u8>) -> Seq<u8> {
    let t = field.subrange(0, name_end(field));
    if valid_utf8(t) {
        t
    } else {
        Seq::empty()
    }
}

/// The first block of a new root directory: entries "." and "..", both
/// for the root, in an otherwise zeroed block.
pub open spec fn root_block() -> Seq<u8> {
    put_bytes(
        put_bytes(Seq::new(512, |i: int| 0u8), 0, new_dirent_bytes(ROOT_INUM, seq![46u8])),
        32,
        new_dirent_bytes(ROOT_INUM, seq![46u8, 46u8]),
    )
}

/// The slots of the first root block: "." and ".." name the root, the
/// other fourteen are empty.
pub proof fn lemma_root_block_slots()
    ensures
        root_block().len() == 512,
        forall|k: int| 0 <= k < 16 ==> #[trigger] get_u32(root_block().subrange(k * 32, k * 32 + 32), 0)
            == if k < 2 { ROOT_INUM } else { 0u32 },
{
    let z32 = Seq::new(32, |i: int| 0u8);
    let e0 = new_dirent_bytes(ROOT_INUM, seq![46u8]);
    let e1 = new_dirent_bytes(ROOT_INUM, seq![46u8, 46u8]);
    let p = put_u32(z32, 0, ROOT_INUM);
    lemma_get_put_u32(z32, 0, ROOT_INUM);
    assert(e0.len() == 32);
    assert(e1.len() == 32);
    assert(e0.subrange(0, 4) =~= p.subrange(0, 4));
    assert(e1.subrange(0, 4) =~= p.subrange(0, 4));
    assert(get_u32(e0, 0) == get_u32(p, 0));
    assert(get_u32(e1, 0) == get_u32(p, 0));
    let r0 = put_bytes(Seq::new(512, |i: int| 0u8), 0, e0);
    let r = root_block();
    assert(r.len() == 512);
    assert(r.subrange(0, 32) =~= e0);
    assert(r.subrange(32, 64) =~= e1);
    assert forall|j: int| 64 <= j < 512 implies r[j] == 0u8 by {}
    assert forall|k: int| 0 <= k < 16 implies #[trigger] get_u32(r.subrange(k * 32, k * 32 + 32), 0)
        == if k < 2 { ROOT_INUM } else { 0u32 } by {
        if k >= 2 {
            let t = r.subrange(k * 32, k * 32 + 32);
            assert(t[0] == 0u8 && t[1] == 0u8 && t[2] == 0u8 && t[3] == 0u8);
        }
    }
}

/// What `link` of `name` to `child` in directory `dir_inum` does, from
/// cache `c` to cache `c2`, with result `r`: refused when the name is
/// there or the inode is no directory, else as `link_effect` says.
pub open spec fn link_outcome(
    c: Map<u32, CachedBlock>,
    c2: Map<u32, CachedBlock>,
    d: Seq<Block>,
    sb: Superblock,
    dir_inum: u32,
    name: Seq<u8>,
    child: u32,
    r: Result<(), DirError>,
) -> bool {
    forall|di: DiskInode| #[trigger] decodes_inode(inode_bytes(c, d, sb, dir_inum), di)
        ==> if dir_lookup(c, d, di, name) is Some {
            r == Err::<(), DirError>(DirError::AlreadyExists)
        } else if di.itype != INODE_DIR {
            r == Err::<(), DirError>(DirError::NotADirectory)
        } else {
            link_effect(c, c2, d, sb, dir_inum, di, new_dirent_bytes(child, name), r)
        }
}

/// What `unlink` of `name` from directory `dir_inum` does, from cache `c`
/// to cache `c2`, with result `r`.
pub open spec fn unlink_outcome(
    c: Map<u32, CachedBlock>,
    c2: Map<u32, CachedBlock>,
    d: Seq<Block>,
    sb: Superblock,
    dir_inum: u32,
    name: Seq<u8>,
    r: Result<u32, DirError>,
) -> bool {
    forall|di: DiskInode| #[trigger] decodes_inode(inode_bytes(c, d, sb, dir_inum), di)
        ==> if di.itype != INODE_DIR {
            r == Err::<u32, DirError>(DirError::NotADirectory)
        } else {
            match dir_find(c, d, di, name, 0, 192) {
                None => r == Err::<u32, DirError>(DirError::NotFound),
                Some(k) => {
                    let blk = di.direct@[k / 16];
                    let child = get_u32(slot_bytes(c, d, di, k), 0);
                    &&& r == Ok::<u32, DirError>(child)
                    &&& content(c2, d, blk)@ == put_bytes(content(c, d, blk)@, (k % 16) * 32, Seq::new(32, |i: int| 0u8))
                    &&& forall|cd: DiskInode, cd2: DiskInode|
                        #[trigger] decodes_inode(inode_bytes(c, d, sb, child), cd)
                        && #[trigger] decodes_inode(inode_bytes(c2, d, sb, child), cd2)
                        ==> link_dropped(cd, cd2, content(c, d, sb.data_bitmap)@, content(c2, d, sb.data_bitmap)@, sb.data_start)
                    &&& forall|j: u32| j != child && j < sb.ninodes
                        ==> #[trigger] inode_bytes(c2, d, sb, j) == inode_bytes(c, d, sb, j)
                    &&& unchanged_except(c, c2, d, set![blk, inode_block(sb, child) as u32, sb.data_bitmap])
                },
            }
        }
}

/// Storing 64 bytes at one multiple of 64 leaves the 64 bytes at another
/// one as they were.
pub proof fn lemma_put_bytes_disjoint(s: Seq<u8>, off: int, b: Seq<u8>, a: int)
    requires
        s.len() == 512,
        b.len() == 64,
        off % 64 == 0,
        a % 64 == 0,
        0 <= off <= 448,
        0 <= a <= 448,
        off != a,
    ensures
        put_bytes(s, off, b).subrange(a, a + 64) == s.subrange(a, a + 64),
{
    assert(off + 64 <= a || a + 64 <= off);
    assert(put_bytes(s, off, b).subrange(a, a + 64) =~= s.subrange(a, a + 64));
}

/// Two inodes in one block have different offsets.
pub proof fn lemma_inode_slots(sb: Superblock, i: u32, j: u32)
    requires
        i != j,
        inode_block(sb, i) == inode_block(sb, j),
    ensures
        inode_offset(i) != inode_offset(j),
        inode_offset(i) % 64 == 0,
        0 <= inode_offset(i) <= 448,
        0 <= inode_offset(j) <= 448,
        inode_offset(j) % 64 == 0,
{
    assert(i / 8 == j / 8);
    assert(i % 8 != j % 8) by (nonlinear_arith)
        requires
            i / 8 == j / 8,
            i != j,
    ;
}

/// Stores `src` at `off` in a block.
fn store_bytes(data: &mut Block, off: usize, src: &[u8])
    requires
        off + src@.len() <= 512,
    ensures
        final(data)@ == put_bytes(old(data)@, off as int, src@),
{
    let mut k: usize = 0;
    while k < src.len()
        invariant
            k <= src@.len(),
            off + src@.len() <= 512,
            data@.len() == 512,
            forall|j: int|
                0 <= j < 512 ==> #[trigger] data@[j] == (if off <= j < off + k {
                    src@[j - off]
                } else {
                    old(data)@[j]
                }),
        decreases src@.len() - k,
    {
        data[off + k] = src[k];
        k = k + 1;
    }
    assert(data@ =~= put_bytes(old(data)@, off as int, src@));
}

/// Directory operations.
pub struct DirOps;

impl DirOps {
    /// Looks `name` up in directory `dir_inum` and returns its inode
    /// number; none when it is absent or `dir_inum` is no directory.
    pub fn lookup(cache: &mut BlockCache, disk: &FileDisk, sb: &Superblock, dir_inum: u32, name: &str) -> (r: Option<u32>)
        requires
            dir_inode_ok(old(cache)@, *disk, *sb, dir_inum),
        ensures
            forall|di: DiskInode| #[trigger] decodes_inode(inode_bytes(old(cache)@, disk@, *sb, dir_inum), di)
                ==> r == dir_lookup(old(cache)@, disk@, di, name.spec_bytes()),
            cache_grows_clean(old(cache)@, final(cache)@, disk@),
    {
        let ghost c0 = cache@;
        let dinode = InodeOps::iget(cache, disk, sb, dir_inum);
        let ghost c1 = cache@;
        proof {
            assert(cache_grows_clean(c0, c1, disk@));
            lemma_grows_clean_content(c0, c1, disk@);
            if dinode.itype == INODE_DIR {
                assert(dir_blocks_readable(c0, *disk, dinode));
                assert forall|i: int| 0 <= i < 12 && #[trigger] dinode.direct@[i] != 0 implies readable(c1, *disk, dinode.direct@[i]) by {
                    assert(readable(c0, *disk, dinode.direct@[i]));
                }
            }
        }
        let bytes = name.as_bytes();
        let r = Self::lookup_in(cache, disk, &dinode, bytes);
        proof {
            lemma_grows_clean_trans(c0, c1, cache@, disk@);
            assert forall|di: DiskInode| #[trigger] decodes_inode(inode_bytes(c0, disk@, *sb, dir_inum), di)
                implies r == dir_lookup(c0, disk@, di, name.spec_bytes()) by {
                assert(di.direct@ =~= dinode.direct@);
                lemma_find_congruent(c1, c0, disk@, dinode, di, name.spec_bytes(), 0, (di.size / 512) * 16);
            }
        }
        r
    }

    /// `lookup` on a directory inode already read.
    fn lookup_in(cache: &mut BlockCache, disk: &FileDisk, dinode: &DiskInode, name: &[u8]) -> (r: Option<u32>)
        requires
            dinode.itype == INODE_DIR ==> dinode.size / 512 <= 12 && dir_blocks_readable(old(cache)@, *disk, *dinode),
        ensures
            r == dir_lookup(old(cache)@, disk@, *dinode, name@),
            cache_grows_clean(old(cache)@, final(cache)@, disk@),
    {
        let ghost c0 = cache@;
        let ghost n: int = (dinode.size / 512) * 16;
        if dinode.itype != INODE_DIR {
            return None;
        }
        let nblocks = dinode.size as usize / BLOCK_SIZE;
        let mut block_idx: usize = 0;
        while block_idx < nblocks
            invariant
                block_idx <= nblocks <= 12,
                c0 == old(cache)@,
                nblocks == dinode.size / 512,
                n == nblocks * 16,
                dinode.itype == INODE_DIR,
                dir_blocks_readable(c0, *disk, *dinode),
                cache_grows_clean(c0, cache@, disk@),
                dir_find(c0, disk@, *dinode, name@, 0, n) == dir_find(c0, disk@, *dinode, name@, block_idx * 16, n),
            decreases nblocks - block_idx,
        {
            let data_block = dinode.direct[block_idx];
            if data_block != 0 {
                let ghost cb = cache@;
                proof {
                    lemma_grows_clean_content(c0, cb, disk@);
                    assert(readable(c0, *disk, dinode.direct@[block_idx as int]));
                }
                let data = cache.read(disk, data_block);
                proof {
                    assert(cache_grows_clean(cb, cache@, disk@));
                    lemma_grows_clean_trans(c0, cb, cache@, disk@);
                }
                let mut i: usize = 0;
                while i < DIRENTS_PER_BLOCK
                    invariant
                        i <= 16,
                        c0 == old(cache)@,
                        block_idx < nblocks <= 12,
                        nblocks == dinode.size / 512,
                        dinode.itype == INODE_DIR,
                        n == nblocks * 16,
                        data_block == dinode.direct@[block_idx as int],
                        data_block != 0,
                        data == content(c0, disk@, data_block),
                        cache_grows_clean(c0, cache@, disk@),
                        dir_find(c0, disk@, *dinode, name@, 0, n) == dir_find(c0, disk@, *dinode, name@, block_idx * 16 + i, n),
                    decreases 16 - i,
                {
                    let entry = read_dirent(&data, i * DIRENT_SIZE);
                    let ghost k = block_idx * 16 + i;
                    proof {
                        lemma_slot_index(block_idx as int, i as int);
                        assert(slot_bytes(c0, disk@, *dinode, k) == data@.subrange(i * 32, i * 32 + 32));
                        assert(slot_bytes(c0, disk@, *dinode, k).subrange(4, 32) =~= data@.subrange(i * 32, i * 32 + 32).subrange(4, 32));
                    }
                    if entry.inum != 0 && field_matches(&entry.name, name) {
                        proof {
                            assert(k < n) by (nonlinear_arith)
                                requires
                                    k == block_idx * 16 + i,
                                    i < 16,
                                    block_idx < nblocks,
                                    n == nblocks * 16,
                            ;
                            assert(get_u32(slot_bytes(c0, disk@, *dinode, k), 0) == entry.inum);
                            assert(slot_live(c0, disk@, *dinode, k));
                            assert(slot_named(c0, disk@, *dinode, k, name@));
                            assert(dir_find(c0, disk@, *dinode, name@, k, n) == Some(k));
                        }
                        return Some(entry.inum);
                    }
                    i = i + 1;
                }
            } else {
                proof {
                    assert forall|j: int| block_idx * 16 <= j < block_idx * 16 + 16 implies !#[trigger] slot_named(c0, disk@, *dinode, j, name@) by {
                        lemma_slot_index(block_idx as int, j - block_idx * 16);
                    }
                    lemma_find_skip(c0, disk@, *dinode, name@, block_idx * 16, block_idx * 16 + 16, n);
                }
            }
            block_idx = block_idx + 1;
        }
        None
    }

    /// Adds an entry `name` for inode `child_inum` to directory
    /// `dir_inum`: in the first free slot of its blocks, or at the start of
    /// a newly allocated block (see `link_effect`). Refused when the name is
    /// already there or `dir_inum` is no directory.
    pub fn link(
        cache: &mut BlockCache,
        disk: &FileDisk,
        sb: &Superblock,
        dir_inum: u32,
        name: &str,
        child_inum: u32,
    ) -> (r: Result<(), DirError>)
        requires
            dir_inode_ok(old(cache)@, *disk, *sb, dir_inum),
            sb_ok(*sb, *disk),
        ensures
            link_outcome(old(cache)@, final(cache)@, disk@, *sb, dir_inum, name.spec_bytes(), child_inum, r),
    {
        let ghost c0 = cache@;
        let found = Self::lookup(cache, disk, sb, dir_inum, name);
        if found.is_some() {
            return Err(DirError::AlreadyExists);
        }
        let ghost c1 = cache@;
        proof {
            lemma_grows_clean_content(c0, c1, disk@);
        }
        let dinode = InodeOps::iget(cache, disk, sb, dir_inum);
        let ghost c2 = cache@;
        proof {
            assert(cache_grows_clean(c1, c2, disk@));
            lemma_grows_clean_trans(c0, c1, c2, disk@);
            lemma_grows_clean_content(c0, c2, disk@);
            assert(inode_bytes(c1, disk@, *sb, dir_inum) == inode_bytes(c0, disk@, *sb, dir_inum));
        }
        if dinode.itype != INODE_DIR {
            return Err(DirError::NotADirectory);
        }
        proof {
            assert(dir_blocks_readable(c0, *disk, dinode));
            assert forall|i: int| 0 <= i < 12 && #[trigger] dinode.direct@[i] != 0 implies readable(c2, *disk, dinode.direct@[i]) by {
                assert(readable(c0, *disk, dinode.direct@[i]));
            }
        }
        let entry = DirEntry::new(child_inum, name);
        let enc = entry.to_bytes();
        let r = Self::link_in(cache, disk, sb, dir_inum, &dinode, &enc);
        proof {
            assert(enc@ =~= new_dirent_bytes(child_inum, name.spec_bytes()));
            assert forall|di: DiskInode| #[trigger] decodes_inode(inode_bytes(c0, disk@, *sb, dir_inum), di)
                implies link_effect(c0, cache@, disk@, *sb, dir_inum, di, enc@, r) by {
                assert(di.direct@ =~= dinode.direct@);
                assert(di.itype == dinode.itype && di.nlink == dinode.nlink);
                lemma_link_slot_congruent(c2, c0, disk@, dinode, di, 0);
                assert(content(c0, disk@, sb.data_bitmap) == content(c2, disk@, sb.data_bitmap));
                match link_slot(c0, disk@, di, 0) {
                    None => {},
                    Some(k) => {
                        let b = di.direct@[k / 16];
                        assert(content(c0, disk@, b) == content(c2, disk@, b));
                    },
                }
            }
        }
        r
    }

    /// The first slot among the first `nblocks` blocks of `dinode` whose
    /// entry matches `name`.
    fn find_slot(cache: &mut BlockCache, disk: &FileDisk, dinode: &DiskInode, name: &[u8], nblocks: usize) -> (r: Option<usize>)
        requires
            nblocks <= 12,
            dir_blocks_readable(old(cache)@, *disk, *dinode),
        ensures
            match r {
                Some(k) => dir_find(old(cache)@, disk@, *dinode, name@, 0, nblocks * 16) == Some(k as int),
                None => dir_find(old(cache)@, disk@, *dinode, name@, 0, nblocks * 16) is None,
            },
            cache_grows_clean(old(cache)@, final(cache)@, disk@),
    {
        let ghost c0 = cache@;
        let ghost n: int = nblocks * 16;
        let mut block_idx: usize = 0;
        while block_idx < nblocks
            invariant
                block_idx <= nblocks <= 12,
                c0 == old(cache)@,
                n == nblocks * 16,
                dir_blocks_readable(c0, *disk, *dinode),
                cache_grows_clean(c0, cache@, disk@),
                dir_find(c0, disk@, *dinode, name@, 0, n) == dir_find(c0, disk@, *dinode, name@, block_idx * 16, n),
            decreases nblocks - block_idx,
        {
            let data_block = dinode.direct[block_idx];
            if data_block != 0 {
                let ghost cb = cache@;
                proof {
                    lemma_grows_clean_content(c0, cb, disk@);
                    assert(readable(c0, *disk, dinode.direct@[block_idx as int]));
                }
                let data = cache.read(disk, data_block);
                proof {
                    assert(cache_grows_clean(cb, cache@, disk@));
                    lemma_grows_clean_trans(c0, cb, cache@, disk@);
                }
                let mut i: usize = 0;
                while i < DIRENTS_PER_BLOCK
                    invariant
                        i <= 16,
                        c0 == old(cache)@,
                        block_idx < nblocks <= 12,
                        n == nblocks * 16,
                        data_block == dinode.direct@[block_idx as int],
                        data_block != 0,
                        data == content(c0, disk@, data_block),
                        cache_grows_clean(c0, cache@, disk@),
                        dir_find(c0, disk@, *dinode, name@, 0, n) == dir_find(c0, disk@, *dinode, name@, block_idx * 16 + i, n),
                    decreases 16 - i,
                {
                    let entry = read_dirent(&data, i * DIRENT_SIZE);
                    let ghost k = block_idx * 16 + i;
                    proof {
                        lemma_slot_index(block_idx as int, i as int);
                        assert(slot_bytes(c0, disk@, *dinode, k) == data@.subrange(i * 32, i * 32 + 32));
                        assert(slot_bytes(c0, disk@, *dinode, k).subrange(4, 32) =~= data@.subrange(i * 32, i * 32 + 32).subrange(4, 32));
                        assert(k < n) by (nonlinear_arith)
                            requires
                                k == block_idx * 16 + i,
                                i < 16,
                                block_idx < nblocks,
                                n == nblocks * 16,
                        ;
                    }
                    if entry.inum != 0 && field_matches(&entry.name, name) {
                        proof {
                            assert(slot_named(c0, disk@, *dinode, k, name@));
                        }
                        return Some(block_idx * 16 + i);
                    }
                    i = i + 1;
                }
            } else {
                proof {
                    assert forall|j: int| block_idx * 16 <= j < block_idx * 16 + 16 implies !#[trigger] slot_named(c0, disk@, *dinode, j, name@) by {
                        lemma_slot_index(block_idx as int, j - block_idx * 16);
                    }
                    lemma_find_skip(c0, disk@, *dinode, name@, block_idx * 16, block_idx * 16 + 16, n);
                }
            }
            block_idx = block_idx + 1;
        }
        None
    }

    /// Removes the entry `name` from directory `dir_inum` (the first
    /// matching one in its 12 direct blocks), drops one link of its inode
    /// (see `link_dropped`) and returns the inode number. Refused when
    /// `dir_inum` is no directory or the name is absent.
    #[verifier::rlimit(40)]
    pub fn unlink(cache: &mut BlockCache, disk: &FileDisk, sb: &Superblock, dir_inum: u32, name: &str) -> (r: Result<u32, DirError>)
        requires
            dir_inode_ok(old(cache)@, *disk, *sb, dir_inum),
            sb_ok(*sb, *disk),
            forall|di: DiskInode| #[trigger] decodes_inode(inode_bytes(old(cache)@, disk@, *sb, dir_inum), di) && di.itype == INODE_DIR
                ==> inode_blocks_ok(di, *sb) && dir_entries_ok(old(cache)@, disk@, *sb, di),
        ensures
            unlink_outcome(old(cache)@, final(cache)@, disk@, *sb, dir_inum, name.spec_bytes(), r),
    {
        let ghost c0 = cache@;
        let dinode = InodeOps::iget(cache, disk, sb, dir_inum);
        let ghost c1 = cache@;
        proof {
            assert(cache_grows_clean(c0, c1, disk@));
            lemma_grows_clean_content(c0, c1, disk@);
        }
        if dinode.itype != INODE_DIR {
            return Err(DirError::NotADirectory);
        }
        proof {
            assert(dir_blocks_readable(c0, *disk, dinode));
            assert forall|i: int| 0 <= i < 12 && #[trigger] dinode.direct@[i] != 0 implies readable(c1, *disk, dinode.direct@[i]) by {
                assert(readable(c0, *disk, dinode.direct@[i]));
            }
        }
        let found = Self::find_slot(cache, disk, &dinode, name.as_bytes(), NDIRECT);
        let ghost c2 = cache@;
        proof {
            lemma_grows_clean_trans(c0, c1, c2, disk@);
            lemma_grows_clean_content(c0, c2, disk@);
            lemma_find_congruent(c1, c0, disk@, dinode, dinode, name.spec_bytes(), 0, 192);
        }
        match found {
            None => {
                proof {
                    assert forall|di: DiskInode| #[trigger] decodes_inode(inode_bytes(c0, disk@, *sb, dir_inum), di)
                        implies dir_find(c0, disk@, di, name.spec_bytes(), 0, 192) is None by {
                        assert(di.direct@ =~= dinode.direct@);
                        lemma_find_congruent(c0, c0, disk@, dinode, di, name.spec_bytes(), 0, 192);
                    }
                }
                Err(DirError::NotFound)
            },
            Some(k) => {
                proof {
                    lemma_find_found(c0, disk@, dinode, name.spec_bytes(), 0, 192);
                }
                let blk = dinode.direct[k / DIRENTS_PER_BLOCK];
                let off = (k % DIRENTS_PER_BLOCK) * DIRENT_SIZE;
                proof {
                    assert(slot_named(c0, disk@, dinode, k as int, name.spec_bytes()));
                    assert(readable(c0, *disk, dinode.direct@[k as int / 16]));
                }
                let data = cache.read(disk, blk);
                let e = read_dirent(&data, off);
                let freed = e.inum;
                let ghost c3 = cache@;
                proof {
                    assert(cache_grows_clean(c2, c3, disk@));
                    lemma_grows_clean_trans(c0, c2, c3, disk@);
                    lemma_grows_clean_content(c0, c3, disk@);
                    assert(freed == get_u32(slot_bytes(c0, disk@, dinode, k as int), 0));
                    assert(inode_blocks_ok(dinode, *sb));
                    assert(dir_entries_ok(c0, disk@, *sb, dinode));
                    assert(slot_live(c0, disk@, dinode, k as int));
                }
                let mut nd = cache.read_mut(disk, blk);
                let empty = DirEntry::empty().to_bytes();
                store_bytes(&mut nd, off, &empty);
                cache.write(disk, blk, &nd);
                let ghost c4 = cache@;
                proof {
                    assert(empty@ =~= Seq::new(32, |i: int| 0u8));
                    assert(inode_block(*sb, freed) < sb.data_start);
                    assert(inode_bytes(c4, disk@, *sb, freed) == inode_bytes(c0, disk@, *sb, freed));
                    assert(content(c4, disk@, sb.data_bitmap) == content(c0, disk@, sb.data_bitmap));
                }
                proof {
                    assert forall|j: u32| j < sb.ninodes
                        implies #[trigger] inode_bytes(c4, disk@, *sb, j) == inode_bytes(c0, disk@, *sb, j) by {
                        assert(inode_block(*sb, j) < sb.data_start);
                        assert(content(c4, disk@, inode_block(*sb, j) as u32) == content(c3, disk@, inode_block(*sb, j) as u32));
                    }
                }
                Self::release_inode(cache, disk, sb, freed);
                proof {
                    assert(content(cache@, disk@, blk) == content(c4, disk@, blk));
                    assert forall|kk: u32| #[trigger] c0.contains_key(kk) implies cache@.contains_key(kk) by {
                        assert(c3.contains_key(kk));
                        assert(c4.contains_key(kk));
                    }
                    assert forall|kk: u32| !set![blk, inode_block(*sb, freed) as u32, sb.data_bitmap].contains(kk)
                        && (c0.contains_key(kk) || kk < disk@.len())
                        implies #[trigger] content(cache@, disk@, kk) == content(c0, disk@, kk) by {
                        assert(!set![sb.data_bitmap, inode_block(*sb, freed) as u32].contains(kk));
                        assert(c4.contains_key(kk) || kk < disk@.len()) by {
                            if c0.contains_key(kk) {
                                assert(c3.contains_key(kk));
                            }
                        }
                        assert(content(cache@, disk@, kk) == content(c4, disk@, kk));
                        assert(content(c4, disk@, kk) == content(c3, disk@, kk));
                    }
                    assert forall|di: DiskInode| #[trigger] decodes_inode(inode_bytes(c0, disk@, *sb, dir_inum), di)
                        implies dir_find(c0, disk@, di, name.spec_bytes(), 0, 192) == Some(k as int) && di.direct@[k as int / 16] == blk by {
                        assert(di.direct@ =~= dinode.direct@);
                        lemma_find_congruent(c0, c0, disk@, dinode, di, name.spec_bytes(), 0, 192);
                    }
                }
                Ok(freed)
            },
        }
    }

    /// Lists directory `dir_inum`: for each live entry of its 12 direct
    /// blocks, in order, its name, its inode number and that inode's type;
    /// nothing when `dir_inum` is no directory.
    pub fn list(cache: &mut BlockCache, disk: &FileDisk, sb: &Superblock, dir_inum: u32) -> (entries: Vec<(String, u32, u16)>)
        requires
            dir_inode_ok(old(cache)@, *disk, *sb, dir_inum),
            sb_ok(*sb, *disk),
            forall|di: DiskInode| #[trigger] decodes_inode(inode_bytes(old(cache)@, disk@, *sb, dir_inum), di) && di.itype == INODE_DIR
                ==> dir_entries_ok(old(cache)@, disk@, *sb, di),
        ensures
            forall|di: DiskInode| #[trigger] decodes_inode(inode_bytes(old(cache)@, disk@, *sb, dir_inum), di)
                ==> {
                let live = if di.itype == INODE_DIR { live_slots(old(cache)@, disk@, di, 0) } else { Seq::<int>::empty() };
                &&& entries@.len() == live.len()
                &&& forall|i: int| 0 <= i < live.len() ==> {
                    let sb_k = slot_bytes(old(cache)@, disk@, di, #[trigger] live[i]);
                    let inum = get_u32(sb_k, 0);
                    &&& encode_utf8(entries@[i].0@) == field_text(sb_k.subrange(4, 32))
                    &&& entries@[i].1 == inum
                    &&& entries@[i].2 == crate::jfs::codec::get_u16(inode_bytes(old(cache)@, disk@, *sb, inum), 0)
                }
            },
            cache_grows_clean(old(cache)@, final(cache)@, disk@),
    {
        let ghost c0 = cache@;
        let mut entries: Vec<(String, u32, u16)> = Vec::new();
        let dinode = InodeOps::iget(cache, disk, sb, dir_inum);
        let ghost c1 = cache@;
        proof {
            assert(cache_grows_clean(c0, c1, disk@));
            lemma_grows_clean_content(c0, c1, disk@);
        }
        if dinode.itype != INODE_DIR {
            proof {
                assert forall|di: DiskInode| #[trigger] decodes_inode(inode_bytes(c0, disk@, *sb, dir_inum), di)
                    implies di.itype != INODE_DIR by {}
            }
            return entries;
        }
        proof {
            assert(dir_blocks_readable(c0, *disk, dinode));
            assert(dir_entries_ok(c0, disk@, *sb, dinode));
        }
        let ghost mut got: Seq<int> = Seq::empty();
        let mut block_idx: usize = 0;
        while block_idx < NDIRECT
            invariant
                block_idx <= 12,
                c0 == old(cache)@,
                sb_ok(*sb, *disk),
                dinode.itype == INODE_DIR,
                dir_blocks_readable(c0, *disk, dinode),
                dir_entries_ok(c0, disk@, *sb, dinode),
                cache_grows_clean(c0, cache@, disk@),
                got + live_slots(c0, disk@, dinode, block_idx * 16) == live_slots(c0, disk@, dinode, 0),
                entries@.len() == got.len(),
                forall|i: int| 0 <= i < got.len() ==> {
                    let sb_k = slot_bytes(c0, disk@, dinode, #[trigger] got[i]);
                    let inum = get_u32(sb_k, 0);
                    &&& encode_utf8(entries@[i].0@) == field_text(sb_k.subrange(4, 32))
                    &&& entries@[i].1 == inum
                    &&& entries@[i].2 == crate::jfs::codec::get_u16(inode_bytes(c0, disk@, *sb, inum), 0)
                },
            decreases 12 - block_idx,
        {
            let data_block = dinode.direct[block_idx];
            if data_block != 0 {
                let ghost cb = cache@;
                proof {
                    lemma_grows_clean_content(c0, cb, disk@);
                    assert(readable(c0, *disk, dinode.direct@[block_idx as int]));
                }
                let data = cache.read(disk, data_block);
                proof {
                    assert(cache_grows_clean(cb, cache@, disk@));
                    lemma_grows_clean_trans(c0, cb, cache@, disk@);
                }
                let mut i: usize = 0;
                while i < DIRENTS_PER_BLOCK
                    invariant
                        i <= 16,
                        c0 == old(cache)@,
                        block_idx < 12,
                        sb_ok(*sb, *disk),
                        data_block == dinode.direct@[block_idx as int],
                        data_block != 0,
                        data == content(c0, disk@, data_block),
                        dir_entries_ok(c0, disk@, *sb, dinode),
                        cache_grows_clean(c0, cache@, disk@),
                        got + live_slots(c0, disk@, dinode, block_idx * 16 + i) == live_slots(c0, disk@, dinode, 0),
                        entries@.len() == got.len(),
                        forall|j: int| 0 <= j < got.len() ==> {
                            let sb_k = slot_bytes(c0, disk@, dinode, #[trigger] got[j]);
                            let inum = get_u32(sb_k, 0);
                            &&& encode_utf8(entries@[j].0@) == field_text(sb_k.subrange(4, 32))
                            &&& entries@[j].1 == inum
                            &&& entries@[j].2 == crate::jfs::codec::get_u16(inode_bytes(c0, disk@, *sb, inum), 0)
                        },
                    decreases 16 - i,
                {
                    let entry = read_dirent(&data, i * DIRENT_SIZE);
                    let ghost k = block_idx * 16 + i;
                    proof {
                        lemma_slot_index(block_idx as int, i as int);
                        assert(k < 192) by (nonlinear_arith)
                            requires
                                k == block_idx * 16 + i,
                                i < 16,
                                block_idx < 12,
                        ;
                        assert(slot_bytes(c0, disk@, dinode, k) == data@.subrange(i * 32, i * 32 + 32));
                        assert(slot_bytes(c0, disk@, dinode, k).subrange(4, 32) =~= entry.name@);
                    }
                    if entry.inum != 0 {
                        let ghost cc = cache@;
                        proof {
                            assert(slot_live(c0, disk@, dinode, k));
                            lemma_grows_clean_content(c0, cc, disk@);
                        }
                        let text = entry.name_str();
                        let name = text.to_owned();
                        let child = InodeOps::iget(cache, disk, sb, entry.inum);
                        proof {
                            assert(cache_grows_clean(cc, cache@, disk@));
                            lemma_grows_clean_trans(c0, cc, cache@, disk@);
                            assert(inode_bytes(cc, disk@, *sb, entry.inum) == inode_bytes(c0, disk@, *sb, entry.inum));
                        }
                        entries.push((name, entry.inum, child.itype));
                        proof {
                            let old_got = got;
                            got = got.push(k);
                            assert(live_slots(c0, disk@, dinode, k) == seq![k] + live_slots(c0, disk@, dinode, k + 1));
                            assert(got + live_slots(c0, disk@, dinode, k + 1) =~= old_got + live_slots(c0, disk@, dinode, k));
                        }
                    } else {
                        proof {
                            assert(!slot_live(c0, disk@, dinode, k));
                        }
                    }
                    i = i + 1;
                }
            } else {
                proof {
                    assert forall|j: int| block_idx * 16 <= j <= block_idx * 16 + 16 implies #[trigger] live_slots(c0, disk@, dinode, j)
                        == live_slots(c0, disk@, dinode, block_idx * 16 + 16) by {
                        lemma_live_skip(c0, disk@, dinode, j, block_idx * 16 + 16);
                    }
                }
            }
            block_idx = block_idx + 1;
        }
        proof {
            assert(live_slots(c0, disk@, dinode, 192) == Seq::<int>::empty());
            assert(got =~= live_slots(c0, disk@, dinode, 0));
            assert forall|di: DiskInode| #[trigger] decodes_inode(inode_bytes(c0, disk@, *sb, dir_inum), di)
                implies live_slots(c0, disk@, di, 0) == live_slots(c0, disk@, dinode, 0)
                    && (forall|k: int| #[trigger] slot_bytes(c0, disk@, di, k) == slot_bytes(c0, disk@, dinode, k)) by {
                assert(di.direct@ =~= dinode.direct@);
                lemma_live_congruent(c0, disk@, di, dinode, 0);
            }
        }
        entries
    }

    /// Makes inode 1 the root directory: one link, one data block (the
    /// lowest free one) holding "." and "..".
    pub fn init_root(cache: &mut BlockCache, disk: &FileDisk, sb: &Superblock)
        requires
            sb_ok(*sb, *disk),
            sb.ninodes > ROOT_INUM,
            ({
                let bm = content(old(cache)@, disk@, sb.data_bitmap)@;
                let ndata = sb.nblocks - sb.data_start;
                let bits = if ndata < 4096 { ndata } else { 4096 };
                exists|j: int| 0 <= j < bits && !#[trigger] bit_set(bm, j)
            }),
        ensures
            exists|nb: u32|
                #![trigger content(final(cache)@, disk@, nb)]
                {
                    let bm = content(old(cache)@, disk@, sb.data_bitmap)@;
                    &&& unchanged_except(old(cache)@, final(cache)@, disk@, set![sb.data_bitmap, nb, inode_block(*sb, ROOT_INUM) as u32])
                    &&& sb.data_start <= nb < sb.nblocks
                    &&& !bit_set(bm, nb - sb.data_start)
                    &&& forall|j: int| 0 <= j < nb - sb.data_start ==> #[trigger] bit_set(bm, j)
                    &&& content(final(cache)@, disk@, sb.data_bitmap)@ == crate::jfs::bitmap::with_bit(bm, nb - sb.data_start)
                    &&& content(final(cache)@, disk@, nb)@ == root_block()
                    &&& forall|di: DiskInode, di2: DiskInode|
                        #[trigger] decodes_inode(inode_bytes(old(cache)@, disk@, *sb, ROOT_INUM), di)
                        && #[trigger] decodes_inode(inode_bytes(final(cache)@, disk@, *sb, ROOT_INUM), di2)
                        ==> {
                            &&& di2.itype == INODE_DIR
                            &&& di2.nlink == 1
                            &&& di2.size == 512
                            &&& di2.direct@ == di.direct@.update(0, nb)
                        }
                },
    {
        let ghost c0 = cache@;
        let mut dinode = InodeOps::iget(cache, disk, sb, ROOT_INUM);
        let ghost d0 = dinode;
        let ghost c1 = cache@;
        proof {
            assert(cache_grows_clean(c0, c1, disk@));
            lemma_grows_clean_content(c0, c1, disk@);
        }
        dinode.itype = INODE_DIR;
        dinode.nlink = 1;
        dinode.size = 0;
        let block = match InodeOps::balloc(cache, disk, sb) {
            Some(b) => b,
            None => {
                proof {
                    let bm = content(c0, disk@, sb.data_bitmap)@;
                    let ndata = sb.nblocks - sb.data_start;
                    let bits = if ndata < 4096 { ndata } else { 4096 };
                    assert(content(c1, disk@, sb.data_bitmap) == content(c0, disk@, sb.data_bitmap));
                    let j = choose|j: int| 0 <= j < bits && !#[trigger] bit_set(bm, j);
                    assert(bit_set(bm, j));
                }
                return;
            },
        };
        let ghost c2 = cache@;
        dinode.direct[0] = block;
        dinode.size = BLOCK_SIZE as u32;
        let mut data = cache.read_mut(disk, block);
        let ghost z = data@;
        let mut dot = DirEntry::empty();
        dot.inum = ROOT_INUM;
        dot.name[0] = 46;
        let mut dotdot = DirEntry::empty();
        dotdot.inum = ROOT_INUM;
        dotdot.name[0] = 46;
        dotdot.name[1] = 46;
        let b1 = dot.to_bytes();
        let b2 = dotdot.to_bytes();
        store_bytes(&mut data, 0, &b1);
        store_bytes(&mut data, DIRENT_SIZE, &b2);
        cache.write(disk, block, &data);
        let ghost c3 = cache@;
        let ghost ib = inode_block(*sb, ROOT_INUM) as u32;
        proof {
            assert(dot.name@ =~= name_field(seq![46u8]));
            assert(dotdot.name@ =~= name_field(seq![46u8, 46u8]));
            assert(z =~= Seq::new(512, |i: int| 0u8));
            assert(data@ =~= root_block());
            assert(ib < sb.data_start);
            assert(content(c3, disk@, ib) == content(c2, disk@, ib));
            assert(ib < disk@.len());
            assert(content(c2, disk@, ib) == content(c1, disk@, ib));
            assert(content(c3, disk@, ib) == content(c0, disk@, ib));
        }
        InodeOps::iupdate(cache, disk, sb, ROOT_INUM, &dinode);
        proof {
            lemma_inode_roundtrip(dinode);
            assert(inode_bytes(cache@, disk@, *sb, ROOT_INUM) =~= encode_inode(dinode));
            assert(content(cache@, disk@, block) == content(c3, disk@, block));
            assert(content(cache@, disk@, sb.data_bitmap) == content(c2, disk@, sb.data_bitmap));
            assert forall|di: DiskInode, di2: DiskInode|
                #[trigger] decodes_inode(inode_bytes(c0, disk@, *sb, ROOT_INUM), di)
                && #[trigger] decodes_inode(inode_bytes(cache@, disk@, *sb, ROOT_INUM), di2)
                implies di2.itype == INODE_DIR && di2.nlink == 1 && di2.size == 512 && di2.direct@ == di.direct@.update(0, block) by {
                assert(di.direct@ =~= d0.direct@);
                assert(di2.direct@ =~= dinode.direct@);
            }
            let s = set![sb.data_bitmap, block, ib];
            assert forall|k: u32| #[trigger] c0.contains_key(k) implies cache@.contains_key(k) by {
                assert(c1.contains_key(k));
                assert(c2.contains_key(k));
            }
            assert forall|k: u32| !s.contains(k) && (c0.contains_key(k) || k < disk@.len())
                implies #[trigger] content(cache@, disk@, k) == content(c0, disk@, k) by {
                assert(content(c1, disk@, k) == content(c0, disk@, k));
                assert(c1.contains_key(k) || k < disk@.len());
                assert(content(c2, disk@, k) == content(c1, disk@, k));
                assert(content(c3, disk@, k) == content(c2, disk@, k));
            }
            assert(unchanged_except(c0, cache@, disk@, s));
        }
    }

    /// Drops one link of inode `inum`; on the last one frees its data
    /// blocks and clears the inode.
    fn release_inode(cache: &mut BlockCache, disk: &FileDisk, sb: &Superblock, inum: u32)
        requires
            sb_ok(*sb, *disk),
            0 < inum < sb.ninodes,
            forall|cd: DiskInode| #[trigger] decodes_inode(inode_bytes(old(cache)@, disk@, *sb, inum), cd) ==> inode_blocks_ok(cd, *sb),
        ensures
            forall|cd: DiskInode, cd2: DiskInode|
                #[trigger] decodes_inode(inode_bytes(old(cache)@, disk@, *sb, inum), cd)
                && #[trigger] decodes_inode(inode_bytes(final(cache)@, disk@, *sb, inum), cd2)
                ==> link_dropped(cd, cd2, content(old(cache)@, disk@, sb.data_bitmap)@,
                    content(final(cache)@, disk@, sb.data_bitmap)@, sb.data_start),
            crate::jfs::block_cache::unchanged_except(old(cache)@, final(cache)@, disk@,
                set![sb.data_bitmap, inode_block(*sb, inum) as u32]),
            forall|j: u32| j != inum && inode_block(*sb, j) < disk@.len()
                ==> #[trigger] inode_bytes(final(cache)@, disk@, *sb, j) == inode_bytes(old(cache)@, disk@, *sb, j),
    {
        let ghost c0 = cache@;
        let ghost ib = inode_block(*sb, inum) as u32;
        let ghost bm0 = content(c0, disk@, sb.data_bitmap)@;
        let mut child = InodeOps::iget(cache, disk, sb, inum);
        let ghost cd0 = child;
        let ghost c1 = cache@;
        proof {
            assert(cache_grows_clean(c0, c1, disk@));
            lemma_grows_clean_content(c0, c1, disk@);
            assert(inode_blocks_ok(cd0, *sb));
        }
        child.nlink = child.nlink.saturating_sub(1);
        if child.nlink == 0 {
            let mut i: usize = 0;
            while i < NDIRECT
                invariant
                    i <= 12,
                    sb_ok(*sb, *disk),
                    0 < inum < sb.ninodes,
                    ib == inode_block(*sb, inum),
                    child.direct@ == cd0.direct@,
                    inode_blocks_ok(cd0, *sb),
                    content(cache@, disk@, sb.data_bitmap)@ == clear_bits(bm0, cd0.direct@, sb.data_start, i as int),
                    crate::jfs::block_cache::unchanged_except(c0, cache@, disk@, set![sb.data_bitmap]),
                    bm0 == content(c0, disk@, sb.data_bitmap)@,
                decreases 12 - i,
            {
                let b = child.direct[i];
                if b != 0 {
                    let ghost cb = cache@;
                    InodeOps::bfree(cache, disk, sb, b);
                    proof {
                        assert forall|k: u32| !set![sb.data_bitmap].contains(k) && (c0.contains_key(k) || k < disk@.len())
                            implies #[trigger] content(cache@, disk@, k) == content(c0, disk@, k) by {
                            assert(content(cache@, disk@, k) == content(cb, disk@, k));
                        }
                    }
                }
                i = i + 1;
            }
            child = DiskInode::zeroed();
        }
        let ghost c2 = cache@;
        proof {
            assert(content(c2, disk@, ib) == content(c0, disk@, ib));
        }
        InodeOps::iupdate(cache, disk, sb, inum, &child);
        proof {
            lemma_inode_roundtrip(child);
            assert(inode_bytes(cache@, disk@, *sb, inum) =~= encode_inode(child));
            assert(content(cache@, disk@, sb.data_bitmap) == content(c2, disk@, sb.data_bitmap));
            assert forall|cd: DiskInode, cd2: DiskInode|
                #[trigger] decodes_inode(inode_bytes(c0, disk@, *sb, inum), cd)
                && #[trigger] decodes_inode(inode_bytes(cache@, disk@, *sb, inum), cd2)
                implies link_dropped(cd, cd2, bm0, content(cache@, disk@, sb.data_bitmap)@, sb.data_start) by {
                assert(cd.direct@ =~= cd0.direct@);
                assert(cd2.direct@ =~= child.direct@);
            }
            assert forall|k: u32| !set![sb.data_bitmap, ib].contains(k) && (c0.contains_key(k) || k < disk@.len())
                implies #[trigger] content(cache@, disk@, k) == content(c0, disk@, k) by {
                assert(content(cache@, disk@, k) == content(c2, disk@, k));
            }
            assert forall|j: u32| j != inum && inode_block(*sb, j) < disk@.len()
                implies #[trigger] inode_bytes(cache@, disk@, *sb, j) == inode_bytes(c0, disk@, *sb, j) by {
                let jb = inode_block(*sb, j) as u32;
                if jb == ib {
                    lemma_inode_slots(*sb, j, inum);
                    lemma_put_bytes_disjoint(content(c2, disk@, ib)@, inode_offset(inum), encode_inode(child), inode_offset(j));
                } else {
                    assert(content(cache@, disk@, jb) == content(c2, disk@, jb));
                    if jb != sb.data_bitmap {
                        assert(content(c2, disk@, jb) == content(c0, disk@, jb));
                    } else {
                        assert(false);
                    }
                }
            }
        }
    }

    /// Puts the 32-byte entry `entry` into directory `dinode` (inode
    /// `inum`), as `link` does once the name is known to be absent.
    #[verifier::rlimit(40)]
    fn link_in(cache: &mut BlockCache, disk: &FileDisk, sb: &Superblock, inum: u32, dinode: &DiskInode, entry: &[u8; DIRENT_SIZE]) -> (r: Result<(), DirError>)
        requires
            sb_ok(*sb, *disk),
            0 < inum < sb.ninodes,
            dinode.itype == INODE_DIR,
            dir_blocks_readable(old(cache)@, *disk, *dinode),
        ensures
            link_effect(old(cache)@, final(cache)@, disk@, *sb, inum, *dinode, entry@, r),
    {
        let ghost c0 = cache@;
        let mut block_idx: usize = 0;
        while block_idx < NDIRECT
            invariant
                block_idx <= 12,
                c0 == old(cache)@,
                sb_ok(*sb, *disk),
                0 < inum < sb.ninodes,
                dir_blocks_readable(c0, *disk, *dinode),
                cache_grows_clean(c0, cache@, disk@),
                link_slot(c0, disk@, *dinode, 0) == link_slot(c0, disk@, *dinode, block_idx * 16),
            decreases 12 - block_idx,
        {
            proof {
                lemma_slot_index(block_idx as int, 0);
                lemma_grows_clean_content(c0, cache@, disk@);
            }
            let blk = dinode.direct[block_idx];
            if blk == 0 {
                let ghost ca = cache@;
                let ghost k = block_idx * 16;
                assert(link_slot(c0, disk@, *dinode, k) == Some(k));
                assert(content(ca, disk@, sb.data_bitmap) == content(c0, disk@, sb.data_bitmap));
                let got = InodeOps::balloc(cache, disk, sb);
                match got {
                    None => {
                        return Err(DirError::NoFreeBlocks);
                    },
                    Some(nb) => {
                        let ghost cb = cache@;
                        let mut dn = *dinode;
                        dn.direct[block_idx] = nb;
                        dn.size = ((block_idx + 1) * BLOCK_SIZE) as u32;
                        let ghost ib = inode_block(*sb, inum) as u32;
                        assert(ib < sb.data_start);
                        InodeOps::iupdate(cache, disk, sb, inum, &dn);
                        let ghost cc = cache@;
                        assert(content(cc, disk@, nb) == content(cb, disk@, nb));
                        let mut data = cache.read_mut(disk, nb);
                        store_bytes(&mut data, 0, entry);
                        cache.write(disk, nb, &data);
                        proof {
                            lemma_inode_roundtrip(dn);
                            assert(content(cache@, disk@, ib) == content(cc, disk@, ib));
                            let enc = encode_inode(dn);
                            let cib = content(cc, disk@, ib)@;
                            assert(inode_bytes(cache@, disk@, *sb, inum) =~= enc);
                            assert forall|di2: DiskInode| #[trigger] decodes_inode(inode_bytes(cache@, disk@, *sb, inum), di2)
                                implies di2.direct@ == dinode.direct@.update(k / 16, nb) && di2.size == grown_size(k / 16)
                                    && di2.itype == dinode.itype && di2.nlink == dinode.nlink by {
                                assert(di2.direct@ =~= dn.direct@);
                            }
                            assert(content(cache@, disk@, nb)@ == put_bytes(Seq::new(512, |i: int| 0u8), 0, entry@));
                            lemma_grows_clean_content(c0, ca, disk@);
                            assert forall|kk: u32| #[trigger] c0.contains_key(kk) implies cache@.contains_key(kk) by {
                                assert(ca.contains_key(kk));
                                assert(cb.contains_key(kk));
                            }
                            assert forall|kk: u32| !set![nb, sb.data_bitmap, ib].contains(kk) && (c0.contains_key(kk) || kk < disk@.len())
                                implies #[trigger] content(cache@, disk@, kk) == content(c0, disk@, kk) by {
                                assert(content(cache@, disk@, kk) == content(cc, disk@, kk));
                                assert(content(cc, disk@, kk) == content(cb, disk@, kk));
                                if ca.contains_key(kk) || kk < disk@.len() {
                                    assert(!set![sb.data_bitmap, nb].contains(kk));
                                    assert(content(cb, disk@, kk) == content(ca, disk@, kk));
                                }
                            }
                            assert forall|j: u32| j != inum && j < sb.ninodes implies #[trigger] inode_bytes(cache@, disk@, *sb, j)
                                == inode_bytes(c0, disk@, *sb, j) by {
                                let jb = inode_block(*sb, j) as u32;
                                assert(jb < sb.data_start);
                                if jb == ib {
                                    lemma_inode_slots(*sb, j, inum);
                                    lemma_put_bytes_disjoint(content(cb, disk@, ib)@, inode_offset(inum), encode_inode(dn), inode_offset(j));
                                    assert(content(cb, disk@, ib) == content(ca, disk@, ib));
                                } else {
                                    assert(content(cache@, disk@, jb) == content(cc, disk@, jb));
                                    assert(content(cc, disk@, jb) == content(cb, disk@, jb));
                                    assert(content(cb, disk@, jb) == content(ca, disk@, jb));
                                }
                            }
                        }
                        return Ok(());
                    },
                }
            }
            let ghost cr = cache@;
            proof {
                assert(readable(c0, *disk, dinode.direct@[block_idx as int]));
            }
            let data = cache.read(disk, blk);
            proof {
                lemma_grows_clean_trans(c0, cr, cache@, disk@);
            }
            let mut i: usize = 0;
            while i < DIRENTS_PER_BLOCK
                invariant
                    i <= 16,
                    block_idx < 12,
                    c0 == old(cache)@,
                    sb_ok(*sb, *disk),
                    blk == dinode.direct@[block_idx as int],
                    blk != 0,
                    data == content(c0, disk@, blk),
                    cache_grows_clean(c0, cache@, disk@),
                    dir_blocks_readable(c0, *disk, *dinode),
                    link_slot(c0, disk@, *dinode, 0) == link_slot(c0, disk@, *dinode, block_idx * 16 + i),
                decreases 16 - i,
            {
                let e = read_dirent(&data, i * DIRENT_SIZE);
                let ghost k = block_idx * 16 + i;
                proof {
                    lemma_slot_index(block_idx as int, i as int);
                    assert(k < 192) by (nonlinear_arith)
                        requires
                            k == block_idx * 16 + i,
                            i < 16,
                            block_idx < 12,
                    ;
                    assert(slot_bytes(c0, disk@, *dinode, k) == data@.subrange(i * 32, i * 32 + 32));
                    assert(get_u32(slot_bytes(c0, disk@, *dinode, k), 0) == e.inum);
                }
                if e.inum == 0 {
                    let ghost cw = cache@;
                    proof {
                        lemma_grows_clean_content(c0, cw, disk@);
                        assert(link_slot(c0, disk@, *dinode, k) == Some(k));
                        assert(readable(c0, *disk, dinode.direct@[block_idx as int]));
                    }
                    let mut nd = cache.read_mut(disk, blk);
                    store_bytes(&mut nd, i * DIRENT_SIZE, entry);
                    cache.write(disk, blk, &nd);
                    return Ok(());
                }
                i = i + 1;
            }
            block_idx = block_idx + 1;
        }
        Err(DirError::DirectoryFull)
    }
}

} // verus!
