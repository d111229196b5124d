use vstd::prelude::*;
use vstd::utf8::{valid_utf8, encode_utf8};
use vstd::string::StringSliceAdditionalSpecFns;
use crate::jfs::block_cache::{BlockCache, CachedBlock, content, readable};
use crate::jfs::dir::{
    DirOps, DirError, ROOT_INUM, dir_lookup, dir_find, dir_inode_ok, dir_entries_ok, inode_blocks_ok, sb_ok,
    slot_bytes, slot_live, lemma_find_found, lemma_grows_clean_content, lemma_grows_clean_trans, lemma_find_own_blocks,
    lemma_put_bytes_disjoint, lemma_inode_slots, lemma_find_extend,
};
use crate::jfs::codec::{get_u32, put_bytes};
use crate::jfs::disk::{Block, FileDisk};
use crate::jfs::inode::{
    DiskInode, InodeOps, INODE_DIR, INODE_FILE, decodes_inode, encode_inode, inode_bytes, inode_block, inode_offset,
    inode_free, fresh_inode, inode_area_ok, cache_grows_clean, file_byte, readi_len, lemma_inode_roundtrip,
    blocks_distinct, blocks_marked, data_blocks, write_len, data_bitmap_full,
};
use crate::jfs::bitmap::bit_set;
use crate::jfs::block_cache::unchanged_except;
use crate::jfs::log::Journal;
use crate::jfs::superblock::Superblock;

verus! {

/// Why a file operation was refused.
#[derive(Debug, Clone, Copy, PartialEq, Eq)]
pub enum FsError {
    /// Every inode is in use.
    NoFreeInodes,
    /// No file of that name.
    NotFound,
    /// The directory refused the change.
    Dir(DirError),
    /// The file's bytes are not valid UTF-8.
    NotUtf8,
}

/// The text of a file error in operation `op` on the file `name`.
pub open spec fn fs_error_text(e: FsError, op: Seq<char>, name: Seq<char>) -> Seq<char> {
    match e {
        FsError::NoFreeInodes => op + ": no free inodes"@,
        FsError::NotFound => op + ": "@ + name + " not found"@,
        FsError::Dir(d) => crate::jfs::dir::dir_error_text(d, op, name),
        FsError::NotUtf8 => "utf8 error: invalid utf-8"@,
    }
}

impl FsError {
    /// The message for this error in operation `op` on the file `name`,
    /// such as "read: a not found"; a directory error reads as
    /// `DirError::message` says.
    pub fn message(&self, op: &str, name: &str) -> (s: String)
        ensures
            s@ == fs_error_text(*self, op@, name@),
    {
        match self {
            FsError::NoFreeInodes => String::from_str(op).concat(": no free inodes"),
            FsError::NotFound => String::from_str(op).concat(": ").concat(name).concat(" not found"),
            FsError::Dir(d) => d.message(op, name),
            FsError::NotUtf8 => String::from_str("utf8 error: invalid utf-8"),
        }
    }
}

/// The root directory can be searched and names only inodes in range whose
/// blocks lie in the data area, on a disk laid out as `sb` says.
pub open spec fn root_ok(c: Map<u32, CachedBlock>, disk: FileDisk, sb: Superblock) -> bool {
    &&& sb_ok(sb, disk)
    &&& dir_inode_ok(c, disk, sb, ROOT_INUM)
    &&& forall|di: DiskInode| #[trigger] decodes_inode(inode_bytes(c, disk@, sb, ROOT_INUM), di) && di.itype == INODE_DIR
        ==> inode_blocks_ok(di, sb) && dir_entries_ok(c, disk@, sb, di)
}

/// A root directory as `format` leaves it, with nothing cached: its inode
/// is a directory of one block, the first data block, which holds "." and
/// "..". Such an image satisfies `root_ok`.
pub proof fn lemma_fresh_root_ok(disk: FileDisk, sb: Superblock, di: DiskInode)
    requires
        sb_ok(sb, disk),
        sb.ninodes > ROOT_INUM,
        sb.data_start < sb.nblocks,
        decodes_inode(inode_bytes(Map::empty(), disk@, sb, ROOT_INUM), di),
        di.itype == INODE_DIR,
        di.size == 512,
        di.direct@ == Seq::new(12, |i: int| 0u32).update(0, sb.data_start),
        disk@[sb.data_start as int]@ == crate::jfs::dir::root_block(),
    ensures
        root_ok(Map::empty(), disk, sb),
{
    let c = Map::<u32, CachedBlock>::empty();
    crate::jfs::dir::lemma_root_block_slots();
    assert forall|dj: DiskInode| #[trigger] decodes_inode(inode_bytes(c, disk@, sb, ROOT_INUM), dj) && dj.itype == INODE_DIR
        implies dj.size / 512 <= 12 && crate::jfs::dir::dir_blocks_readable(c, disk, dj) && inode_blocks_ok(dj, sb)
            && dir_entries_ok(c, disk@, sb, dj) by {
        lemma_decode_unique(inode_bytes(c, disk@, sb, ROOT_INUM), dj, di);
        assert forall|i: int| 0 <= i < 12 && #[trigger] dj.direct@[i] != 0 implies readable(c, disk, dj.direct@[i]) by {
            assert(i == 0);
        }
        assert forall|i: int| 0 <= i < 12 && #[trigger] dj.direct@[i] != 0
            implies sb.data_start <= dj.direct@[i] < sb.nblocks && dj.direct@[i] - sb.data_start < 4096 by {
            assert(i == 0);
        }
        assert forall|k: int| 0 <= k < 192 && #[trigger] slot_live(c, disk@, dj, k) implies ({
            let ci = get_u32(slot_bytes(c, disk@, dj, k), 0);
            &&& 0 < ci < sb.ninodes
            &&& forall|cd: DiskInode| #[trigger] decodes_inode(inode_bytes(c, disk@, sb, ci), cd) ==> inode_blocks_ok(cd, sb)
        }) by {
            assert(k / 16 == 0);
            assert(slot_bytes(c, disk@, dj, k) == crate::jfs::dir::root_block().subrange(k * 32, k * 32 + 32));
            let ci = get_u32(slot_bytes(c, disk@, dj, k), 0);
            assert(ci == ROOT_INUM);
            assert forall|cd: DiskInode| #[trigger] decodes_inode(inode_bytes(c, disk@, sb, ci), cd) implies inode_blocks_ok(cd, sb) by {
                lemma_decode_unique(inode_bytes(c, disk@, sb, ROOT_INUM), cd, di);
                assert forall|i: int| 0 <= i < 12 && #[trigger] cd.direct@[i] != 0
                    implies sb.data_start <= cd.direct@[i] < sb.nblocks && cd.direct@[i] - sb.data_start < 4096 by {
                    assert(i == 0);
                }
            }
        }
    }
}

/// The inode that `name` has in the root directory of cache `c`.
pub open spec fn root_lookup(c: Map<u32, CachedBlock>, d: Seq<Block>, sb: Superblock, name: Seq<u8>) -> Option<u32> {
    let di = choose|di: DiskInode| decodes_inode(inode_bytes(c, d, sb, ROOT_INUM), di);
    dir_lookup(c, d, di, name)
}

/// An inode found in the root directory is in range and its blocks lie in
/// the data area.
pub proof fn lemma_lookup_child(c: Map<u32, CachedBlock>, disk: FileDisk, sb: Superblock, di: DiskInode, name: Seq<u8>)
    requires
        decodes_inode(inode_bytes(c, disk@, sb, ROOT_INUM), di),
        root_ok(c, disk, sb),
        dir_lookup(c, disk@, di, name) is Some,
    ensures
        ({
            let x = dir_lookup(c, disk@, di, name)->0;
            &&& 0 < x < sb.ninodes
            &&& forall|cd: DiskInode| #[trigger] decodes_inode(inode_bytes(c, disk@, sb, x), cd) ==> inode_blocks_ok(cd, sb)
        }),
{
    let n = (di.size / 512) * 16;
    lemma_find_found(c, disk@, di, name, 0, n);
    let k = dir_find(c, disk@, di, name, 0, n)->0;
    assert(slot_live(c, disk@, di, k));
    assert(n <= 192);
}

/// Two decodings of the same inode bytes agree.
pub proof fn lemma_decode_unique(b: Seq<u8>, d1: DiskInode, d2: DiskInode)
    requires
        decodes_inode(b, d1),
        decodes_inode(b, d2),
    ensures
        d1.itype == d2.itype,
        d1.nlink == d2.nlink,
        d1.size == d2.size,
        d1.direct@ == d2.direct@,
{
    assert(d1.direct@ =~= d2.direct@);
}

/// A decoding of some bytes exists.
pub proof fn lemma_decode_exists(b: Seq<u8>) -> (d: DiskInode)
    ensures
        decodes_inode(b, d),
{
    let d = DiskInode {
        itype: crate::jfs::codec::get_u16(b, 0),
        nlink: crate::jfs::codec::get_u16(b, 2),
        size: get_u32(b, 4),
        direct: [get_u32(b, 8), get_u32(b, 12), get_u32(b, 16), get_u32(b, 20), get_u32(b, 24), get_u32(b, 28),
            get_u32(b, 32), get_u32(b, 36), get_u32(b, 40), get_u32(b, 44), get_u32(b, 48), get_u32(b, 52)],
    };
    assert forall|i: int| 0 <= i < 12 implies #[trigger] d.direct@[i] == get_u32(b, 8 + 4 * i) by {
        assert(d.direct@[i] == d.direct[i]);
    }
    d
}

/// `String::from_utf8`: the text whose UTF-8 encoding is `bytes`, when they
/// are valid UTF-8; claimed: it succeeds exactly on valid UTF-8 and then
/// keeps the bytes.
#[verifier::external_body]
fn utf8_string(bytes: Vec<u8>) -> (r: Option<String>)
    ensures
        r.is_some() <==> valid_utf8(bytes@),
        r.is_some() ==> encode_utf8(r->0@) == bytes@,
{
    String::from_utf8(bytes).ok()
}

/// The inode that cache `c` holds for `inum`.
pub open spec fn inode_in(c: Map<u32, CachedBlock>, d: Seq<Block>, sb: Superblock, inum: u32) -> DiskInode {
    choose|cd: DiskInode| decodes_inode(inode_bytes(c, d, sb, inum), cd)
}

/// The file that `name` names in the root directory, if any, has distinct
/// data blocks, each marked in use in the data bitmap and none of them a
/// block of the root directory, whose blocks are marked in use too.
pub open spec fn file_blocks_ok(c: Map<u32, CachedBlock>, d: Seq<Block>, sb: Superblock, name: Seq<u8>) -> bool {
    match root_lookup(c, d, sb, name) {
        None => true,
        Some(inum) => {
            let cd = inode_in(c, d, sb, inum);
            let rd = inode_in(c, d, sb, ROOT_INUM);
            let bm = content(c, d, sb.data_bitmap)@;
            &&& blocks_distinct(cd)
            &&& blocks_marked(cd, sb, bm)
            &&& blocks_marked(rd, sb, bm)
            &&& forall|i: int, j: int| 0 <= i < 12 && 0 <= j < 12 && #[trigger] cd.direct@[i] != 0 ==> cd.direct@[i] != #[trigger] rd.direct@[j]
        },
    }
}

/// A cache that only gained clean copies of disk blocks keeps the root
/// directory in order and leaves every file's blocks as they were judged.
pub proof fn lemma_grows_clean_keeps(c0: Map<u32, CachedBlock>, c1: Map<u32, CachedBlock>, disk: FileDisk, sb: Superblock, name: Seq<u8>)
    requires
        cache_grows_clean(c0, c1, disk@),
        root_ok(c0, disk, sb),
    ensures
        root_ok(c1, disk, sb),
        file_blocks_ok(c1, disk@, sb, name) == file_blocks_ok(c0, disk@, sb, name),
{
    lemma_grows_clean_content(c0, c1, disk@);
    let d = disk@;
    assert forall|i: u32| #[trigger] inode_bytes(c1, d, sb, i) == inode_bytes(c0, d, sb, i) by {
        assert(content(c1, d, inode_block(sb, i) as u32) == content(c0, d, inode_block(sb, i) as u32));
    }
    assert forall|di: DiskInode, k: int| #[trigger] slot_bytes(c1, d, di, k) == slot_bytes(c0, d, di, k) by {
        assert(content(c1, d, di.direct@[k / 16]) == content(c0, d, di.direct@[k / 16]));
    }
    assert forall|di: DiskInode| #[trigger] decodes_inode(inode_bytes(c1, d, sb, ROOT_INUM), di) && di.itype == INODE_DIR
        implies di.size / 512 <= 12 && crate::jfs::dir::dir_blocks_readable(c1, disk, di) && inode_blocks_ok(di, sb)
            && dir_entries_ok(c1, d, sb, di) by {
        assert(decodes_inode(inode_bytes(c0, d, sb, ROOT_INUM), di));
        assert forall|i: int| 0 <= i < 12 && #[trigger] di.direct@[i] != 0 implies readable(c1, disk, di.direct@[i]) by {
            assert(readable(c0, disk, di.direct@[i]));
        }
        assert forall|k: int| 0 <= k < 192 && #[trigger] slot_live(c1, d, di, k) implies ({
            let ci = get_u32(slot_bytes(c1, d, di, k), 0);
            &&& 0 < ci < sb.ninodes
            &&& forall|cd: DiskInode| #[trigger] decodes_inode(inode_bytes(c1, d, sb, ci), cd) ==> inode_blocks_ok(cd, sb)
        }) by {
            assert(slot_bytes(c1, d, di, k) == slot_bytes(c0, d, di, k));
            assert(slot_live(c0, d, di, k));
            let ci = get_u32(slot_bytes(c0, d, di, k), 0);
            assert(inode_bytes(c1, d, sb, ci) == inode_bytes(c0, d, sb, ci));
        }
    }
    assert(readable(c1, disk, inode_block(sb, ROOT_INUM) as u32));
    let di = lemma_decode_exists(inode_bytes(c0, d, sb, ROOT_INUM));
    let rdi = choose|x: DiskInode| decodes_inode(inode_bytes(c0, d, sb, ROOT_INUM), x);
    assert(inode_bytes(c1, d, sb, ROOT_INUM) == inode_bytes(c0, d, sb, ROOT_INUM));
    if rdi.itype == INODE_DIR {
        lemma_find_own_blocks(c1, c0, d, rdi, name, 0, (rdi.size / 512) * 16);
    }
    assert(root_lookup(c1, d, sb, name) == root_lookup(c0, d, sb, name));
    assert(content(c1, d, sb.data_bitmap) == content(c0, d, sb.data_bitmap));
    match root_lookup(c0, d, sb, name) {
        Some(inum) => {
            assert(inode_bytes(c1, d, sb, inum) == inode_bytes(c0, d, sb, inum));
            assert(inode_in(c1, d, sb, inum) == inode_in(c0, d, sb, inum));
            assert(inode_in(c1, d, sb, ROOT_INUM) == inode_in(c0, d, sb, ROOT_INUM));
        },
        None => {},
    }
}

/// Whether the non-zero blocks of `di` lie in the data area of `sb`, in
/// reach of the data bitmap, and are marked in use there.
fn check_marked(cache: &mut BlockCache, disk: &FileDisk, sb: &Superblock, di: &DiskInode) -> (b: bool)
    requires
        readable(old(cache)@, *disk, sb.data_bitmap),
    ensures
        b == blocks_marked(*di, *sb, content(old(cache)@, disk@, sb.data_bitmap)@),
        cache_grows_clean(old(cache)@, final(cache)@, disk@),
{
    let ghost c0 = cache@;
    let ghost bm = content(c0, disk@, sb.data_bitmap)@;
    let mut i: usize = 0;
    while i < 12
        invariant
            i <= 12,
            cache_grows_clean(c0, cache@, disk@),
            readable(cache@, *disk, sb.data_bitmap),
            content(cache@, disk@, sb.data_bitmap)@ == bm,
            bm == content(old(cache)@, disk@, sb.data_bitmap)@,
            c0 == old(cache)@,
            forall|j: int| 0 <= j < i && #[trigger] di.direct@[j] != 0 ==> {
                &&& sb.data_start <= di.direct@[j] < sb.nblocks
                &&& di.direct@[j] - sb.data_start < 4096
                &&& bit_set(bm, di.direct@[j] - sb.data_start)
            },
        decreases 12 - i,
    {
        let x = di.direct[i];
        if x != 0 {
            if x < sb.data_start || x >= sb.nblocks || x - sb.data_start >= 4096 {
                return false;
            }
            let ghost cb = cache@;
            let set = crate::jfs::bitmap::Bitmap::is_allocated(cache, disk, sb.data_bitmap, x - sb.data_start);
            proof {
                lemma_grows_clean_trans(c0, cb, cache@, disk@);
                lemma_grows_clean_content(cb, cache@, disk@);
            }
            if !set {
                return false;
            }
        }
        i = i + 1;
    }
    true
}

/// Whether the non-zero blocks of `di` lie in the data area of `sb`, in
/// reach of the data bitmap.
fn check_in_area(di: &DiskInode, sb: &Superblock) -> (b: bool)
    ensures
        b == inode_blocks_ok(*di, *sb),
{
    let mut i: usize = 0;
    while i < 12
        invariant
            i <= 12,
            forall|j: int| 0 <= j < i && #[trigger] di.direct@[j] != 0
                ==> sb.data_start <= di.direct@[j] < sb.nblocks && di.direct@[j] - sb.data_start < 4096,
        decreases 12 - i,
    {
        let x = di.direct[i];
        if x != 0 && (x < sb.data_start || x >= sb.nblocks || x - sb.data_start >= 4096) {
            return false;
        }
        i = i + 1;
    }
    true
}

/// Whether the non-zero blocks of `di` are distinct.
fn check_distinct(di: &DiskInode) -> (b: bool)
    ensures
        b == blocks_distinct(*di),
{
    let mut i: usize = 0;
    while i < 12
        invariant
            i <= 12,
            forall|a: int, c: int| 0 <= a < i && 0 <= c < 12 && a != c && #[trigger] di.direct@[a] != 0 ==> di.direct@[a] != #[trigger] di.direct@[c],
        decreases 12 - i,
    {
        let mut j: usize = 0;
        while j < 12
            invariant
                i < 12,
                j <= 12,
                forall|a: int, c: int| 0 <= a < i && 0 <= c < 12 && a != c && #[trigger] di.direct@[a] != 0 ==> di.direct@[a] != #[trigger] di.direct@[c],
                forall|c: int| 0 <= c < j && i != c && di.direct@[i as int] != 0 ==> di.direct@[i as int] != #[trigger] di.direct@[c],
            decreases 12 - j,
        {
            if i != j && di.direct[i] != 0 && di.direct[i] == di.direct[j] {
                return false;
            }
            j = j + 1;
        }
        i = i + 1;
    }
    true
}

/// Whether no non-zero block of `cd` is one of the blocks of `rd`.
fn check_disjoint(cd: &DiskInode, rd: &DiskInode) -> (b: bool)
    ensures
        b == (forall|i: int, j: int| 0 <= i < 12 && 0 <= j < 12 && #[trigger] cd.direct@[i] != 0 ==> cd.direct@[i] != #[trigger] rd.direct@[j]),
{
    let mut i: usize = 0;
    while i < 12
        invariant
            i <= 12,
            forall|a: int, c: int| 0 <= a < i && 0 <= c < 12 && #[trigger] cd.direct@[a] != 0 ==> cd.direct@[a] != #[trigger] rd.direct@[c],
        decreases 12 - i,
    {
        let mut j: usize = 0;
        while j < 12
            invariant
                i < 12,
                j <= 12,
                forall|a: int, c: int| 0 <= a < i && 0 <= c < 12 && #[trigger] cd.direct@[a] != 0 ==> cd.direct@[a] != #[trigger] rd.direct@[c],
                forall|c: int| 0 <= c < j && cd.direct@[i as int] != 0 ==> cd.direct@[i as int] != #[trigger] rd.direct@[c],
            decreases 12 - j,
        {
            if cd.direct[i] != 0 && cd.direct[i] == rd.direct[j] {
                return false;
            }
            j = j + 1;
        }
        i = i + 1;
    }
    true
}

/// A live slot of a directory whose 32 bytes are those of the slot in an
/// earlier cache, or the new entry, or zeros, names an inode in range with
/// its blocks in the data area, when the earlier one did and the inodes
/// are as before but for the new one, which has no blocks, and the root.
proof fn lemma_entry_still_ok(
    c0: Map<u32, CachedBlock>,
    c2: Map<u32, CachedBlock>,
    d: Seq<Block>,
    sb: Superblock,
    bytes: Seq<u8>,
    inum: u32,
)
    requires
        1 <= inum < sb.ninodes,
        get_u32(bytes, 0) != 0,
        get_u32(bytes, 0) == inum || ({
            let ci = get_u32(bytes, 0);
            &&& 0 < ci < sb.ninodes
            &&& forall|cd: DiskInode| #[trigger] decodes_inode(inode_bytes(c0, d, sb, ci), cd) ==> inode_blocks_ok(cd, sb)
        }),
        forall|cd: DiskInode| #[trigger] decodes_inode(inode_bytes(c2, d, sb, inum), cd) ==> fresh_inode(cd, INODE_FILE),
        forall|cd: DiskInode| #[trigger] decodes_inode(inode_bytes(c2, d, sb, ROOT_INUM), cd) ==> inode_blocks_ok(cd, sb),
        forall|j: u32| j != inum && j != ROOT_INUM && j < sb.ninodes ==> #[trigger] inode_bytes(c2, d, sb, j) == inode_bytes(c0, d, sb, j),
    ensures
        ({
            let ci = get_u32(bytes, 0);
            &&& 0 < ci < sb.ninodes
            &&& forall|cd: DiskInode| #[trigger] decodes_inode(inode_bytes(c2, d, sb, ci), cd) ==> inode_blocks_ok(cd, sb)
        }),
{
    let ci = get_u32(bytes, 0);
    assert forall|cd: DiskInode| #[trigger] decodes_inode(inode_bytes(c2, d, sb, ci), cd) implies inode_blocks_ok(cd, sb) by {
        if ci == inum {
            assert(fresh_inode(cd, INODE_FILE));
            assert forall|i: int| 0 <= i < 12 && #[trigger] cd.direct@[i] != 0 implies sb.data_start <= cd.direct@[i] < sb.nblocks
                && cd.direct@[i] - sb.data_start < 4096 by {
                assert(cd.direct@[i] == 0u32);
            }
        } else if ci != ROOT_INUM {
            assert(inode_bytes(c2, d, sb, ci) == inode_bytes(c0, d, sb, ci));
        }
    }
}

/// A successful create keeps the root directory in order: the new entry
/// names the new inode, which has no blocks, and a new directory block lies
/// in the data area.
#[verifier::rlimit(100)]
#[verifier::spinoff_prover]
pub proof fn lemma_create_keeps_root(
    c0: Map<u32, CachedBlock>,
    c1: Map<u32, CachedBlock>,
    c2: Map<u32, CachedBlock>,
    disk: FileDisk,
    sb: Superblock,
    name: Seq<u8>,
    inum: u32,
)
    requires
        root_ok(c0, disk, sb),
        created_inode(c0, c1, disk@, sb, inum),
        crate::jfs::dir::link_outcome(c1, c2, disk@, sb, ROOT_INUM, name, inum, Ok::<(), DirError>(())),
    ensures
        root_ok(c2, disk, sb),
{
    let d = disk@;
    let r1 = lemma_decode_exists(inode_bytes(c1, d, sb, ROOT_INUM));
    assert(r1.itype == INODE_DIR);
    if inum == ROOT_INUM {
        assert(fresh_inode(r1, INODE_FILE));
        assert(false);
    }
    assert(inode_bytes(c1, d, sb, ROOT_INUM) == inode_bytes(c0, d, sb, ROOT_INUM));
    assert(decodes_inode(inode_bytes(c0, d, sb, ROOT_INUM), r1));
    assert(inode_blocks_ok(r1, sb) && dir_entries_ok(c0, d, sb, r1) && r1.size / 512 <= 12);
    let ib = inode_block(sb, inum) as u32;
    let rb = inode_block(sb, ROOT_INUM) as u32;
    assert forall|x: u32| sb.data_start <= x < d.len() implies #[trigger] content(c1, d, x) == content(c0, d, x) by {
        assert(!set![ib].contains(x));
    }
    assert forall|j: u32| j != inum && j < sb.ninodes implies #[trigger] inode_bytes(c1, d, sb, j) == inode_bytes(c0, d, sb, j) by {}
    crate::jfs::dir::lemma_link_slot_range(c1, d, r1, 0);
    let k = crate::jfs::dir::link_slot(c1, d, r1, 0)->0;
    let b = r1.direct@[k / 16];
    let entry = crate::jfs::dir::new_dirent_bytes(inum, name);
    lemma_new_entry(inum, name);
    if b != 0 {
        assert(sb.data_start <= b < sb.nblocks);
        assert(unchanged_except(c1, c2, d, set![b]));
        assert(content(c2, d, b)@ == put_bytes(content(c1, d, b)@, (k % 16) * 32, entry));
        assert(content(c2, d, rb) == content(c1, d, rb));
        assert(inode_bytes(c2, d, sb, ROOT_INUM) == inode_bytes(c0, d, sb, ROOT_INUM));
        assert forall|j: u32| j < sb.ninodes implies #[trigger] inode_bytes(c2, d, sb, j) == inode_bytes(c1, d, sb, j) by {
            assert(content(c2, d, inode_block(sb, j) as u32) == content(c1, d, inode_block(sb, j) as u32));
        }
        assert forall|dj: DiskInode| #[trigger] decodes_inode(inode_bytes(c2, d, sb, ROOT_INUM), dj) && dj.itype == INODE_DIR
            implies dj.size / 512 <= 12 && crate::jfs::dir::dir_blocks_readable(c2, disk, dj) && inode_blocks_ok(dj, sb)
                && dir_entries_ok(c2, d, sb, dj) by {
            lemma_decode_unique(inode_bytes(c2, d, sb, ROOT_INUM), dj, r1);
            assert forall|i: int| 0 <= i < 12 && #[trigger] dj.direct@[i] != 0 implies readable(c2, disk, dj.direct@[i]) by {
                assert(r1.direct@[i] != 0);
            }
            assert forall|i: int| 0 <= i < 12 && #[trigger] dj.direct@[i] != 0
                implies sb.data_start <= dj.direct@[i] < sb.nblocks && dj.direct@[i] - sb.data_start < 4096 by {
                assert(r1.direct@[i] != 0);
            }
            assert forall|j: int| 0 <= j < 192 && #[trigger] slot_live(c2, d, dj, j) implies ({
                let ci = get_u32(slot_bytes(c2, d, dj, j), 0);
                &&& 0 < ci < sb.ninodes
                &&& forall|cd: DiskInode| #[trigger] decodes_inode(inode_bytes(c2, d, sb, ci), cd) ==> inode_blocks_ok(cd, sb)
            }) by {
                let bj = r1.direct@[j / 16];
                let sl = slot_bytes(c2, d, dj, j);
                assert(sl == slot_bytes(c2, d, r1, j));
                assert(content(c1, d, b)@.len() == 512);
                if bj == b && j % 16 == k % 16 {
                    assert(sl =~= entry);
                } else {
                    if bj == b {
                        assert(sl =~= slot_bytes(c1, d, r1, j));
                    } else {
                        assert(content(c2, d, bj) == content(c1, d, bj));
                    }
                    assert(sl == slot_bytes(c0, d, r1, j));
                    assert(slot_live(c0, d, r1, j));
                }
                lemma_entry_still_ok(c0, c2, d, sb, sl, inum);
            }
        }
    } else {
        let bm = content(c1, d, sb.data_bitmap)@;
        let nb = choose|nb: u32|
            #![trigger content(c2, d, nb)]
            {
                &&& sb.data_start <= nb < sb.nblocks
                &&& !bit_set(bm, nb - sb.data_start)
                &&& forall|j: int| 0 <= j < nb - sb.data_start ==> #[trigger] bit_set(bm, j)
                &&& content(c2, d, nb)@ == put_bytes(Seq::new(512, |i: int| 0u8), 0, entry)
                &&& forall|di2: DiskInode| #[trigger] decodes_inode(inode_bytes(c2, d, sb, ROOT_INUM), di2)
                    ==> {
                    &&& di2.direct@ == r1.direct@.update(k / 16, nb)
                    &&& di2.size == crate::jfs::dir::grown_size(k / 16)
                    &&& di2.itype == r1.itype
                    &&& di2.nlink == r1.nlink
                }
                &&& unchanged_except(c1, c2, d, set![nb, sb.data_bitmap, inode_block(sb, ROOT_INUM) as u32])
                &&& forall|j: u32| j != ROOT_INUM && j < sb.ninodes ==> #[trigger] inode_bytes(c2, d, sb, j) == inode_bytes(c1, d, sb, j)
            };
        let ndata = sb.nblocks - sb.data_start;
        let bits = if ndata < 4096 { ndata } else { 4096 };
        assert(nb - sb.data_start < 4096) by {
            let j0 = choose|j: int| 0 <= j < bits && !#[trigger] bit_set(bm, j);
            assert(!(forall|j: int| 0 <= j < bits ==> #[trigger] bit_set(bm, j)));
            if nb - sb.data_start > j0 {
                assert(bit_set(bm, j0));
            }
        }
        let nz = Seq::new(512, |i: int| 0u8);
        let newblk = put_bytes(nz, 0, entry);
        assert forall|j: int| 0 <= j < 16 implies #[trigger] get_u32(newblk.subrange(j * 32, j * 32 + 32), 0)
            == if j == 0 { inum } else { 0u32 } by {
            if j == 0 {
                assert(newblk.subrange(0, 32) =~= entry);
            } else {
                let t = newblk.subrange(j * 32, j * 32 + 32);
                assert(t[0] == 0u8 && t[1] == 0u8 && t[2] == 0u8 && t[3] == 0u8);
            }
        }
        assert forall|dj: DiskInode| #[trigger] decodes_inode(inode_bytes(c2, d, sb, ROOT_INUM), dj)
            implies inode_blocks_ok(dj, sb) by {
            assert forall|i: int| 0 <= i < 12 && #[trigger] dj.direct@[i] != 0
                implies sb.data_start <= dj.direct@[i] < sb.nblocks && dj.direct@[i] - sb.data_start < 4096 by {
                if i != k / 16 {
                    assert(r1.direct@[i] != 0);
                }
            }
        }
        assert forall|dj: DiskInode| #[trigger] decodes_inode(inode_bytes(c2, d, sb, ROOT_INUM), dj) && dj.itype == INODE_DIR
            implies dj.size / 512 <= 12 && crate::jfs::dir::dir_blocks_readable(c2, disk, dj) && inode_blocks_ok(dj, sb)
                && dir_entries_ok(c2, d, sb, dj) by {
            assert(dj.size / 512 == k / 16 + 1);
            assert forall|i: int| 0 <= i < 12 && #[trigger] dj.direct@[i] != 0 implies readable(c2, disk, dj.direct@[i]) by {
                if i != k / 16 {
                    assert(r1.direct@[i] != 0);
                }
            }
            assert forall|j: int| 0 <= j < 192 && #[trigger] slot_live(c2, d, dj, j) implies ({
                let ci = get_u32(slot_bytes(c2, d, dj, j), 0);
                &&& 0 < ci < sb.ninodes
                &&& forall|cd: DiskInode| #[trigger] decodes_inode(inode_bytes(c2, d, sb, ci), cd) ==> inode_blocks_ok(cd, sb)
            }) by {
                let bj = dj.direct@[j / 16];
                let sl = slot_bytes(c2, d, dj, j);
                if bj == nb {
                    assert(sl == newblk.subrange((j % 16) * 32, (j % 16) * 32 + 32));
                } else {
                    assert(j / 16 != k / 16);
                    assert(bj == r1.direct@[j / 16]);
                    assert(sb.data_start <= bj);
                    assert(!set![nb, sb.data_bitmap, rb].contains(bj));
                    assert(content(c2, d, bj) == content(c1, d, bj));
                    assert(sl == slot_bytes(c0, d, r1, j));
                    assert(slot_live(c0, d, r1, j));
                }
                assert forall|jj: u32| jj != inum && jj != ROOT_INUM && jj < sb.ninodes implies #[trigger] inode_bytes(c2, d, sb, jj) == inode_bytes(c0, d, sb, jj) by {}
                assert forall|cd: DiskInode| #[trigger] decodes_inode(inode_bytes(c2, d, sb, inum), cd) implies fresh_inode(cd, INODE_FILE) by {
                    assert(inode_bytes(c2, d, sb, inum) == inode_bytes(c1, d, sb, inum));
                }
                lemma_entry_still_ok(c0, c2, d, sb, sl, inum);
            }
        }
    }
}

/// The bump of a rename: only the block of inode `inum` changes, and its
/// link count goes up by one.
proof fn lemma_rename_bump_step(
    c0: Map<u32, CachedBlock>,
    cl: Map<u32, CachedBlock>,
    c3: Map<u32, CachedBlock>,
    d: Seq<Block>,
    sb: Superblock,
    inum: u32,
    cd: DiskInode,
)
    requires
        inum != ROOT_INUM,
        0 < inum < sb.ninodes,
        sb.data_bitmap < sb.inode_start,
        sb.inode_start + (sb.ninodes - 1) / 8 < sb.data_start,
        sb.data_start <= d.len(),
        cache_grows_clean(c0, cl, d),
        bumped(cl, c3, d, sb, inum),
        decodes_inode(inode_bytes(c0, d, sb, inum), cd),
        1 <= cd.nlink < 65535,
    ensures
        inode_bytes(c3, d, sb, ROOT_INUM) == inode_bytes(c0, d, sb, ROOT_INUM),
        content(c3, d, sb.data_bitmap) == content(c0, d, sb.data_bitmap),
        forall|x: u32| sb.data_start <= x < d.len() ==> #[trigger] content(c3, d, x) == content(c0, d, x),
        forall|cd3: DiskInode| #[trigger] decodes_inode(inode_bytes(c3, d, sb, inum), cd3) ==> cd3.nlink >= 2,
{
    lemma_grows_clean_content(c0, cl, d);
    let ib = inode_block(sb, inum) as u32;
    assert(inode_bytes(cl, d, sb, ROOT_INUM) == inode_bytes(c0, d, sb, ROOT_INUM));
    assert(inode_bytes(cl, d, sb, inum) == inode_bytes(c0, d, sb, inum));
    assert(!set![ib].contains(sb.data_bitmap));
    assert(content(cl, d, sb.data_bitmap) == content(c0, d, sb.data_bitmap));
    assert forall|x: u32| sb.data_start <= x < d.len() implies #[trigger] content(c3, d, x) == content(c0, d, x) by {
        assert(!set![ib].contains(x));
        assert(content(cl, d, x) == content(c0, d, x));
    }
}

/// The unlink of a rename, of a name whose inode keeps a link: the bitmap
/// and the root inode stay, and of the data area only blocks of the root
/// directory change.
proof fn lemma_rename_unlink_step(
    c3: Map<u32, CachedBlock>,
    c4: Map<u32, CachedBlock>,
    d: Seq<Block>,
    sb: Superblock,
    old_name: Seq<u8>,
    inum: u32,
    rd: DiskInode,
)
    requires
        inum != ROOT_INUM,
        sb.data_bitmap < sb.data_start,
        sb.inode_start + (sb.ninodes - 1) / 8 < sb.data_start,
        inum < sb.ninodes,
        crate::jfs::dir::unlink_outcome(c3, c4, d, sb, ROOT_INUM, old_name, Ok::<u32, DirError>(inum)),
        decodes_inode(inode_bytes(c3, d, sb, ROOT_INUM), rd),
        rd.itype == INODE_DIR,
        forall|cd3: DiskInode| #[trigger] decodes_inode(inode_bytes(c3, d, sb, inum), cd3) ==> cd3.nlink >= 2,
    ensures
        inode_bytes(c4, d, sb, ROOT_INUM) == inode_bytes(c3, d, sb, ROOT_INUM),
        content(c4, d, sb.data_bitmap) == content(c3, d, sb.data_bitmap),
        forall|x: u32| sb.data_start <= x < d.len() && (forall|j: int| 0 <= j < 12 ==> #[trigger] rd.direct@[j] != x)
            ==> #[trigger] content(c4, d, x) == content(c3, d, x),
{
    let k = dir_find(c3, d, rd, old_name, 0, 192)->0;
    lemma_find_found(c3, d, rd, old_name, 0, 192);
    let blk = rd.direct@[k / 16];
    let ib = inode_block(sb, inum) as u32;
    let cd3 = lemma_decode_exists(inode_bytes(c3, d, sb, inum));
    let cd4 = lemma_decode_exists(inode_bytes(c4, d, sb, inum));
    assert(crate::jfs::dir::link_dropped(cd3, cd4, content(c3, d, sb.data_bitmap)@, content(c4, d, sb.data_bitmap)@, sb.data_start));
    assert(content(c4, d, sb.data_bitmap)@ == content(c3, d, sb.data_bitmap)@);
    assert forall|x: u32| sb.data_start <= x < d.len() && (forall|j: int| 0 <= j < 12 ==> #[trigger] rd.direct@[j] != x)
        implies #[trigger] content(c4, d, x) == content(c3, d, x) by {
        assert(rd.direct@[k / 16] != x);
        assert(!set![blk, ib, sb.data_bitmap].contains(x));
    }
}

/// The link of a rename: of the data area, only blocks of the root
/// directory and one block free in the bitmap change.
proof fn lemma_rename_link_step(
    c4: Map<u32, CachedBlock>,
    c5: Map<u32, CachedBlock>,
    d: Seq<Block>,
    sb: Superblock,
    new_name: Seq<u8>,
    inum: u32,
    rd: DiskInode,
)
    requires
        sb.data_bitmap < sb.data_start,
        sb.inode_start + (sb.ninodes - 1) / 8 < sb.data_start,
        sb.ninodes >= 1,
        crate::jfs::dir::link_outcome(c4, c5, d, sb, ROOT_INUM, new_name, inum, Ok::<(), DirError>(())),
        decodes_inode(inode_bytes(c4, d, sb, ROOT_INUM), rd),
    ensures
        forall|x: u32| sb.data_start <= x < d.len() && (forall|j: int| 0 <= j < 12 ==> #[trigger] rd.direct@[j] != x)
            && bit_set(content(c4, d, sb.data_bitmap)@, x - sb.data_start)
            ==> #[trigger] content(c5, d, x) == content(c4, d, x),
{
    crate::jfs::dir::lemma_link_slot_range(c4, d, rd, 0);
    let k = crate::jfs::dir::link_slot(c4, d, rd, 0)->0;
    let b = rd.direct@[k / 16];
    let rb = inode_block(sb, ROOT_INUM) as u32;
    assert forall|x: u32| sb.data_start <= x < d.len() && (forall|j: int| 0 <= j < 12 ==> #[trigger] rd.direct@[j] != x)
        && bit_set(content(c4, d, sb.data_bitmap)@, x - sb.data_start)
        implies #[trigger] content(c5, d, x) == content(c4, d, x) by {
        if b != 0 {
            assert(rd.direct@[k / 16] != x);
            assert(!set![b].contains(x));
        } else {
            let nb = choose|nb: u32|
                #![trigger content(c5, d, nb)]
                {
                    &&& sb.data_start <= nb < sb.nblocks
                    &&& !bit_set(content(c4, d, sb.data_bitmap)@, nb - sb.data_start)
                    &&& forall|j: int| 0 <= j < nb - sb.data_start ==> #[trigger] bit_set(content(c4, d, sb.data_bitmap)@, j)
                    &&& content(c5, d, nb)@ == put_bytes(Seq::new(512, |i: int| 0u8), 0, crate::jfs::dir::new_dirent_bytes(inum, new_name))
                    &&& forall|di2: DiskInode| #[trigger] decodes_inode(inode_bytes(c5, d, sb, ROOT_INUM), di2)
                        ==> {
                        &&& di2.direct@ == rd.direct@.update(k / 16, nb)
                        &&& di2.size == crate::jfs::dir::grown_size(k / 16)
                        &&& di2.itype == rd.itype
                        &&& di2.nlink == rd.nlink
                    }
                    &&& unchanged_except(c4, c5, d, set![nb, sb.data_bitmap, inode_block(sb, ROOT_INUM) as u32])
                    &&& forall|j: u32| j != ROOT_INUM && j < sb.ninodes ==> #[trigger] inode_bytes(c5, d, sb, j) == inode_bytes(c4, d, sb, j)
                };
            assert(nb != x);
            assert(x != rb);
            assert(x != sb.data_bitmap);
            assert(!set![nb, sb.data_bitmap, rb].contains(x));
            assert(content(c5, d, x) == content(c4, d, x));
        }
    }
}

/// What a write of `n` bytes at `offset` leaves of inode `cd` as `cd2`:
/// the size grows to cover the write, type and links stay, allocated
/// blocks stay.
pub open spec fn inode_after_write(cd: DiskInode, cd2: DiskInode, offset: int, n: int) -> bool {
    &&& cd2.size == (if cd.size < offset + n { offset + n } else { cd.size as int })
    &&& cd2.itype == cd.itype
    &&& cd2.nlink == cd.nlink
    &&& forall|i: int| 0 <= i < 12 && #[trigger] cd.direct@[i] != 0 ==> cd2.direct@[i] == cd.direct@[i]
}

/// `c2` is `c` with inode `inum`, the lowest free one from 1 on, made a new
/// file inode, and nothing else changed.
pub open spec fn created_inode(c: Map<u32, CachedBlock>, c2: Map<u32, CachedBlock>, d: Seq<Block>, sb: Superblock, inum: u32) -> bool {
    &&& 1 <= inum < sb.ninodes
    &&& inode_free(c, d, sb, inum)
    &&& forall|j: u32| 1 <= j < inum ==> !#[trigger] inode_free(c, d, sb, j)
    &&& forall|cd: DiskInode| #[trigger] decodes_inode(inode_bytes(c2, d, sb, inum), cd) ==> fresh_inode(cd, INODE_FILE)
    &&& forall|j: u32| j != inum && inode_block(sb, j) < d.len() ==> #[trigger] inode_bytes(c2, d, sb, j) == inode_bytes(c, d, sb, j)
    &&& unchanged_except(c, c2, d, set![inode_block(sb, inum) as u32])
}

/// `c3` is `c1` with one more link (wrapping at 65535) on inode `inum`,
/// and nothing else changed.
pub open spec fn bumped(c1: Map<u32, CachedBlock>, c3: Map<u32, CachedBlock>, d: Seq<Block>, sb: Superblock, inum: u32) -> bool {
    &&& forall|cd: DiskInode, cd3: DiskInode|
        #[trigger] decodes_inode(inode_bytes(c1, d, sb, inum), cd) && #[trigger] decodes_inode(inode_bytes(c3, d, sb, inum), cd3)
        ==> {
            &&& cd3.nlink == (if cd.nlink == 65535 { 0 } else { cd.nlink + 1 })
            &&& cd3.itype == cd.itype
            &&& cd3.size == cd.size
            &&& cd3.direct@ == cd.direct@
        }
    &&& forall|j: u32| j != inum && j < sb.ninodes ==> #[trigger] inode_bytes(c3, d, sb, j) == inode_bytes(c1, d, sb, j)
    &&& unchanged_except(c1, c3, d, set![inode_block(sb, inum) as u32])
}

/// The inode `inum` gets one more link and is linked under `name` (see
/// `DirOps::link`), from cache `c1` to `c2`, with result `r`.
pub open spec fn relinked(c1: Map<u32, CachedBlock>, c2: Map<u32, CachedBlock>, d: Seq<Block>, sb: Superblock, inum: u32, name: Seq<u8>, r: Result<(), FsError>) -> bool {
    exists|c3: Map<u32, CachedBlock>| {
        &&& #[trigger] bumped(c1, c3, d, sb, inum)
        &&& crate::jfs::dir::link_outcome(c3, c2, d, sb, ROOT_INUM, name, inum,
            match r {
                Err(FsError::Dir(e)) => Err::<(), DirError>(e),
                _ => Ok::<(), DirError>(()),
            })
        &&& r is Err ==> r->Err_0 is Dir
    }
}

/// Every directory decoding of the root inode in `c2` has the size and
/// blocks of the root inode in `c`, which is a directory.
pub open spec fn root_shape_kept(c: Map<u32, CachedBlock>, c2: Map<u32, CachedBlock>, d: Seq<Block>, sb: Superblock) -> bool {
    forall|di: DiskInode, di2: DiskInode|
        #[trigger] decodes_inode(inode_bytes(c, d, sb, ROOT_INUM), di)
        && #[trigger] decodes_inode(inode_bytes(c2, d, sb, ROOT_INUM), di2) && di2.itype == INODE_DIR
        ==> di.itype == INODE_DIR && di2.size == di.size && di2.direct@ == di.direct@
}

/// A root inode of kept shape can still be searched and linked into.
pub proof fn lemma_root_kept_ok(c: Map<u32, CachedBlock>, c2: Map<u32, CachedBlock>, disk: FileDisk, sb: Superblock)
    requires
        root_ok(c, disk, sb),
        root_shape_kept(c, c2, disk@, sb),
    ensures
        dir_inode_ok(c2, disk, sb, ROOT_INUM),
{
    let di = lemma_decode_exists(inode_bytes(c, disk@, sb, ROOT_INUM));
    assert forall|di2: DiskInode| #[trigger] decodes_inode(inode_bytes(c2, disk@, sb, ROOT_INUM), di2) && di2.itype == INODE_DIR
        implies di2.size / 512 <= 12 && crate::jfs::dir::dir_blocks_readable(c2, disk, di2) by {
        assert(di.itype == INODE_DIR && di2.size == di.size && di2.direct@ == di.direct@);
        assert(inode_blocks_ok(di, sb));
        assert forall|i: int| 0 <= i < 12 && #[trigger] di2.direct@[i] != 0 implies readable(c2, disk, di2.direct@[i]) by {
            assert(di.direct@[i] != 0);
        }
    }
}

/// One more link on file `inum`, which `name` names in the root
/// directory, changes neither the root directory's blocks nor its entries:
/// the root can still be unlinked from, and its search for `name` still
/// finds an entry of `inum`.
pub proof fn lemma_bump_keeps_root(
    c0: Map<u32, CachedBlock>,
    cl: Map<u32, CachedBlock>,
    c3: Map<u32, CachedBlock>,
    disk: FileDisk,
    sb: Superblock,
    name: Seq<u8>,
    inum: u32,
)
    requires
        root_ok(c0, disk, sb),
        cache_grows_clean(c0, cl, disk@),
        bumped(cl, c3, disk@, sb, inum),
        root_lookup(c0, disk@, sb, name) == Some(inum),
    ensures
        dir_inode_ok(c3, disk, sb, ROOT_INUM),
        forall|dj: DiskInode| #[trigger] decodes_inode(inode_bytes(c3, disk@, sb, ROOT_INUM), dj) && dj.itype == INODE_DIR
            ==> inode_blocks_ok(dj, sb) && dir_entries_ok(c3, disk@, sb, dj),
        forall|dj: DiskInode| #[trigger] decodes_inode(inode_bytes(c3, disk@, sb, ROOT_INUM), dj) ==> dj.itype == INODE_DIR
            && (dir_find(c3, disk@, dj, name, 0, 192) matches Some(k) && get_u32(slot_bytes(c3, disk@, dj, k), 0) == inum),
        root_shape_kept(c0, c3, disk@, sb),
{
    let d = disk@;
    lemma_grows_clean_content(c0, cl, d);
    let ib = inode_block(sb, inum) as u32;
    let rd = inode_in(c0, d, sb, ROOT_INUM);
    let _ = lemma_decode_exists(inode_bytes(c0, d, sb, ROOT_INUM));
    assert(rd.itype == INODE_DIR);
    lemma_lookup_child(c0, disk, sb, rd, name);
    // Only the block of inode `inum` changed.
    assert forall|b: u32| b != ib && (c0.contains_key(b) || b < d.len()) implies #[trigger] content(c3, d, b) == content(c0, d, b) by {
        if cl.contains_key(b) || b < d.len() {
            assert(!set![ib].contains(b));
        }
    }
    assert(inum / 8 <= (sb.ninodes - 1) / 8);
    // The root inode keeps its type, size and blocks.
    assert forall|dj: DiskInode| #[trigger] decodes_inode(inode_bytes(c3, d, sb, ROOT_INUM), dj)
        implies dj.itype == rd.itype && dj.size == rd.size && dj.direct@ == rd.direct@ by {
        if inum != ROOT_INUM {
            assert(inode_bytes(c3, d, sb, ROOT_INUM) == inode_bytes(cl, d, sb, ROOT_INUM));
            assert(inode_bytes(cl, d, sb, ROOT_INUM) == inode_bytes(c0, d, sb, ROOT_INUM));
            lemma_decode_unique(inode_bytes(c0, d, sb, ROOT_INUM), rd, dj);
        } else {
            let dl = lemma_decode_exists(inode_bytes(cl, d, sb, ROOT_INUM));
            assert(inode_bytes(cl, d, sb, ROOT_INUM) == inode_bytes(c0, d, sb, ROOT_INUM));
            lemma_decode_unique(inode_bytes(c0, d, sb, ROOT_INUM), rd, dl);
        }
    }
    // The root's blocks keep their bytes.
    assert forall|i: int| 0 <= i < 12 && #[trigger] rd.direct@[i] != 0 implies content(c0, d, rd.direct@[i]) == content(c3, d, rd.direct@[i]) by {
        assert(inode_blocks_ok(rd, sb));
        assert(rd.direct@[i] >= sb.data_start);
    }
    let n = (rd.size / 512) * 16;
    assert(n <= 192);
    lemma_find_found(c0, d, rd, name, 0, n);
    lemma_find_extend(c0, d, rd, name, 0, n, 192);
    lemma_find_own_blocks(c0, c3, d, rd, name, 0, 192);
    assert forall|dj: DiskInode| #[trigger] decodes_inode(inode_bytes(c3, d, sb, ROOT_INUM), dj) implies dj.itype == INODE_DIR
        && (dir_find(c3, d, dj, name, 0, 192) matches Some(k) && get_u32(slot_bytes(c3, d, dj, k), 0) == inum) by {
        crate::jfs::dir::lemma_find_congruent(c3, c3, d, rd, dj, name, 0, 192);
        let k = dir_find(c0, d, rd, name, 0, n)->0;
        assert(slot_bytes(c3, d, dj, k) == slot_bytes(c3, d, rd, k));
    }
    assert forall|dj: DiskInode| #[trigger] decodes_inode(inode_bytes(c3, d, sb, ROOT_INUM), dj) && dj.itype == INODE_DIR
        implies inode_blocks_ok(dj, sb) && dir_entries_ok(c3, d, sb, dj) by {
        assert(inode_blocks_ok(rd, sb));
        assert(dir_entries_ok(c0, d, sb, rd));
        assert forall|k: int| 0 <= k < 192 && #[trigger] slot_live(c3, d, dj, k) implies ({
            let ci = get_u32(slot_bytes(c3, d, dj, k), 0);
            &&& 0 < ci < sb.ninodes
            &&& forall|cd: DiskInode| #[trigger] decodes_inode(inode_bytes(c3, d, sb, ci), cd) ==> inode_blocks_ok(cd, sb)
        }) by {
            assert(dj.direct@[k / 16] == rd.direct@[k / 16]);
            assert(slot_bytes(c3, d, dj, k) == slot_bytes(c0, d, rd, k));
            assert(slot_live(c0, d, rd, k));
            let ci = get_u32(slot_bytes(c3, d, dj, k), 0);
            assert forall|cd: DiskInode| #[trigger] decodes_inode(inode_bytes(c3, d, sb, ci), cd) implies inode_blocks_ok(cd, sb) by {
                if ci != inum {
                    assert(inode_bytes(c3, d, sb, ci) == inode_bytes(cl, d, sb, ci));
                    assert(inode_bytes(cl, d, sb, ci) == inode_bytes(c0, d, sb, ci));
                } else {
                    let cc = lemma_decode_exists(inode_bytes(cl, d, sb, ci));
                    assert(inode_bytes(cl, d, sb, ci) == inode_bytes(c0, d, sb, ci));
                    assert(inode_blocks_ok(cc, sb));
                }
            }
        }
    }
    assert forall|dj: DiskInode| #[trigger] decodes_inode(inode_bytes(c3, d, sb, ROOT_INUM), dj) && dj.itype == INODE_DIR
        implies dj.size / 512 <= 12 && crate::jfs::dir::dir_blocks_readable(c3, disk, dj) by {
        assert(crate::jfs::dir::dir_blocks_readable(c0, disk, rd));
        assert forall|i: int| 0 <= i < 12 && #[trigger] dj.direct@[i] != 0 implies readable(c3, disk, dj.direct@[i]) by {
            assert(readable(c0, disk, rd.direct@[i]));
            assert(c0.contains_key(rd.direct@[i]) ==> cl.contains_key(rd.direct@[i]));
        }
    }
    assert(readable(c0, disk, inode_block(sb, ROOT_INUM) as u32));
    assert forall|da: DiskInode, db: DiskInode|
        #[trigger] decodes_inode(inode_bytes(c0, d, sb, ROOT_INUM), da)
        && #[trigger] decodes_inode(inode_bytes(c3, d, sb, ROOT_INUM), db) && db.itype == INODE_DIR
        implies da.itype == INODE_DIR && db.size == da.size && db.direct@ == da.direct@ by {
        lemma_decode_unique(inode_bytes(c0, d, sb, ROOT_INUM), rd, da);
    }
}

/// High-level file operations on the root directory, each in a
/// transaction of the journal.
pub struct FileOps;

impl FileOps {
    /// Reads the file `name` from its start into `buf` and returns how many
    /// bytes it read (see `InodeOps::readi`).
    pub fn read(cache: &mut BlockCache, disk: &FileDisk, sb: &Superblock, name: &str, buf: &mut [u8]) -> (r: Result<usize, FsError>)
        requires
            root_ok(old(cache)@, *disk, *sb),
            old(buf)@.len() <= u32::MAX,
        ensures
            match root_lookup(old(cache)@, disk@, *sb, name.spec_bytes()) {
                None => r == Err::<usize, FsError>(FsError::NotFound) && final(buf)@ == old(buf)@,
                Some(inum) => {
                    let cd = choose|cd: DiskInode| decodes_inode(inode_bytes(old(cache)@, disk@, *sb, inum), cd);
                    &&& r == Ok::<usize, FsError>(readi_len(cd, 0, old(buf)@.len()) as usize)
                    &&& final(buf)@.len() == old(buf)@.len()
                    &&& forall|k: int| 0 <= k < readi_len(cd, 0, old(buf)@.len()) ==> #[trigger] final(buf)@[k] == file_byte(old(cache)@, disk@, cd, k)
                    &&& forall|k: int| readi_len(cd, 0, old(buf)@.len()) <= k < old(buf)@.len() ==> #[trigger] final(buf)@[k] == old(buf)@[k]
                },
            },
            cache_grows_clean(old(cache)@, final(cache)@, disk@),
    {
        let ghost c0 = cache@;
        proof {
            let di = lemma_decode_exists(inode_bytes(c0, disk@, *sb, ROOT_INUM));
        }
        let found = DirOps::lookup(cache, disk, sb, ROOT_INUM, name);
        let ghost c1 = cache@;
        let ghost di = choose|di: DiskInode| decodes_inode(inode_bytes(c0, disk@, *sb, ROOT_INUM), di);
        let inum = match found {
            Some(i) => i,
            None => {
                return Err(FsError::NotFound);
            },
        };
        proof {
            lemma_lookup_child(c0, *disk, *sb, di, name.spec_bytes());
            lemma_grows_clean_content(c0, c1, disk@);
            assert(inode_bytes(c1, disk@, *sb, inum) == inode_bytes(c0, disk@, *sb, inum));
            assert(readable(c1, *disk, inode_block(*sb, inum) as u32));
        }
        let dinode = InodeOps::iget(cache, disk, sb, inum);
        let ghost c2 = cache@;
        proof {
            assert(cache_grows_clean(c1, c2, disk@));
            lemma_grows_clean_trans(c0, c1, c2, disk@);
            lemma_grows_clean_content(c0, c2, disk@);
            assert(inode_blocks_ok(dinode, *sb));
        }
        let n = InodeOps::readi(cache, disk, &dinode, buf, 0);
        proof {
            lemma_grows_clean_trans(c0, c2, cache@, disk@);
            let cd = choose|cd: DiskInode| decodes_inode(inode_bytes(c0, disk@, *sb, inum), cd);
            lemma_decode_unique(inode_bytes(c0, disk@, *sb, inum), cd, dinode);
            assert forall|k: int| 0 <= k < n implies #[trigger] buf@[k] == file_byte(c0, disk@, cd, k) by {
                assert(file_byte(c2, disk@, dinode, k) == file_byte(c0, disk@, cd, k));
            }
        }
        Ok(n)
    }

    /// The size of file `name`.
    pub fn size(cache: &mut BlockCache, disk: &FileDisk, sb: &Superblock, name: &str) -> (r: Result<u32, FsError>)
        requires
            root_ok(old(cache)@, *disk, *sb),
        ensures
            match root_lookup(old(cache)@, disk@, *sb, name.spec_bytes()) {
                None => r == Err::<u32, FsError>(FsError::NotFound),
                Some(inum) => r == Ok::<u32, FsError>(inode_in(old(cache)@, disk@, *sb, inum).size),
            },
            cache_grows_clean(old(cache)@, final(cache)@, disk@),
    {
        let ghost c0 = cache@;
        proof {
            let di = lemma_decode_exists(inode_bytes(c0, disk@, *sb, ROOT_INUM));
        }
        let found = DirOps::lookup(cache, disk, sb, ROOT_INUM, name);
        let ghost c1 = cache@;
        let ghost di = choose|di: DiskInode| decodes_inode(inode_bytes(c0, disk@, *sb, ROOT_INUM), di);
        let inum = match found {
            Some(i) => i,
            None => {
                return Err(FsError::NotFound);
            },
        };
        proof {
            lemma_lookup_child(c0, *disk, *sb, di, name.spec_bytes());
            lemma_grows_clean_content(c0, c1, disk@);
            assert(inode_bytes(c1, disk@, *sb, inum) == inode_bytes(c0, disk@, *sb, inum));
        }
        let dinode = InodeOps::iget(cache, disk, sb, inum);
        proof {
            assert(cache_grows_clean(c1, cache@, disk@));
            lemma_grows_clean_trans(c0, c1, cache@, disk@);
            let cd = inode_in(c0, disk@, *sb, inum);
            let _ = lemma_decode_exists(inode_bytes(c0, disk@, *sb, inum));
            lemma_decode_unique(inode_bytes(c0, disk@, *sb, inum), cd, dinode);
        }
        Ok(dinode.size)
    }

    /// Reads the whole file `name` as text; refused when its bytes are not
    /// valid UTF-8.
    pub fn read_string(cache: &mut BlockCache, disk: &FileDisk, sb: &Superblock, name: &str) -> (r: Result<String, FsError>)
        requires
            root_ok(old(cache)@, *disk, *sb),
        ensures
            match root_lookup(old(cache)@, disk@, *sb, name.spec_bytes()) {
                None => r == Err::<String, FsError>(FsError::NotFound),
                Some(inum) => {
                    let cd = inode_in(old(cache)@, disk@, *sb, inum);
                    let n = readi_len(cd, 0, cd.size as nat);
                    let bytes = Seq::new(n as nat, |k: int| file_byte(old(cache)@, disk@, cd, k));
                    if valid_utf8(bytes) {
                        r is Ok && encode_utf8(r->Ok_0@) == bytes
                    } else {
                        r == Err::<String, FsError>(FsError::NotUtf8)
                    }
                },
            },
            cache_grows_clean(old(cache)@, final(cache)@, disk@),
    {
        let ghost c0 = cache@;
        proof {
            let di = lemma_decode_exists(inode_bytes(c0, disk@, *sb, ROOT_INUM));
        }
        let found = DirOps::lookup(cache, disk, sb, ROOT_INUM, name);
        let ghost c1 = cache@;
        let ghost di = choose|di: DiskInode| decodes_inode(inode_bytes(c0, disk@, *sb, ROOT_INUM), di);
        let inum = match found {
            Some(i) => i,
            None => {
                return Err(FsError::NotFound);
            },
        };
        proof {
            lemma_lookup_child(c0, *disk, *sb, di, name.spec_bytes());
            lemma_grows_clean_content(c0, c1, disk@);
            assert(inode_bytes(c1, disk@, *sb, inum) == inode_bytes(c0, disk@, *sb, inum));
        }
        let dinode = InodeOps::iget(cache, disk, sb, inum);
        let ghost c2 = cache@;
        proof {
            assert(cache_grows_clean(c1, c2, disk@));
            lemma_grows_clean_trans(c0, c1, c2, disk@);
            lemma_grows_clean_content(c0, c2, disk@);
        }
        let mut buf: Vec<u8> = vec![0u8; dinode.size as usize];
        let n = InodeOps::readi(cache, disk, &dinode, buf.as_mut_slice(), 0);
        buf.truncate(n);
        proof {
            lemma_grows_clean_trans(c0, c2, cache@, disk@);
            let cd = inode_in(c0, disk@, *sb, inum);
            let _ = lemma_decode_exists(inode_bytes(c0, disk@, *sb, inum));
            lemma_decode_unique(inode_bytes(c0, disk@, *sb, inum), cd, dinode);
            assert forall|k: int| 0 <= k < n implies #[trigger] buf@[k] == file_byte(c0, disk@, cd, k) by {
                assert(file_byte(c2, disk@, dinode, k) == file_byte(c0, disk@, cd, k));
            }
            assert(buf@ =~= Seq::new(readi_len(cd, 0, cd.size as nat) as nat, |k: int| file_byte(c0, disk@, cd, k)));
        }
        match utf8_string(buf) {
            Some(s) => Ok(s),
            None => Err(FsError::NotUtf8),
        }
    }

    /// Writes `data` at the start of file `name` in a transaction and
    /// returns how many bytes it wrote (see `InodeOps::writei`).
    pub fn write<J: Journal>(
        journal: &mut J,
        cache: &mut BlockCache,
        disk: &mut FileDisk,
        sb: &Superblock,
        name: &str,
        data: &[u8],
    ) -> (r: Result<usize, FsError>)
        requires
            old(journal).inv(),
            !old(journal).in_tx(),
            old(journal).fits(*old(disk)),
            root_ok(old(cache)@, *old(disk), *sb),
            file_blocks_ok(old(cache)@, old(disk)@, *sb, name.spec_bytes()),
            data@.len() <= u32::MAX,
        ensures
            Self::write_outcome(old(cache)@, final(cache)@, old(disk)@, *sb, name.spec_bytes(), 0, data@, r),
            root_lookup(old(cache)@, old(disk)@, *sb, name.spec_bytes()) is None ==> *final(journal) == *old(journal),
            root_lookup(old(cache)@, old(disk)@, *sb, name.spec_bytes()) is Some ==> !final(journal).in_tx(),
            final(journal).inv(),
            forall|d: FileDisk| old(journal).fits(d) ==> #[trigger] final(journal).fits(d),
            final(disk)@ == old(disk)@,
            final(disk).nblocks == old(disk).nblocks,
    {
        let ghost c0 = cache@;
        let ghost d0 = *disk;
        proof {
            let di = lemma_decode_exists(inode_bytes(c0, disk@, *sb, ROOT_INUM));
        }
        let found = DirOps::lookup(cache, disk, sb, ROOT_INUM, name);
        let ghost c1 = cache@;
        let ghost di = choose|di: DiskInode| decodes_inode(inode_bytes(c0, disk@, *sb, ROOT_INUM), di);
        let inum = match found {
            Some(i) => i,
            None => {
                return Err(FsError::NotFound);
            },
        };
        proof {
            lemma_lookup_child(c0, *disk, *sb, di, name.spec_bytes());
            lemma_grows_clean_content(c0, c1, disk@);
            assert(inode_bytes(c1, disk@, *sb, inum) == inode_bytes(c0, disk@, *sb, inum));
        }
        journal.begin_tx();
        let mut dinode = InodeOps::iget(cache, disk, sb, inum);
        let ghost dn0 = dinode;
        let ghost c2 = cache@;
        proof {
            assert(cache_grows_clean(c1, c2, disk@));
            lemma_grows_clean_trans(c0, c1, c2, disk@);
            assert(inode_blocks_ok(dinode, *sb));
        }
        proof {
            Self::lemma_write_ready(c0, c2, *disk, *sb, name.spec_bytes(), inum, dn0);
        }
        let n = InodeOps::writei(cache, disk, sb, &mut dinode, inum, data, 0);
        let ghost c3 = cache@;
        journal.commit(disk, cache);
        proof {
            Self::lemma_write_done(c0, c2, c3, disk@, *sb, inum, dn0, dinode, data@, 0, n as int);
            Self::lemma_write_keeps_lookup(c0, c2, c3, *disk, *sb, name.spec_bytes(), inum, dn0, dinode);
        }
        Ok(n)
    }

    /// Appends `data` to file `name` in a transaction and returns how many
    /// bytes it wrote.
    pub fn append<J: Journal>(
        journal: &mut J,
        cache: &mut BlockCache,
        disk: &mut FileDisk,
        sb: &Superblock,
        name: &str,
        data: &[u8],
    ) -> (r: Result<usize, FsError>)
        requires
            old(journal).inv(),
            !old(journal).in_tx(),
            old(journal).fits(*old(disk)),
            root_ok(old(cache)@, *old(disk), *sb),
            file_blocks_ok(old(cache)@, old(disk)@, *sb, name.spec_bytes()),
            root_lookup(old(cache)@, old(disk)@, *sb, name.spec_bytes()) is Some ==> inode_in(
                old(cache)@,
                old(disk)@,
                *sb,
                root_lookup(old(cache)@, old(disk)@, *sb, name.spec_bytes())->0,
            ).size + data@.len() <= u32::MAX,
        ensures
            Self::write_outcome(old(cache)@, final(cache)@, old(disk)@, *sb, name.spec_bytes(),
                match root_lookup(old(cache)@, old(disk)@, *sb, name.spec_bytes()) {
                    Some(inum) => inode_in(old(cache)@, old(disk)@, *sb, inum).size as int,
                    None => 0,
                }, data@, r),
            root_lookup(old(cache)@, old(disk)@, *sb, name.spec_bytes()) is None ==> *final(journal) == *old(journal),
            root_lookup(old(cache)@, old(disk)@, *sb, name.spec_bytes()) is Some ==> !final(journal).in_tx(),
            final(journal).inv(),
            forall|d: FileDisk| old(journal).fits(d) ==> #[trigger] final(journal).fits(d),
            final(disk)@ == old(disk)@,
            final(disk).nblocks == old(disk).nblocks,
    {
        let ghost c0 = cache@;
        proof {
            let di = lemma_decode_exists(inode_bytes(c0, disk@, *sb, ROOT_INUM));
        }
        let found = DirOps::lookup(cache, disk, sb, ROOT_INUM, name);
        let ghost c1 = cache@;
        let ghost di = choose|di: DiskInode| decodes_inode(inode_bytes(c0, disk@, *sb, ROOT_INUM), di);
        let inum = match found {
            Some(i) => i,
            None => {
                return Err(FsError::NotFound);
            },
        };
        proof {
            lemma_lookup_child(c0, *disk, *sb, di, name.spec_bytes());
            lemma_grows_clean_content(c0, c1, disk@);
            assert(inode_bytes(c1, disk@, *sb, inum) == inode_bytes(c0, disk@, *sb, inum));
        }
        journal.begin_tx();
        let mut dinode = InodeOps::iget(cache, disk, sb, inum);
        let ghost dn0 = dinode;
        let ghost c2 = cache@;
        proof {
            assert(cache_grows_clean(c1, c2, disk@));
            lemma_grows_clean_trans(c0, c1, c2, disk@);
            assert(inode_blocks_ok(dinode, *sb));
            let cd = inode_in(c0, disk@, *sb, inum);
            let _ = lemma_decode_exists(inode_bytes(c0, disk@, *sb, inum));
            lemma_decode_unique(inode_bytes(c0, disk@, *sb, inum), cd, dn0);
        }
        let offset = dinode.size;
        proof {
            Self::lemma_write_ready(c0, c2, *disk, *sb, name.spec_bytes(), inum, dn0);
        }
        let n = InodeOps::writei(cache, disk, sb, &mut dinode, inum, data, offset);
        let ghost c3 = cache@;
        journal.commit(disk, cache);
        proof {
            Self::lemma_write_done(c0, c2, c3, disk@, *sb, inum, dn0, dinode, data@, offset as int, n as int);
            Self::lemma_write_keeps_lookup(c0, c2, c3, *disk, *sb, name.spec_bytes(), inum, dn0, dinode);
        }
        Ok(n)
    }

    /// Removes file `name` from the root directory in a transaction (see
    /// `DirOps::unlink`).
    pub fn unlink<J: Journal>(
        journal: &mut J,
        cache: &mut BlockCache,
        disk: &mut FileDisk,
        sb: &Superblock,
        name: &str,
    ) -> (r: Result<(), FsError>)
        requires
            old(journal).inv(),
            !old(journal).in_tx(),
            old(journal).fits(*old(disk)),
            root_ok(old(cache)@, *old(disk), *sb),
        ensures
            exists|ur: Result<u32, DirError>| {
                &&& #[trigger] crate::jfs::dir::unlink_outcome(old(cache)@, final(cache)@, old(disk)@, *sb, ROOT_INUM, name.spec_bytes(), ur)
                &&& r == (match ur {
                    Ok(_) => Ok::<(), FsError>(()),
                    Err(e) => Err::<(), FsError>(FsError::Dir(e)),
                })
            },
            r is Ok ==> !final(journal).in_tx(),
            r is Err ==> final(journal).ready(),
            final(journal).inv(),
            forall|d: FileDisk| old(journal).fits(d) ==> #[trigger] final(journal).fits(d),
            final(disk)@ == old(disk)@,
            final(disk).nblocks == old(disk).nblocks,
    {
        journal.begin_tx();
        let ur = DirOps::unlink(cache, disk, sb, ROOT_INUM, name);
        match ur {
            Err(e) => {
                return Err(FsError::Dir(e));
            },
            Ok(_) => {},
        }
        journal.commit(disk, cache);
        Ok(())
    }

    /// Creates an empty file `name` in the root directory in a transaction:
    /// allocates the lowest free inode as a file inode, then links it (see
    /// `created_inode` and `DirOps::link`). Returns the inode number.
    #[verifier::rlimit(40)]
    pub fn create<J: Journal>(
        journal: &mut J,
        cache: &mut BlockCache,
        disk: &mut FileDisk,
        sb: &Superblock,
        name: &str,
    ) -> (r: Result<u32, FsError>)
        requires
            old(journal).inv(),
            !old(journal).in_tx(),
            old(journal).fits(*old(disk)),
            root_ok(old(cache)@, *old(disk), *sb),
        ensures
            (r == Err::<u32, FsError>(FsError::NoFreeInodes)) <==> (forall|j: u32| 1 <= j < sb.ninodes ==> !#[trigger] inode_free(old(cache)@, old(disk)@, *sb, j)),
            r != Err::<u32, FsError>(FsError::NoFreeInodes) ==> exists|inum: u32, c1: Map<u32, CachedBlock>| {
                &&& #[trigger] created_inode(old(cache)@, c1, old(disk)@, *sb, inum)
                &&& crate::jfs::dir::link_outcome(c1, final(cache)@, old(disk)@, *sb, ROOT_INUM, name.spec_bytes(), inum,
                    match r {
                        Err(FsError::Dir(e)) => Err::<(), DirError>(e),
                        _ => Ok::<(), DirError>(()),
                    })
                &&& r is Ok ==> r == Ok::<u32, FsError>(inum)
                &&& r is Err ==> r->Err_0 is Dir
            },
            r is Ok ==> !final(journal).in_tx(),
            r is Ok ==> root_ok(final(cache)@, *final(disk), *sb),
            r is Err ==> final(journal).ready(),
            final(journal).inv(),
            forall|d: FileDisk| old(journal).fits(d) ==> #[trigger] final(journal).fits(d),
            final(disk)@ == old(disk)@,
            final(disk).nblocks == old(disk).nblocks,
    {
        let ghost c0 = cache@;
        journal.begin_tx();
        let inum = match InodeOps::ialloc(cache, disk, sb, INODE_FILE) {
            Some(i) => i,
            None => {
                return Err(FsError::NoFreeInodes);
            },
        };
        let ghost c1 = cache@;
        let ghost ib = inode_block(*sb, inum) as u32;
        let mut dinode = DiskInode::zeroed();
        dinode.itype = INODE_FILE;
        dinode.nlink = 1;
        dinode.size = 0;
        InodeOps::iupdate(cache, disk, sb, inum, &dinode);
        let ghost c2 = cache@;
        proof {
            lemma_inode_roundtrip(dinode);
            let fresh = choose|fresh: DiskInode| fresh_inode(fresh, INODE_FILE) && content(c1, disk@, ib)@
                == put_bytes(content(c0, disk@, ib)@, inode_offset(inum), encode_inode(fresh));
            assert(inode_bytes(c2, disk@, *sb, inum) =~= encode_inode(dinode));
            assert forall|cd: DiskInode| #[trigger] decodes_inode(inode_bytes(c2, disk@, *sb, inum), cd)
                implies fresh_inode(cd, INODE_FILE) by {
                assert(cd.direct@ =~= dinode.direct@);
            }
            assert forall|j: u32| j != inum && inode_block(*sb, j) < disk@.len()
                implies #[trigger] inode_bytes(c2, disk@, *sb, j) == inode_bytes(c0, disk@, *sb, j) by {
                let jb = inode_block(*sb, j) as u32;
                if jb == ib {
                    lemma_inode_slots(*sb, j, inum);
                    lemma_put_bytes_disjoint(content(c1, disk@, ib)@, inode_offset(inum), encode_inode(dinode), inode_offset(j));
                    lemma_put_bytes_disjoint(content(c0, disk@, ib)@, inode_offset(inum), encode_inode(fresh), inode_offset(j));
                } else {
                    assert(content(c2, disk@, jb) == content(c1, disk@, jb));
                    assert(content(c1, disk@, jb) == content(c0, disk@, jb));
                }
            }
            assert forall|k: u32| !set![ib].contains(k) && (c0.contains_key(k) || k < disk@.len())
                implies #[trigger] content(c2, disk@, k) == content(c0, disk@, k) by {
                assert(content(c2, disk@, k) == content(c1, disk@, k));
            }
            assert(created_inode(c0, c2, disk@, *sb, inum));
            // The root directory is as it was, or is now the new file.
            let rb = inode_block(*sb, ROOT_INUM) as u32;
            assert(readable(c2, *disk, rb));
            if inum != ROOT_INUM {
                assert(inode_bytes(c2, disk@, *sb, ROOT_INUM) == inode_bytes(c0, disk@, *sb, ROOT_INUM));
                assert forall|di: DiskInode| #[trigger] decodes_inode(inode_bytes(c2, disk@, *sb, ROOT_INUM), di) && di.itype == INODE_DIR
                    implies di.size / 512 <= 12 && crate::jfs::dir::dir_blocks_readable(c2, *disk, di) by {
                    assert(crate::jfs::dir::dir_blocks_readable(c0, *disk, di));
                    assert forall|i: int| 0 <= i < 12 && #[trigger] di.direct@[i] != 0 implies readable(c2, *disk, di.direct@[i]) by {
                        assert(readable(c0, *disk, di.direct@[i]));
                    }
                }
            } else {
                assert forall|di: DiskInode| #[trigger] decodes_inode(inode_bytes(c2, disk@, *sb, ROOT_INUM), di)
                    implies di.itype != INODE_DIR by {}
            }
        }
        let lr = DirOps::link(cache, disk, sb, ROOT_INUM, name, inum);
        match lr {
            Err(e) => {
                return Err(FsError::Dir(e));
            },
            Ok(()) => {},
        }
        proof {
            lemma_create_keeps_root(c0, c2, cache@, *disk, *sb, name.spec_bytes(), inum);
        }
        journal.commit(disk, cache);
        Ok(inum)
    }

    /// Whether the superblock lays the disk out soundly and the root
    /// directory is in the order the file operations need (see `root_ok`):
    /// a directory inode whose blocks lie in the data area and whose every
    /// entry names an inode in range with its blocks in the data area.
    /// Reading fills the cache with clean copies only.
    #[verifier::rlimit(40)]
    pub fn check_root(cache: &mut BlockCache, disk: &FileDisk, sb: &Superblock) -> (b: bool)
        ensures
            b == root_ok(old(cache)@, *disk, *sb),
            cache_grows_clean(old(cache)@, final(cache)@, disk@),
            b ==> root_ok(final(cache)@, *disk, *sb),
    {
        let ghost c0 = cache@;
        let ghost d = disk@;
        if disk.blocks.len() != disk.nblocks as usize || sb.ninodes <= 1 || sb.data_bitmap >= sb.inode_start
            || sb.inode_start as u64 + ((sb.ninodes - 1) / 8) as u64 >= sb.data_start as u64 || sb.data_start > sb.nblocks
            || sb.nblocks > disk.nblocks {
            return false;
        }
        assert(sb_ok(*sb, *disk));
        let di = InodeOps::iget(cache, disk, sb, ROOT_INUM);
        proof {
            assert(cache_grows_clean(c0, cache@, d));
            assert forall|dj: DiskInode| #[trigger] decodes_inode(inode_bytes(c0, d, *sb, ROOT_INUM), dj)
                implies dj.itype == di.itype && dj.size == di.size && dj.direct@ == di.direct@ by {
                lemma_decode_unique(inode_bytes(c0, d, *sb, ROOT_INUM), dj, di);
            }
        }
        if di.itype != INODE_DIR {
            proof {
                lemma_grows_clean_keeps(c0, cache@, *disk, *sb, Seq::empty());
            }
            return true;
        }
        if di.size / 512 > 12 {
            return false;
        }
        if !check_in_area(&di, sb) {
            return false;
        }
        assert(crate::jfs::dir::dir_blocks_readable(c0, *disk, di));
        let mut k: usize = 0;
        while k < 192
            invariant
                k <= 192,
                c0 == old(cache)@,
                d == disk@,
                disk.wf(),
                sb_ok(*sb, *disk),
                sb.ninodes > 1,
                cache_grows_clean(c0, cache@, d),
                decodes_inode(inode_bytes(c0, d, *sb, ROOT_INUM), di),
                di.itype == INODE_DIR,
                inode_blocks_ok(di, *sb),
                di.size / 512 <= 12,
                crate::jfs::dir::dir_blocks_readable(c0, *disk, di),
                forall|dj: DiskInode| #[trigger] decodes_inode(inode_bytes(c0, d, *sb, ROOT_INUM), dj)
                    ==> dj.itype == di.itype && dj.size == di.size && dj.direct@ == di.direct@,
                forall|j: int| 0 <= j < k && #[trigger] slot_live(c0, d, di, j) ==> {
                    let ci = get_u32(slot_bytes(c0, d, di, j), 0);
                    &&& 0 < ci < sb.ninodes
                    &&& forall|cd: DiskInode| #[trigger] decodes_inode(inode_bytes(c0, d, *sb, ci), cd) ==> inode_blocks_ok(cd, *sb)
                },
            decreases 192 - k,
        {
            let blk = di.direct[k / 16];
            if blk != 0 {
                let ghost ck = cache@;
                proof {
                    lemma_grows_clean_content(c0, ck, d);
                }
                let data = cache.read(disk, blk);
                proof {
                    lemma_grows_clean_trans(c0, ck, cache@, d);
                    assert(data == content(c0, d, blk));
                }
                let ci = crate::jfs::codec::read_u32(&data, (k % 16) * 32);
                proof {
                    let sl = slot_bytes(c0, d, di, k as int);
                    assert(sl == data@.subrange(((k % 16) * 32) as int, ((k % 16) * 32 + 32) as int));
                    assert(sl[0] == data@[(k % 16) * 32] && sl[1] == data@[(k % 16) * 32 + 1]
                        && sl[2] == data@[(k % 16) * 32 + 2] && sl[3] == data@[(k % 16) * 32 + 3]);
                    assert(ci == get_u32(sl, 0));
                }
                if ci != 0 {
                    if ci >= sb.ninodes {
                        proof {
                            assert(slot_live(c0, d, di, k as int));
                        }
                        return false;
                    }
                    let ghost cm = cache@;
                    proof {
                        lemma_grows_clean_content(c0, cm, d);
                        assert(inode_bytes(cm, d, *sb, ci) == inode_bytes(c0, d, *sb, ci));
                    }
                    let cd = InodeOps::iget(cache, disk, sb, ci);
                    proof {
                        lemma_grows_clean_trans(c0, cm, cache@, d);
                        assert forall|ce: DiskInode| #[trigger] decodes_inode(inode_bytes(c0, d, *sb, ci), ce)
                            implies ce.direct@ == cd.direct@ by {
                            lemma_decode_unique(inode_bytes(c0, d, *sb, ci), ce, cd);
                        }
                    }
                    if !check_in_area(&cd, sb) {
                        proof {
                            assert(slot_live(c0, d, di, k as int));
                            assert(!inode_blocks_ok(cd, *sb));
                        }
                        return false;
                    }
                    proof {
                        assert forall|ce: DiskInode| #[trigger] decodes_inode(inode_bytes(c0, d, *sb, ci), ce)
                            implies inode_blocks_ok(ce, *sb) by {
                            assert(ce.direct@ == cd.direct@);
                        }
                    }
                }
            }
            k = k + 1;
        }
        proof {
            assert(dir_entries_ok(c0, d, *sb, di));
            assert(readable(c0, *disk, inode_block(*sb, ROOT_INUM) as u32));
            assert forall|dj: DiskInode| #[trigger] decodes_inode(inode_bytes(c0, d, *sb, ROOT_INUM), dj) && dj.itype == INODE_DIR
                implies dj.size / 512 <= 12 && crate::jfs::dir::dir_blocks_readable(c0, *disk, dj) && inode_blocks_ok(dj, *sb)
                    && dir_entries_ok(c0, d, *sb, dj) by {
                assert forall|i: int| 0 <= i < 12 && #[trigger] dj.direct@[i] != 0 implies readable(c0, *disk, dj.direct@[i]) by {
                    assert(di.direct@[i] != 0);
                }
                assert forall|i: int| 0 <= i < 12 && #[trigger] dj.direct@[i] != 0
                    implies sb.data_start <= dj.direct@[i] < sb.nblocks && dj.direct@[i] - sb.data_start < 4096 by {
                    assert(di.direct@[i] != 0);
                }
                assert forall|j: int| 0 <= j < 192 && #[trigger] slot_live(c0, d, dj, j) implies ({
                    let ci = get_u32(slot_bytes(c0, d, dj, j), 0);
                    &&& 0 < ci < sb.ninodes
                    &&& forall|cd: DiskInode| #[trigger] decodes_inode(inode_bytes(c0, d, *sb, ci), cd) ==> inode_blocks_ok(cd, *sb)
                }) by {
                    assert(slot_bytes(c0, d, dj, j) == slot_bytes(c0, d, di, j));
                    assert(slot_live(c0, d, di, j));
                }
            }
            assert(root_ok(c0, *disk, *sb));
            lemma_grows_clean_keeps(c0, cache@, *disk, *sb, Seq::empty());
        }
        true
    }

    /// Whether the file `name`, if the root directory has it, has distinct
    /// data blocks in the data area, marked in use, none of them a block of
    /// the root directory, whose blocks are marked too (see
    /// `file_blocks_ok`): what `write` and `append` ask. Reading fills the
    /// cache with clean copies only.
    pub fn check_file_blocks(cache: &mut BlockCache, disk: &FileDisk, sb: &Superblock, name: &str) -> (b: bool)
        requires
            root_ok(old(cache)@, *disk, *sb),
        ensures
            b == file_blocks_ok(old(cache)@, disk@, *sb, name.spec_bytes()),
            cache_grows_clean(old(cache)@, final(cache)@, disk@),
            root_ok(final(cache)@, *disk, *sb),
            file_blocks_ok(final(cache)@, disk@, *sb, name.spec_bytes()) == file_blocks_ok(old(cache)@, disk@, *sb, name.spec_bytes()),
    {
        let ghost c0 = cache@;
        let ghost d = disk@;
        let ghost rdi = choose|x: DiskInode| decodes_inode(inode_bytes(c0, d, *sb, ROOT_INUM), x);
        proof {
            let _ = lemma_decode_exists(inode_bytes(c0, d, *sb, ROOT_INUM));
        }
        let found = DirOps::lookup(cache, disk, sb, ROOT_INUM, name);
        proof {
            assert(found == root_lookup(c0, d, *sb, name.spec_bytes()));
            lemma_grows_clean_keeps(c0, cache@, *disk, *sb, name.spec_bytes());
        }
        let inum = match found {
            None => return true,
            Some(i) => i,
        };
        proof {
            lemma_lookup_child(c0, *disk, *sb, rdi, name.spec_bytes());
        }
        let ghost c1 = cache@;
        let cd = InodeOps::iget(cache, disk, sb, inum);
        let ghost c2 = cache@;
        let rd = InodeOps::iget(cache, disk, sb, ROOT_INUM);
        let ghost c3 = cache@;
        proof {
            assert(cache_grows_clean(c1, c2, d));
            assert(cache_grows_clean(c2, c3, d));
            lemma_grows_clean_trans(c0, c1, c2, d);
            lemma_grows_clean_trans(c0, c2, c3, d);
            lemma_grows_clean_keeps(c0, c1, *disk, *sb, name.spec_bytes());
            lemma_grows_clean_keeps(c0, c3, *disk, *sb, name.spec_bytes());
            lemma_grows_clean_content(c0, c1, d);
            lemma_grows_clean_content(c0, c2, d);
            let ci = inode_in(c0, d, *sb, inum);
            let ri = inode_in(c0, d, *sb, ROOT_INUM);
            let _ = lemma_decode_exists(inode_bytes(c0, d, *sb, inum));
            assert(inode_bytes(c1, d, *sb, inum) == inode_bytes(c0, d, *sb, inum));
            assert(inode_bytes(c2, d, *sb, ROOT_INUM) == inode_bytes(c0, d, *sb, ROOT_INUM));
            lemma_decode_unique(inode_bytes(c0, d, *sb, inum), ci, cd);
            lemma_decode_unique(inode_bytes(c0, d, *sb, ROOT_INUM), ri, rd);
            assert(ci.direct@ == cd.direct@ && ri.direct@ == rd.direct@);
        }
        let ok_distinct = check_distinct(&cd);
        let ghost c4 = cache@;
        let ok_marked = check_marked(cache, disk, sb, &cd);
        proof {
            lemma_grows_clean_content(c0, c3, d);
            assert(content(c3, d, sb.data_bitmap) == content(c0, d, sb.data_bitmap));
            lemma_grows_clean_trans(c0, c3, cache@, d);
        }
        let ghost c5 = cache@;
        let ok_root = check_marked(cache, disk, sb, &rd);
        proof {
            lemma_grows_clean_content(c0, c5, d);
            assert(content(c5, d, sb.data_bitmap) == content(c0, d, sb.data_bitmap));
            lemma_grows_clean_trans(c0, c5, cache@, d);
            lemma_grows_clean_keeps(c0, cache@, *disk, *sb, name.spec_bytes());
        }
        let ok_apart = check_disjoint(&cd, &rd);
        proof {
            let ci = inode_in(c0, d, *sb, inum);
            let ri = inode_in(c0, d, *sb, ROOT_INUM);
            let bm = content(c0, d, sb.data_bitmap)@;
            assert(blocks_distinct(ci) == blocks_distinct(cd));
            assert(blocks_marked(ci, *sb, bm) == blocks_marked(cd, *sb, bm));
            assert(blocks_marked(ri, *sb, bm) == blocks_marked(rd, *sb, bm));
        }
        ok_distinct && ok_marked && ok_root && ok_apart
    }

    /// Renames file `old_name` to `new_name` in a transaction: gives the
    /// inode that the old name has one more link (the count wraps at
    /// 65535), unlinks the old name, which drops that link again, then links
    /// the inode under the new name. The inode keeps its type, size, blocks
    /// and link count, and its blocks keep their content when they lie
    /// apart from the root directory's and are marked in use (see
    /// `file_blocks_ok`).
    #[verifier::rlimit(60)]
    pub fn rename<J: Journal>(
        journal: &mut J,
        cache: &mut BlockCache,
        disk: &mut FileDisk,
        sb: &Superblock,
        old_name: &str,
        new_name: &str,
    ) -> (r: Result<(), FsError>)
        requires
            old(journal).inv(),
            !old(journal).in_tx(),
            old(journal).fits(*old(disk)),
            root_ok(old(cache)@, *old(disk), *sb),
        ensures
            root_lookup(old(cache)@, old(disk)@, *sb, old_name.spec_bytes()) is None ==> r == Err::<(), FsError>(FsError::NotFound)
                && *final(journal) == *old(journal),
            root_lookup(old(cache)@, old(disk)@, *sb, old_name.spec_bytes()) matches Some(inum) ==> exists|
                cl: Map<u32, CachedBlock>,
                c3: Map<u32, CachedBlock>,
                c4: Map<u32, CachedBlock>,
            |
                #![trigger bumped(cl, c3, old(disk)@, *sb, inum), crate::jfs::dir::unlink_outcome(c3, c4, old(disk)@, *sb, ROOT_INUM, old_name.spec_bytes(), Ok::<u32, DirError>(inum))]
            {
                &&& cache_grows_clean(old(cache)@, cl, old(disk)@)
                &&& bumped(cl, c3, old(disk)@, *sb, inum)
                &&& crate::jfs::dir::unlink_outcome(c3, c4, old(disk)@, *sb, ROOT_INUM, old_name.spec_bytes(), Ok::<u32, DirError>(inum))
                &&& crate::jfs::dir::link_outcome(c4, final(cache)@, old(disk)@, *sb, ROOT_INUM, new_name.spec_bytes(), inum,
                    match r {
                        Err(FsError::Dir(e)) => Err::<(), DirError>(e),
                        _ => Ok::<(), DirError>(()),
                    })
                &&& r is Err ==> r->Err_0 is Dir
            },
            root_lookup(old(cache)@, old(disk)@, *sb, old_name.spec_bytes()) matches Some(inum) ==> (inum != ROOT_INUM && r is Ok
                ==> forall|cd: DiskInode, cd2: DiskInode|
                #[trigger] decodes_inode(inode_bytes(old(cache)@, old(disk)@, *sb, inum), cd)
                && #[trigger] decodes_inode(inode_bytes(final(cache)@, old(disk)@, *sb, inum), cd2) && 1 <= cd.nlink < 65535
                ==> cd2.nlink == cd.nlink && cd2.itype == cd.itype && cd2.size == cd.size && cd2.direct@ == cd.direct@),
            root_lookup(old(cache)@, old(disk)@, *sb, old_name.spec_bytes()) matches Some(inum) ==> (inum != ROOT_INUM && r is Ok
                && file_blocks_ok(old(cache)@, old(disk)@, *sb, old_name.spec_bytes())
                && 1 <= inode_in(old(cache)@, old(disk)@, *sb, inum).nlink < 65535
                ==> forall|i: int| 0 <= i < 12 && #[trigger] inode_in(old(cache)@, old(disk)@, *sb, inum).direct@[i] != 0
                    ==> content(final(cache)@, old(disk)@, inode_in(old(cache)@, old(disk)@, *sb, inum).direct@[i])
                        == content(old(cache)@, old(disk)@, inode_in(old(cache)@, old(disk)@, *sb, inum).direct@[i])),
            r is Ok ==> !final(journal).in_tx(),
            final(journal).inv(),
            forall|d: FileDisk| old(journal).fits(d) ==> #[trigger] final(journal).fits(d),
            final(disk)@ == old(disk)@,
            final(disk).nblocks == old(disk).nblocks,
    {
        let ghost c0 = cache@;
        let ghost di0 = lemma_decode_exists(inode_bytes(c0, disk@, *sb, ROOT_INUM));
        let found = DirOps::lookup(cache, disk, sb, ROOT_INUM, old_name);
        let ghost di = choose|di: DiskInode| decodes_inode(inode_bytes(c0, disk@, *sb, ROOT_INUM), di);
        let inum = match found {
            Some(i) => i,
            None => {
                return Err(FsError::NotFound);
            },
        };
        let ghost cl = cache@;
        proof {
            lemma_lookup_child(c0, *disk, *sb, di, old_name.spec_bytes());
            lemma_grows_clean_content(c0, cl, disk@);
            assert(inode_bytes(cl, disk@, *sb, ROOT_INUM) == inode_bytes(c0, disk@, *sb, ROOT_INUM));
            assert forall|dj: DiskInode| #[trigger] decodes_inode(inode_bytes(cl, disk@, *sb, ROOT_INUM), dj) && dj.itype == INODE_DIR
                implies dj.size / 512 <= 12 && crate::jfs::dir::dir_blocks_readable(cl, *disk, dj)
                    && inode_blocks_ok(dj, *sb) && dir_entries_ok(cl, disk@, *sb, dj) by {
                assert(crate::jfs::dir::dir_blocks_readable(c0, *disk, dj));
                assert(dir_entries_ok(c0, disk@, *sb, dj));
                assert forall|i: int| 0 <= i < 12 && #[trigger] dj.direct@[i] != 0 implies readable(cl, *disk, dj.direct@[i]) by {
                    assert(readable(c0, *disk, dj.direct@[i]));
                }
                assert forall|k: int| 0 <= k < 192 && #[trigger] slot_live(cl, disk@, dj, k) implies ({
                    let ci = get_u32(slot_bytes(cl, disk@, dj, k), 0);
                    &&& 0 < ci < sb.ninodes
                    &&& forall|cd: DiskInode| #[trigger] decodes_inode(inode_bytes(cl, disk@, *sb, ci), cd) ==> inode_blocks_ok(cd, *sb)
                }) by {
                    assert(slot_bytes(cl, disk@, dj, k) == slot_bytes(c0, disk@, dj, k));
                    assert(slot_live(c0, disk@, dj, k));
                    let ci = get_u32(slot_bytes(cl, disk@, dj, k), 0);
                    assert(inode_bytes(cl, disk@, *sb, ci) == inode_bytes(c0, disk@, *sb, ci));
                }
            }
        }
        journal.begin_tx();
        let mut dinode = InodeOps::iget(cache, disk, sb, inum);
        let ghost dn1 = dinode;
        let ghost c2 = cache@;
        proof {
            assert(cache_grows_clean(cl, c2, disk@));
            lemma_grows_clean_content(cl, c2, disk@);
        }
        dinode.nlink = dinode.nlink.wrapping_add(1);
        InodeOps::iupdate(cache, disk, sb, inum, &dinode);
        let ghost c3 = cache@;
        let ghost ib = inode_block(*sb, inum) as u32;
        proof {
            lemma_inode_roundtrip(dinode);
            assert(inode_bytes(c3, disk@, *sb, inum) =~= encode_inode(dinode));
            assert forall|cd: DiskInode, cd3: DiskInode|
                #[trigger] decodes_inode(inode_bytes(cl, disk@, *sb, inum), cd) && #[trigger] decodes_inode(inode_bytes(c3, disk@, *sb, inum), cd3)
                implies cd3.nlink == (if cd.nlink == 65535 { 0 } else { cd.nlink + 1 }) && cd3.itype == cd.itype
                    && cd3.size == cd.size && cd3.direct@ == cd.direct@ by {
                assert(inode_bytes(c2, disk@, *sb, inum) == inode_bytes(cl, disk@, *sb, inum));
                lemma_decode_unique(inode_bytes(cl, disk@, *sb, inum), cd, dn1);
                lemma_decode_unique(inode_bytes(c3, disk@, *sb, inum), cd3, dinode);
            }
            assert forall|j: u32| j != inum && j < sb.ninodes implies #[trigger] inode_bytes(c3, disk@, *sb, j) == inode_bytes(cl, disk@, *sb, j) by {
                let jb = inode_block(*sb, j) as u32;
                if jb == ib {
                    lemma_inode_slots(*sb, j, inum);
                    lemma_put_bytes_disjoint(content(c2, disk@, ib)@, inode_offset(inum), encode_inode(dinode), inode_offset(j));
                } else {
                    assert(content(c3, disk@, jb) == content(c2, disk@, jb));
                }
            }
            assert forall|k: u32| !set![ib].contains(k) && (cl.contains_key(k) || k < disk@.len())
                implies #[trigger] content(c3, disk@, k) == content(cl, disk@, k) by {
                assert(content(c3, disk@, k) == content(c2, disk@, k));
            }
            assert(bumped(cl, c3, disk@, *sb, inum));
            lemma_bump_keeps_root(c0, cl, c3, *disk, *sb, old_name.spec_bytes(), inum);
        }
        let ur = DirOps::unlink(cache, disk, sb, ROOT_INUM, old_name);
        let ghost c4 = cache@;
        proof {
            let dj = lemma_decode_exists(inode_bytes(c3, disk@, *sb, ROOT_INUM));
            assert(dj.itype == INODE_DIR);
            assert(ur == Ok::<u32, DirError>(inum));
        }
        match ur {
            Err(e) => {
                return Err(FsError::Dir(e));
            },
            Ok(_) => {},
        }
        proof {
            // The root keeps its shape through the unlink.
            let dl = lemma_decode_exists(inode_bytes(c3, disk@, *sb, ROOT_INUM));
            assert forall|da: DiskInode, db: DiskInode|
                #[trigger] decodes_inode(inode_bytes(c0, disk@, *sb, ROOT_INUM), da)
                && #[trigger] decodes_inode(inode_bytes(c4, disk@, *sb, ROOT_INUM), db) && db.itype == INODE_DIR
                implies da.itype == INODE_DIR && db.size == da.size && db.direct@ == da.direct@ by {
                assert(dl.itype == INODE_DIR);
                if inum != ROOT_INUM {
                    assert(inode_bytes(c4, disk@, *sb, ROOT_INUM) == inode_bytes(c3, disk@, *sb, ROOT_INUM));
                } else {
                    assert(crate::jfs::dir::link_dropped(dl, db, content(c3, disk@, sb.data_bitmap)@,
                        content(c4, disk@, sb.data_bitmap)@, sb.data_start));
                }
            }
            assert(root_shape_kept(c0, c4, disk@, *sb));
            lemma_root_kept_ok(c0, c4, *disk, *sb);
        }
        let lr = DirOps::link(cache, disk, sb, ROOT_INUM, new_name, inum);
        match lr {
            Err(e) => {
                return Err(FsError::Dir(e));
            },
            Ok(()) => {},
        }
        proof {
            if inum != ROOT_INUM {
                Self::lemma_rename_keeps_inode(c0, cl, c3, c4, cache@, disk@, *sb, new_name.spec_bytes(), inum);
                if file_blocks_ok(c0, disk@, *sb, old_name.spec_bytes()) && 1 <= inode_in(c0, disk@, *sb, inum).nlink < 65535 {
                    Self::lemma_rename_keeps_content(c0, cl, c3, c4, cache@, *disk, *sb, old_name.spec_bytes(), new_name.spec_bytes(), inum);
                }
            }
        }
        journal.commit(disk, cache);
        Ok(())
    }

    /// Through one more link, the unlink of `old_name` and a successful
    /// link of `new_name`, the data blocks of file `inum` keep their
    /// content, when they lie apart from the root directory's and are
    /// marked in use (see `file_blocks_ok`).
    proof fn lemma_rename_keeps_content(
        c0: Map<u32, CachedBlock>,
        cl: Map<u32, CachedBlock>,
        c3: Map<u32, CachedBlock>,
        c4: Map<u32, CachedBlock>,
        c5: Map<u32, CachedBlock>,
        disk: FileDisk,
        sb: Superblock,
        old_name: Seq<u8>,
        new_name: Seq<u8>,
        inum: u32,
    )
        requires
            inum != ROOT_INUM,
            0 < inum < sb.ninodes,
            root_ok(c0, disk, sb),
            root_lookup(c0, disk@, sb, old_name) == Some(inum),
            file_blocks_ok(c0, disk@, sb, old_name),
            1 <= inode_in(c0, disk@, sb, inum).nlink < 65535,
            cache_grows_clean(c0, cl, disk@),
            bumped(cl, c3, disk@, sb, inum),
            crate::jfs::dir::unlink_outcome(c3, c4, disk@, sb, ROOT_INUM, old_name, Ok::<u32, DirError>(inum)),
            crate::jfs::dir::link_outcome(c4, c5, disk@, sb, ROOT_INUM, new_name, inum, Ok::<(), DirError>(())),
        ensures
            forall|i: int| 0 <= i < 12 && #[trigger] inode_in(c0, disk@, sb, inum).direct@[i] != 0
                ==> content(c5, disk@, inode_in(c0, disk@, sb, inum).direct@[i]) == content(c0, disk@, inode_in(c0, disk@, sb, inum).direct@[i]),
    {
        let d = disk@;
        let cd = inode_in(c0, d, sb, inum);
        let rd = inode_in(c0, d, sb, ROOT_INUM);
        let bm0 = content(c0, d, sb.data_bitmap)@;
        assert(decodes_inode(inode_bytes(c0, d, sb, ROOT_INUM), rd)) by {
            let _ = lemma_decode_exists(inode_bytes(c0, d, sb, ROOT_INUM));
        }
        assert(decodes_inode(inode_bytes(c0, d, sb, inum), cd)) by {
            let _ = lemma_decode_exists(inode_bytes(c0, d, sb, inum));
        }
        assert(rd.itype == INODE_DIR);
        assert(inode_blocks_ok(rd, sb));
        assert(sb_ok(sb, disk));
        lemma_rename_bump_step(c0, cl, c3, d, sb, inum, cd);
        assert(decodes_inode(inode_bytes(c3, d, sb, ROOT_INUM), rd));
        lemma_rename_unlink_step(c3, c4, d, sb, old_name, inum, rd);
        assert(decodes_inode(inode_bytes(c4, d, sb, ROOT_INUM), rd));
        lemma_rename_link_step(c4, c5, d, sb, new_name, inum, rd);
        assert forall|i: int| 0 <= i < 12 && #[trigger] cd.direct@[i] != 0
            implies content(c5, d, cd.direct@[i]) == content(c0, d, cd.direct@[i]) by {
            let x = cd.direct@[i];
            assert(sb.data_start <= x < sb.nblocks && bit_set(bm0, x - sb.data_start));
            assert forall|j: int| 0 <= j < 12 implies #[trigger] rd.direct@[j] != x by {}
            assert(content(c3, d, x) == content(c0, d, x));
            assert(content(c4, d, x) == content(c3, d, x));
            assert(content(c5, d, x) == content(c4, d, x));
        }
    }

    /// Through one more link, the unlink of one name and a successful link
    /// of another, inode `inum` (not the root) keeps its type, size, blocks
    /// and link count.
    proof fn lemma_rename_keeps_inode(
        c0: Map<u32, CachedBlock>,
        cl: Map<u32, CachedBlock>,
        c3: Map<u32, CachedBlock>,
        c4: Map<u32, CachedBlock>,
        c5: Map<u32, CachedBlock>,
        d: Seq<Block>,
        sb: Superblock,
        name: Seq<u8>,
        inum: u32,
    )
        requires
            inum != ROOT_INUM,
            0 < inum < sb.ninodes,
            sb.ninodes >= 1,
            sb.inode_start + (sb.ninodes - 1) / 8 < sb.data_start,
            cache_grows_clean(c0, cl, d),
            bumped(cl, c3, d, sb, inum),
            forall|cd: DiskInode, cd2: DiskInode|
                #[trigger] decodes_inode(inode_bytes(c3, d, sb, inum), cd) && #[trigger] decodes_inode(inode_bytes(c4, d, sb, inum), cd2)
                ==> crate::jfs::dir::link_dropped(cd, cd2, content(c3, d, sb.data_bitmap)@, content(c4, d, sb.data_bitmap)@, sb.data_start),
            crate::jfs::dir::link_outcome(c4, c5, d, sb, ROOT_INUM, name, inum, Ok::<(), DirError>(())),
            forall|di: DiskInode| #[trigger] decodes_inode(inode_bytes(c4, d, sb, ROOT_INUM), di) && di.itype == INODE_DIR
                ==> inode_blocks_ok(di, sb),
            inode_block(sb, inum) < d.len(),
        ensures
            forall|cd: DiskInode, cd2: DiskInode|
                #[trigger] decodes_inode(inode_bytes(c0, d, sb, inum), cd)
                && #[trigger] decodes_inode(inode_bytes(c5, d, sb, inum), cd2) && 1 <= cd.nlink < 65535
                ==> cd2.nlink == cd.nlink && cd2.itype == cd.itype && cd2.size == cd.size && cd2.direct@ == cd.direct@,
    {
        lemma_grows_clean_content(c0, cl, d);
        assert(inode_bytes(cl, d, sb, inum) == inode_bytes(c0, d, sb, inum));
        let dr = lemma_decode_exists(inode_bytes(c4, d, sb, ROOT_INUM));
        let ib = inode_block(sb, inum) as u32;
        if dr.itype == INODE_DIR {
            match crate::jfs::dir::link_slot(c4, d, dr, 0) {
                Some(k) => {
                    let b = dr.direct@[k / 16];
                    if b != 0 {
                        crate::jfs::dir::lemma_link_slot_range(c4, d, dr, 0);
                        assert(content(c5, d, ib) == content(c4, d, ib));
                    }
                },
                None => {},
            }
        }
        assert(inode_bytes(c5, d, sb, inum) == inode_bytes(c4, d, sb, inum));
        let c3d = lemma_decode_exists(inode_bytes(c3, d, sb, inum));
        assert forall|cd: DiskInode, cd2: DiskInode|
            #[trigger] decodes_inode(inode_bytes(c0, d, sb, inum), cd)
            && #[trigger] decodes_inode(inode_bytes(c5, d, sb, inum), cd2) && 1 <= cd.nlink < 65535
            implies cd2.nlink == cd.nlink && cd2.itype == cd.itype && cd2.size == cd.size && cd2.direct@ == cd.direct@ by {
            assert(decodes_inode(inode_bytes(cl, d, sb, inum), cd));
            assert(decodes_inode(inode_bytes(c4, d, sb, inum), cd2));
            assert(c3d.nlink == cd.nlink + 1);
        }
    }

    /// What writing `len` bytes at `offset` of file `name` does: refused
    /// when there is no such file; else at most `len` bytes are written and
    /// the inode changes as `inode_after_write` says.
    /// Before a write to the file `inum` that `name` names, read into the
    /// cache as `dn`: the inode sits between the bitmap and the data area,
    /// and its blocks are distinct and marked in use.
    proof fn lemma_write_ready(
        c0: Map<u32, CachedBlock>,
        c2: Map<u32, CachedBlock>,
        disk: FileDisk,
        sb: Superblock,
        name: Seq<u8>,
        inum: u32,
        dn: DiskInode,
    )
        requires
            root_ok(c0, disk, sb),
            file_blocks_ok(c0, disk@, sb, name),
            root_lookup(c0, disk@, sb, name) == Some(inum),
            cache_grows_clean(c0, c2, disk@),
            decodes_inode(inode_bytes(c0, disk@, sb, inum), dn),
        ensures
            sb.data_bitmap < inode_block(sb, inum) < sb.data_start,
            blocks_distinct(dn),
            blocks_marked(dn, sb, content(c2, disk@, sb.data_bitmap)@),
    {
        lemma_grows_clean_content(c0, c2, disk@);
        let rd = inode_in(c0, disk@, sb, ROOT_INUM);
        let _ = lemma_decode_exists(inode_bytes(c0, disk@, sb, ROOT_INUM));
        lemma_lookup_child(c0, disk, sb, rd, name);
        let cd = inode_in(c0, disk@, sb, inum);
        let _ = lemma_decode_exists(inode_bytes(c0, disk@, sb, inum));
        lemma_decode_unique(inode_bytes(c0, disk@, sb, inum), cd, dn);
        assert(inum / 8 <= (sb.ninodes - 1) / 8);
        assert(content(c2, disk@, sb.data_bitmap) == content(c0, disk@, sb.data_bitmap));
    }

    /// A write to file `inum`, which `name` names in the root directory,
    /// changes neither the root inode nor the root directory's blocks, so
    /// `name` still names `inum` afterwards.
    proof fn lemma_write_keeps_lookup(
        c0: Map<u32, CachedBlock>,
        c2: Map<u32, CachedBlock>,
        c3: Map<u32, CachedBlock>,
        disk: FileDisk,
        sb: Superblock,
        name: Seq<u8>,
        inum: u32,
        dn0: DiskInode,
        dn: DiskInode,
    )
        requires
            root_ok(c0, disk, sb),
            file_blocks_ok(c0, disk@, sb, name),
            root_lookup(c0, disk@, sb, name) == Some(inum),
            cache_grows_clean(c0, c2, disk@),
            decodes_inode(inode_bytes(c0, disk@, sb, inum), dn0),
            forall|k: u32| k != sb.data_bitmap && k != inode_block(sb, inum) && !data_blocks(dn).contains(k)
                && (c2.contains_key(k) || k < disk@.len()) ==> #[trigger] content(c3, disk@, k) == content(c2, disk@, k),
            content(c3, disk@, inode_block(sb, inum) as u32)@ == crate::jfs::codec::put_bytes(
                content(c2, disk@, inode_block(sb, inum) as u32)@,
                inode_offset(inum),
                crate::jfs::inode::encode_inode(dn),
            ),
            forall|i: int| 0 <= i < 12 && #[trigger] dn0.direct@[i] != 0 ==> dn.direct@[i] == dn0.direct@[i],
            forall|i: int| 0 <= i < 12 && dn0.direct@[i] == 0 && #[trigger] dn.direct@[i] != 0
                ==> sb.data_start <= dn.direct@[i] < sb.nblocks
                && !bit_set(content(c2, disk@, sb.data_bitmap)@, dn.direct@[i] - sb.data_start),
        ensures
            root_lookup(c3, disk@, sb, name) == Some(inum),
    {
        let d = disk@;
        lemma_grows_clean_content(c0, c2, d);
        let rd = inode_in(c0, d, sb, ROOT_INUM);
        let _ = lemma_decode_exists(inode_bytes(c0, d, sb, ROOT_INUM));
        assert(decodes_inode(inode_bytes(c0, d, sb, ROOT_INUM), rd));
        assert(rd.itype == INODE_DIR);
        lemma_lookup_child(c0, disk, sb, rd, name);
        let cd = inode_in(c0, d, sb, inum);
        let _ = lemma_decode_exists(inode_bytes(c0, d, sb, inum));
        lemma_decode_unique(inode_bytes(c0, d, sb, inum), cd, dn0);
        let n = (rd.size / 512) * 16;
        assert(n <= 192);
        lemma_find_found(c0, d, rd, name, 0, n);
        let k = dir_find(c0, d, rd, name, 0, n)->0;
        assert(slot_live(c0, d, rd, k));
        let ib = inode_block(sb, inum) as u32;
        let rb = inode_block(sb, ROOT_INUM) as u32;
        // The file is not the root directory: they share no block.
        if inum == ROOT_INUM {
            assert(cd.direct@[k / 16] != rd.direct@[k / 16]);
        }
        // The root inode keeps its bytes.
        assert forall|i: int| 0 <= i < 12 && #[trigger] dn.direct@[i] != 0 implies sb.data_start <= dn.direct@[i] by {
            if dn0.direct@[i] != 0 {
                assert(cd.direct@[i] != 0);
            }
        }
        if rb != ib {
            assert(!data_blocks(dn).contains(rb));
            assert(content(c3, d, rb) == content(c2, d, rb));
        } else {
            lemma_inode_roundtrip(dn);
            lemma_inode_slots(sb, ROOT_INUM, inum);
            crate::jfs::dir::lemma_put_bytes_disjoint(content(c2, d, ib)@, inode_offset(inum), crate::jfs::inode::encode_inode(dn),
                inode_offset(ROOT_INUM));
        }
        assert(inode_bytes(c3, d, sb, ROOT_INUM) == inode_bytes(c0, d, sb, ROOT_INUM));
        // The root directory's blocks keep their bytes.
        let bm = content(c0, d, sb.data_bitmap)@;
        assert forall|i: int| 0 <= i < 12 && #[trigger] rd.direct@[i] != 0 implies content(c0, d, rd.direct@[i]) == content(c3, d, rd.direct@[i]) by {
            let b = rd.direct@[i];
            assert(bit_set(bm, b - sb.data_start));
            if data_blocks(dn).contains(b) {
                let j = choose|j: int| 0 <= j < 12 && dn.direct@[j] == b;
                if dn0.direct@[j] != 0 {
                    assert(cd.direct@[j] != rd.direct@[i]);
                } else {
                    assert(content(c2, d, sb.data_bitmap) == content(c0, d, sb.data_bitmap));
                }
            }
            assert(content(c3, d, b) == content(c2, d, b));
        }
        lemma_find_own_blocks(c0, c3, d, rd, name, 0, n);
    }

    /// After `writei` took inode `dn0` of cache `c2` (a clean growth of
    /// `c0`) to `dn` in `c3`: the file in `c3` reads `data[..n]` at
    /// `offset` and its other bytes as in `c0`.
    proof fn lemma_write_done(
        c0: Map<u32, CachedBlock>,
        c2: Map<u32, CachedBlock>,
        c3: Map<u32, CachedBlock>,
        d: Seq<Block>,
        sb: Superblock,
        inum: u32,
        dn0: DiskInode,
        dn: DiskInode,
        data: Seq<u8>,
        offset: int,
        n: int,
    )
        requires
            cache_grows_clean(c0, c2, d),
            decodes_inode(inode_bytes(c0, d, sb, inum), dn0),
            inode_bytes(c3, d, sb, inum) == encode_inode(dn),
            crate::jfs::inode::written_so_far(c2, c3, d, dn0, dn, data, offset, n),
        ensures
            forall|k: int| 0 <= k < n ==> #[trigger] file_byte(c3, d, inode_in(c3, d, sb, inum), offset + k) == data[k],
            forall|pos: int| 0 <= pos < 6144 && !(offset <= pos < offset + n) ==> #[trigger] file_byte(
                c3,
                d,
                inode_in(c3, d, sb, inum),
                pos,
            ) == file_byte(c0, d, inode_in(c0, d, sb, inum), pos),
            inode_in(c3, d, sb, inum).size == dn.size,
            inode_in(c3, d, sb, inum).itype == dn.itype,
            inode_in(c3, d, sb, inum).nlink == dn.nlink,
            inode_in(c3, d, sb, inum).direct@ == dn.direct@,
            inode_in(c0, d, sb, inum).size == dn0.size,
            inode_in(c0, d, sb, inum).itype == dn0.itype,
            inode_in(c0, d, sb, inum).nlink == dn0.nlink,
            inode_in(c0, d, sb, inum).direct@ == dn0.direct@,
    {
        lemma_inode_roundtrip(dn);
        lemma_grows_clean_content(c0, c2, d);
        let cd = inode_in(c0, d, sb, inum);
        let _ = lemma_decode_exists(inode_bytes(c0, d, sb, inum));
        lemma_decode_unique(inode_bytes(c0, d, sb, inum), cd, dn0);
        let cd2 = inode_in(c3, d, sb, inum);
        let _ = lemma_decode_exists(inode_bytes(c3, d, sb, inum));
        lemma_decode_unique(inode_bytes(c3, d, sb, inum), cd2, dn);
        assert forall|k: int| 0 <= k < n implies #[trigger] file_byte(c3, d, cd2, offset + k) == data[k] by {
            assert(file_byte(c3, d, dn, offset + k) == data[k]);
        }
        assert forall|pos: int| 0 <= pos < 6144 && !(offset <= pos < offset + n) implies #[trigger] file_byte(c3, d, cd2, pos)
            == file_byte(c0, d, cd, pos) by {
            assert(file_byte(c3, d, dn, pos) == file_byte(c2, d, dn0, pos));
        }
    }

    pub open spec fn write_outcome(
        c: Map<u32, CachedBlock>,
        c2: Map<u32, CachedBlock>,
        d: Seq<Block>,
        sb: Superblock,
        name: Seq<u8>,
        offset: int,
        data: Seq<u8>,
        r: Result<usize, FsError>,
    ) -> bool {
        match root_lookup(c, d, sb, name) {
            None => r == Err::<usize, FsError>(FsError::NotFound) && cache_grows_clean(c, c2, d),
            Some(inum) => {
                let cd = inode_in(c, d, sb, inum);
                let cd2 = inode_in(c2, d, sb, inum);
                &&& r is Ok
                &&& root_lookup(c2, d, sb, name) == Some(inum)
                &&& r->Ok_0 <= data.len()
                &&& r->Ok_0 > 0 ==> offset + r->Ok_0 <= 6144
                &&& r->Ok_0 == write_len(offset, data.len() as int) || (r->Ok_0 < write_len(offset, data.len() as int)
                    && cd2.direct@[(offset + r->Ok_0) / 512] == 0 && data_bitmap_full(content(c2, d, sb.data_bitmap)@, sb))
                &&& inode_after_write(cd, cd2, offset, r->Ok_0 as int)
                &&& forall|k: int| 0 <= k < r->Ok_0 ==> #[trigger] file_byte(c2, d, cd2, offset + k) == data[k]
                &&& forall|pos: int| 0 <= pos < 6144 && !(offset <= pos < offset + r->Ok_0) ==> #[trigger] file_byte(c2, d, cd2, pos)
                    == file_byte(c, d, cd, pos)
            },
        }
    }
}

/// Where `link_slot` stops from `k0`: every earlier slot is in an
/// allocated block and holds an entry; the slot itself is in an
/// unallocated block or free.
proof fn lemma_link_slot_props(c: Map<u32, CachedBlock>, d: Seq<Block>, di: DiskInode, k0: int)
    requires
        0 <= k0,
    ensures
        crate::jfs::dir::link_slot(c, d, di, k0) matches Some(k) ==> {
            &&& k0 <= k < 192
            &&& forall|j: int| k0 <= j < k ==> #[trigger] di.direct@[j / 16] != 0 && get_u32(slot_bytes(c, d, di, j), 0) != 0
            &&& di.direct@[k / 16] == 0 || get_u32(slot_bytes(c, d, di, k), 0) == 0
        },
    decreases 192 - k0,
{
    if k0 < 192 {
        lemma_link_slot_props(c, d, di, k0 + 1);
    }
}

/// A new entry for `child` named `name` holds `child` and matches `name`.
proof fn lemma_new_entry(child: u32, name: Seq<u8>)
    ensures
        crate::jfs::dir::new_dirent_bytes(child, name).len() == 32,
        get_u32(crate::jfs::dir::new_dirent_bytes(child, name), 0) == child,
        crate::jfs::dir::name_matches(crate::jfs::dir::new_dirent_bytes(child, name).subrange(4, 32), name),
{
    let z32 = Seq::new(32, |i: int| 0u8);
    let p = crate::jfs::codec::put_u32(z32, 0, child);
    crate::jfs::codec::lemma_get_put_u32(z32, 0, child);
    let e = crate::jfs::dir::new_dirent_bytes(child, name);
    assert(e.subrange(0, 4) =~= p.subrange(0, 4));
    assert(get_u32(e, 0) == get_u32(p, 0));
    let f = crate::jfs::dir::name_field(name);
    assert(e.subrange(4, 32) =~= f);
    let len = crate::jfs::dir::match_len(name);
    assert(f.subrange(0, len) =~= name.subrange(0, len));
}

/// After a successful link of `child` (not 0) under `name` in directory
/// `dir_inum`, looking the name up there finds `child`. The directory is
/// taken as `link` and `init_root` keep it: its allocated blocks are the
/// first ones, as many as its size covers, distinct, in the data area and
/// marked in use.
#[verifier::rlimit(100)]
#[verifier::spinoff_prover]
pub proof fn law_lookup_after_link(
    c: Map<u32, CachedBlock>,
    c2: Map<u32, CachedBlock>,
    d: Seq<Block>,
    sb: Superblock,
    dir_inum: u32,
    name: Seq<u8>,
    child: u32,
)
    requires
        crate::jfs::dir::link_outcome(c, c2, d, sb, dir_inum, name, child, Ok::<(), DirError>(())),
        child != 0,
        dir_inum < sb.ninodes,
        sb.data_bitmap < sb.data_start,
        sb.inode_start + (sb.ninodes - 1) / 8 < sb.data_start,
        sb.nblocks <= d.len(),
        forall|di: DiskInode| #[trigger] decodes_inode(inode_bytes(c, d, sb, dir_inum), di) ==> {
            &&& di.size / 512 <= 12
            &&& forall|i: int| 0 <= i < 12 ==> (#[trigger] di.direct@[i] != 0) == (i < di.size / 512)
            &&& blocks_distinct(di)
            &&& blocks_marked(di, sb, content(c, d, sb.data_bitmap)@)
        },
    ensures
        forall|di2: DiskInode| #[trigger] decodes_inode(inode_bytes(c2, d, sb, dir_inum), di2)
            ==> dir_lookup(c2, d, di2, name) == Some(child),
{
    let di = lemma_decode_exists(inode_bytes(c, d, sb, dir_inum));
    assert(dir_lookup(c, d, di, name) is None && di.itype == INODE_DIR);
    lemma_link_slot_props(c, d, di, 0);
    lemma_new_entry(child, name);
    let k = crate::jfs::dir::link_slot(c, d, di, 0)->0;
    let n = (di.size / 512) * 16;
    let entry = crate::jfs::dir::new_dirent_bytes(child, name);
    let b = di.direct@[k / 16];
    // No slot in the searched range matches the name before the link.
    crate::jfs::dir::lemma_find_none(c, d, di, name, 0, n);
    if b != 0 {
        let ib = inode_block(sb, dir_inum) as u32;
        assert(sb.data_start <= b);
        assert(content(c2, d, ib) == content(c, d, ib));
        assert(inode_bytes(c2, d, sb, dir_inum) == inode_bytes(c, d, sb, dir_inum));
        assert(k < n);
        assert forall|j: int| 0 <= j < k implies !#[trigger] crate::jfs::dir::slot_named(c2, d, di, j, name) by {
            let bj = di.direct@[j / 16];
            if bj != b {
                assert(sb.data_start <= bj);
                assert(content(c2, d, bj) == content(c, d, bj));
            } else {
                assert(j / 16 == k / 16);
                assert(content(c, d, b)@.len() == 512);
                assert(slot_bytes(c2, d, di, j) =~= slot_bytes(c, d, di, j));
            }
            assert(slot_bytes(c2, d, di, j) == slot_bytes(c, d, di, j));
            assert(!crate::jfs::dir::slot_named(c, d, di, j, name));
        }
        assert(content(c, d, b)@.len() == 512);
        assert(slot_bytes(c2, d, di, k) =~= entry);
        assert(crate::jfs::dir::slot_named(c2, d, di, k, name));
        crate::jfs::dir::lemma_find_skip(c2, d, di, name, 0, k, n);
        assert forall|di2: DiskInode| #[trigger] decodes_inode(inode_bytes(c2, d, sb, dir_inum), di2)
            implies dir_lookup(c2, d, di2, name) == Some(child) by {
            lemma_decode_unique(inode_bytes(c2, d, sb, dir_inum), di2, di);
            assert forall|j: int| 0 <= j < 192 implies slot_bytes(c2, d, di2, j) == slot_bytes(c2, d, di, j)
                && (#[trigger] crate::jfs::dir::slot_named(c2, d, di2, j, name)) == crate::jfs::dir::slot_named(c2, d, di, j, name) by {}
            crate::jfs::dir::lemma_find_skip(c2, d, di2, name, 0, k, n);
        }
    } else {
        let m = di.size / 512;
        assert(k / 16 >= m);
        if k / 16 > m {
            let j = m * 16;
            assert(di.direct@[j / 16] == 0);
            assert(false);
        }
        if k % 16 != 0 {
            let j = k - 1;
            assert(j / 16 == k / 16);
            assert(false);
        }
        assert(k == n);
        let nb = choose|nb: u32|
            #![trigger content(c2, d, nb)]
            {
                &&& sb.data_start <= nb < sb.nblocks
                &&& !bit_set(content(c, d, sb.data_bitmap)@, nb - sb.data_start)
                &&& forall|j: int| 0 <= j < nb - sb.data_start ==> #[trigger] bit_set(content(c, d, sb.data_bitmap)@, j)
                &&& content(c2, d, nb)@ == put_bytes(Seq::new(512, |i: int| 0u8), 0, entry)
                &&& forall|di2: DiskInode| #[trigger] decodes_inode(inode_bytes(c2, d, sb, dir_inum), di2)
                    ==> {
                    &&& di2.direct@ == di.direct@.update(k / 16, nb)
                    &&& di2.size == crate::jfs::dir::grown_size(k / 16)
                    &&& di2.itype == di.itype
                    &&& di2.nlink == di.nlink
                }
                &&& unchanged_except(c, c2, d, set![nb, sb.data_bitmap, inode_block(sb, dir_inum) as u32])
                &&& forall|j: u32| j != dir_inum && j < sb.ninodes ==> #[trigger] inode_bytes(c2, d, sb, j) == inode_bytes(c, d, sb, j)
            };
        assert forall|di2: DiskInode| #[trigger] decodes_inode(inode_bytes(c2, d, sb, dir_inum), di2)
            implies dir_lookup(c2, d, di2, name) == Some(child) by {
            let n2 = (di2.size / 512) * 16;
            assert(n2 == k + 16);
            assert forall|j: int| 0 <= j < k implies !#[trigger] crate::jfs::dir::slot_named(c2, d, di2, j, name) by {
                let bj = di.direct@[j / 16];
                assert(di2.direct@[j / 16] == bj);
                assert(bj != 0);
                assert(bit_set(content(c, d, sb.data_bitmap)@, bj - sb.data_start));
                assert(bj != nb);
                assert(sb.data_start <= bj);
                assert(content(c2, d, bj) == content(c, d, bj));
                assert(slot_bytes(c2, d, di2, j) == slot_bytes(c, d, di, j));
                assert(!crate::jfs::dir::slot_named(c, d, di, j, name));
            }
            assert(di2.direct@[k / 16] == nb);
            assert(slot_bytes(c2, d, di2, k) =~= entry);
            assert(crate::jfs::dir::slot_named(c2, d, di2, k, name));
            crate::jfs::dir::lemma_find_skip(c2, d, di2, name, 0, k, n2);
        }
    }
}

/// Slot `j` of directory `di` after its slot `k`, the one entry named
/// `name`, was zeroed: it names `name` no more.
proof fn lemma_unlinked_slot(
    c: Map<u32, CachedBlock>,
    c2: Map<u32, CachedBlock>,
    d: Seq<Block>,
    sb: Superblock,
    di: DiskInode,
    name: Seq<u8>,
    k: int,
    j: int,
    ib: u32,
)
    requires
        0 <= k < 192,
        0 <= j < 192,
        crate::jfs::dir::slot_named(c, d, di, k, name),
        ib < sb.data_start,
        sb.data_bitmap < sb.data_start,
        sb.nblocks <= d.len(),
        inode_blocks_ok(di, sb),
        unchanged_except(c, c2, d, set![di.direct@[k / 16], ib, sb.data_bitmap]),
        content(c2, d, di.direct@[k / 16])@ == put_bytes(content(c, d, di.direct@[k / 16])@, (k % 16) * 32, Seq::new(32, |i: int| 0u8)),
        forall|j1: int, j2: int| 0 <= j1 < 192 && 0 <= j2 < 192 && #[trigger] crate::jfs::dir::slot_named(c, d, di, j1, name)
            && #[trigger] crate::jfs::dir::slot_named(c, d, di, j2, name) ==> j1 == j2,
    ensures
        !crate::jfs::dir::slot_named(c2, d, di, j, name),
{
    let blk = di.direct@[k / 16];
    let bj = di.direct@[j / 16];
    if bj != 0 {
        assert(sb.data_start <= bj < sb.nblocks);
        assert(content(c, d, blk)@.len() == 512);
        if bj != blk {
            assert(!set![blk, ib, sb.data_bitmap].contains(bj));
            assert(content(c2, d, bj) == content(c, d, bj));
            assert(slot_bytes(c2, d, di, j) == slot_bytes(c, d, di, j));
            if j != k {
                assert(!crate::jfs::dir::slot_named(c, d, di, j, name));
            }
        } else if j % 16 == k % 16 {
            assert(slot_bytes(c2, d, di, j) =~= Seq::new(32, |i: int| 0u8));
            assert(get_u32(slot_bytes(c2, d, di, j), 0) == 0);
        } else {
            assert(slot_bytes(c2, d, di, j) =~= slot_bytes(c, d, di, j));
            assert(j != k);
            assert(!crate::jfs::dir::slot_named(c, d, di, j, name));
        }
    }
}

/// After a successful unlink of `name` from directory `dir_inum`, looking
/// the name up there finds nothing, when the name had one entry and the
/// entry named another inode than the directory itself.
pub proof fn law_lookup_after_unlink(
    c: Map<u32, CachedBlock>,
    c2: Map<u32, CachedBlock>,
    d: Seq<Block>,
    sb: Superblock,
    dir_inum: u32,
    name: Seq<u8>,
    child: u32,
)
    requires
        crate::jfs::dir::unlink_outcome(c, c2, d, sb, dir_inum, name, Ok::<u32, DirError>(child)),
        child != dir_inum,
        dir_inum < sb.ninodes,
        child < sb.ninodes,
        sb.data_bitmap < sb.data_start,
        sb.inode_start + (sb.ninodes - 1) / 8 < sb.data_start,
        sb.nblocks <= d.len(),
        forall|di: DiskInode| #[trigger] decodes_inode(inode_bytes(c, d, sb, dir_inum), di) ==> {
            &&& inode_blocks_ok(di, sb)
            &&& di.size / 512 <= 12
            &&& forall|j1: int, j2: int| 0 <= j1 < 192 && 0 <= j2 < 192 && #[trigger] crate::jfs::dir::slot_named(c, d, di, j1, name)
                && #[trigger] crate::jfs::dir::slot_named(c, d, di, j2, name) ==> j1 == j2
        },
    ensures
        forall|di2: DiskInode| #[trigger] decodes_inode(inode_bytes(c2, d, sb, dir_inum), di2) ==> dir_lookup(c2, d, di2, name) is None,
{
    let di = lemma_decode_exists(inode_bytes(c, d, sb, dir_inum));
    assert(di.itype == INODE_DIR);
    let k = dir_find(c, d, di, name, 0, 192)->0;
    lemma_find_found(c, d, di, name, 0, 192);
    let blk = di.direct@[k / 16];
    let ib = inode_block(sb, child) as u32;
    assert(get_u32(slot_bytes(c, d, di, k), 0) == child);
    assert(unchanged_except(c, c2, d, set![blk, ib, sb.data_bitmap]));
    assert(content(c2, d, blk)@ == put_bytes(content(c, d, blk)@, (k % 16) * 32, Seq::new(32, |i: int| 0u8)));
    assert(inode_bytes(c2, d, sb, dir_inum) == inode_bytes(c, d, sb, dir_inum));
    assert forall|j: int| 0 <= j < 192 implies !#[trigger] crate::jfs::dir::slot_named(c2, d, di, j, name) by {
        lemma_unlinked_slot(c, c2, d, sb, di, name, k, j, ib);
    }
    assert forall|di2: DiskInode| #[trigger] decodes_inode(inode_bytes(c2, d, sb, dir_inum), di2)
        implies dir_lookup(c2, d, di2, name) is None by {
        lemma_decode_unique(inode_bytes(c2, d, sb, dir_inum), di2, di);
        let n = (di2.size / 512) * 16;
        if di2.itype == INODE_DIR {
            assert forall|j: int| 0 <= j < 192 implies !#[trigger] crate::jfs::dir::slot_named(c2, d, di2, j, name) by {
                assert(slot_bytes(c2, d, di2, j) == slot_bytes(c2, d, di, j));
                assert(!crate::jfs::dir::slot_named(c2, d, di, j, name));
            }
            lemma_find_found(c2, d, di2, name, 0, n);
            if dir_find(c2, d, di2, name, 0, n) is Some {
                let j = dir_find(c2, d, di2, name, 0, n)->0;
                assert(crate::jfs::dir::slot_named(c2, d, di2, j, name));
                assert(j < 192);
            }
        }
    }
}

/// A read gives back what a write wrote: after `FileOps::write` wrote `n`
/// bytes of `data` at the start of file `name`, the name still names the
/// same file, and a `FileOps::read` into a buffer of `len` bytes reads at
/// least `min(n, len)` bytes, the first of them `data`'s.
pub proof fn law_read_after_write(
    c: Map<u32, CachedBlock>,
    c2: Map<u32, CachedBlock>,
    d: Seq<Block>,
    sb: Superblock,
    name: Seq<u8>,
    data: Seq<u8>,
    n: usize,
    len: nat,
)
    requires
        FileOps::write_outcome(c, c2, d, sb, name, 0, data, Ok(n)),
    ensures
        root_lookup(c2, d, sb, name) == root_lookup(c, d, sb, name),
        root_lookup(c2, d, sb, name) is Some,
        forall|k: int| 0 <= k < n && k < len ==> k < readi_len(inode_in(c2, d, sb, root_lookup(c2, d, sb, name)->0), 0, len)
            && #[trigger] file_byte(c2, d, inode_in(c2, d, sb, root_lookup(c2, d, sb, name)->0), k) == data[k],
{
    let inum = root_lookup(c, d, sb, name)->0;
    let cd = inode_in(c2, d, sb, inum);
    assert forall|k: int| 0 <= k < n && k < len implies k < readi_len(cd, 0, len) && #[trigger] file_byte(c2, d, cd, k) == data[k] by {
        assert(file_byte(c2, d, cd, 0 + k) == data[k]);
    }
}

} // verus!
