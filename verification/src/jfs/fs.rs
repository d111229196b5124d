use vstd::prelude::*;
use crate::jfs::bitmap::{Bitmap, bit_set};
use crate::jfs::block_cache::{BlockCache, CachedBlock, content};
use crate::jfs::codec::{get_u16, get_u32, put_bytes};
use crate::jfs::dir::{DirOps, ROOT_INUM, root_block};
use crate::jfs::disk::{Block, FileDisk};
use crate::jfs::file::{root_ok, lemma_fresh_root_ok, lemma_decode_unique, lemma_decode_exists};
use crate::jfs::inode::{
    DiskInode, InodeOps, INODE_DIR, inode_bytes, inode_block, inode_free, inode_offset, decodes_inode, encode_inode,
    fresh_inode, lemma_inode_roundtrip,
};
use crate::jfs::log::{
    Journal, NoOpLog, RedoLog, UndoLog, image, recover_image, header_recoverable, header_list, logged_write, empty_header,
    lemma_empty_header_zero,
};
use crate::jfs::superblock::{Superblock, FS_MAGIC, layout, decode_superblock};

verus! {

/// Which journal a file system runs with.
#[derive(Debug, Clone, Copy, PartialEq, Eq, Structural)]
pub enum JournalType {
    /// Write-ahead redo log.
    Redo,
    /// Undo log.
    Undo,
    /// No journaling.
    NoOp,
}

impl JournalType {
    /// The lower-case name of the journal type.
    pub fn name(&self) -> (s: &'static str)
        ensures
            s@ == (match *self {
                JournalType::Redo => "redo"@,
                JournalType::Undo => "undo"@,
                JournalType::NoOp => "noop"@,
            }),
    {
        match self {
            JournalType::Redo => "redo",
            JournalType::Undo => "undo",
            JournalType::NoOp => "noop",
        }
    }
}

/// A journal of any of the three types.
pub enum AnyJournal {
    Redo(RedoLog),
    Undo(UndoLog),
    NoOp(NoOpLog),
}

impl Journal for AnyJournal {
    open spec fn inv(&self) -> bool {
        match self {
            AnyJournal::Redo(l) => l.inv(),
            AnyJournal::Undo(l) => l.inv(),
            AnyJournal::NoOp(l) => l.inv(),
        }
    }

    open spec fn in_tx(&self) -> bool {
        match self {
            AnyJournal::Redo(l) => l.in_tx(),
            AnyJournal::Undo(l) => l.in_tx(),
            AnyJournal::NoOp(l) => l.in_tx(),
        }
    }

    open spec fn ready(&self) -> bool {
        match self {
            AnyJournal::Redo(l) => l.ready(),
            AnyJournal::Undo(l) => l.ready(),
            AnyJournal::NoOp(l) => l.ready(),
        }
    }

    open spec fn can_log(&self, block_no: u32) -> bool {
        match self {
            AnyJournal::Redo(l) => l.can_log(block_no),
            AnyJournal::Undo(l) => l.can_log(block_no),
            AnyJournal::NoOp(l) => l.can_log(block_no),
        }
    }

    open spec fn fits(&self, disk: FileDisk) -> bool {
        match self {
            AnyJournal::Redo(l) => l.fits(disk),
            AnyJournal::Undo(l) => l.fits(disk),
            AnyJournal::NoOp(l) => l.fits(disk),
        }
    }

    open spec fn can_recover(&self, disk: FileDisk) -> bool {
        match self {
            AnyJournal::Redo(l) => l.can_recover(disk),
            AnyJournal::Undo(l) => l.can_recover(disk),
            AnyJournal::NoOp(l) => l.can_recover(disk),
        }
    }

    open spec fn nothing_logged(&self) -> bool {
        match self {
            AnyJournal::Redo(l) => l.nothing_logged(),
            AnyJournal::Undo(l) => l.nothing_logged(),
            AnyJournal::NoOp(l) => l.nothing_logged(),
        }
    }

    fn begin_tx(&mut self) {
        match self {
            AnyJournal::Redo(l) => l.begin_tx(),
            AnyJournal::Undo(l) => l.begin_tx(),
            AnyJournal::NoOp(l) => l.begin_tx(),
        }
    }

    /// Logs the write in the journal of the variant (see
    /// `RedoLog::log_write`, `UndoLog::log_write`); a no-op journal stays
    /// as it is.
    fn log_write(&mut self, block_no: u32, data: &Block)
        ensures
            match *old(self) {
                AnyJournal::Redo(l) => *final(self) matches AnyJournal::Redo(l2) && l2.spec_log_start() == l.spec_log_start()
                    && logged_write(l.pending(), l2.pending(), block_no, *data),
                AnyJournal::Undo(l) => *final(self) matches AnyJournal::Undo(l2) && l2.spec_log_start() == l.spec_log_start()
                    && logged_write(l.pending(), l2.pending(), block_no, *data),
                AnyJournal::NoOp(_) => *final(self) == *old(self),
            },
    {
        match self {
            AnyJournal::Redo(l) => l.log_write(block_no, data),
            AnyJournal::Undo(l) => l.log_write(block_no, data),
            AnyJournal::NoOp(l) => l.log_write(block_no, data),
        }
    }

    fn commit(&mut self, disk: &mut FileDisk, cache: &mut BlockCache) {
        match self {
            AnyJournal::Redo(l) => l.commit(disk, cache),
            AnyJournal::Undo(l) => l.commit(disk, cache),
            AnyJournal::NoOp(l) => l.commit(disk, cache),
        }
    }

    fn recover(&mut self, disk: &mut FileDisk, cache: &mut BlockCache) {
        match self {
            AnyJournal::Redo(l) => l.recover(disk, cache),
            AnyJournal::Undo(l) => l.recover(disk, cache),
            AnyJournal::NoOp(l) => l.recover(disk, cache),
        }
    }

    /// Clears the log header of a redo or undo log; leaves the cache alone.
    fn cleanup(&mut self, disk: &mut FileDisk, cache: &mut BlockCache)
        ensures
            final(cache)@ == old(cache)@,
            match *old(self) {
                AnyJournal::Redo(l) => image(final(disk)@) == image(old(disk)@).update(l.spec_log_start() as int, crate::jfs::log::empty_header()),
                AnyJournal::Undo(l) => image(final(disk)@) == image(old(disk)@).update(l.spec_log_start() as int, crate::jfs::log::empty_header()),
                AnyJournal::NoOp(_) => final(disk)@ == old(disk)@,
            },
    {
        match self {
            AnyJournal::Redo(l) => l.cleanup(disk, cache),
            AnyJournal::Undo(l) => l.cleanup(disk, cache),
            AnyJournal::NoOp(l) => l.cleanup(disk, cache),
        }
    }
}

/// Why a disk image cannot be mounted.
#[derive(Debug, Clone, Copy, PartialEq, Eq, Structural)]
pub enum MountError {
    /// Block 1 does not hold the file system's magic number.
    BadMagic,
}

/// A file system: a disk image, its block cache, its superblock and the
/// journal type it runs with.
pub struct FileSystem {
    pub disk: FileDisk,
    pub cache: BlockCache,
    pub sb: Superblock,
    pub journal_type: JournalType,
}

/// A disk image that mounts without going out of bounds: its superblock
/// places the log on the disk and the log header can be recovered from.
pub open spec fn mountable(disk: FileDisk) -> bool {
    let sb = decode_superblock(disk@[1]@);
    &&& disk.wf()
    &&& disk.nblocks > 1
    &&& sb.magic == FS_MAGIC ==> {
        &&& sb.nblocks == disk.nblocks
        &&& sb.log_start < sb.nblocks
        &&& sb.log_start + sb.nlogblocks <= sb.nblocks
        &&& header_recoverable(image(disk@), sb.log_start as int)
    }
}

/// A formatted image mounts with its root directory in order: when the
/// mounted disk shows the same blocks as the formatted one (as `mount`
/// promises for an empty log header), `root_ok` holds of it with the empty
/// cache that `mount` starts with.
pub proof fn law_mounted_root_ok(formatted: FileDisk, mounted: FileDisk, sb: Superblock)
    requires
        root_ok(Map::empty(), formatted, sb),
        mounted@ == formatted@,
        mounted.nblocks == formatted.nblocks,
    ensures
        root_ok(Map::empty(), mounted, sb),
{
}

/// Whether `disk` can be mounted (see `mountable`): it tells a disk that
/// `FileSystem::mount` would read out of bounds from the others.
pub fn check_mountable(disk: &FileDisk) -> (b: bool)
    ensures
        b == mountable(*disk),
{
    if disk.blocks.len() != disk.nblocks as usize || disk.nblocks <= 1 {
        return false;
    }
    let sb = Superblock::read_from_disk(disk);
    if sb.magic != FS_MAGIC {
        return true;
    }
    if sb.nblocks != disk.nblocks || sb.log_start >= sb.nblocks || sb.nlogblocks > sb.nblocks - sb.log_start {
        return false;
    }
    let h = disk.block(sb.log_start);
    let count = crate::jfs::codec::read_u32(&h, 0);
    let committed = crate::jfs::codec::read_u32(&h, 4);
    proof {
        broadcast use vstd::array::group_array_axioms;
        assert(image(disk@)[sb.log_start as int] == h@);
        assert(h@.len() == 512);
    }
    if count == 0 || committed == 0 {
        return true;
    }
    if count > 30 || count as u64 + sb.log_start as u64 + 1 > disk.nblocks as u64 {
        proof {
            assert(!header_recoverable(image(disk@), sb.log_start as int));
        }
        return false;
    }
    let mut i: u32 = 0;
    while i < count
        invariant
            i <= count <= 30,
            h@ == image(disk@)[sb.log_start as int],
            h@.len() == 512,
            count == crate::jfs::codec::get_u32(h@, 0),
            committed == crate::jfs::codec::get_u32(h@, 4),
            committed != 0,
            image(disk@).len() == disk.blocks@.len(),
            sb == decode_superblock(disk@[1]@),
            sb.magic == FS_MAGIC,
            disk.wf(),
            disk.nblocks > 1,
            sb.nblocks == disk.nblocks,
            sb.log_start < sb.nblocks,
            sb.log_start + sb.nlogblocks <= sb.nblocks,
            count + sb.log_start + 1 <= disk.nblocks,
            forall|j: int| 0 <= j < i ==> #[trigger] header_list(h@)[j] < image(disk@).len(),
        decreases count - i,
    {
        let b = crate::jfs::codec::read_u32(&h, 8 + 4 * i as usize);
        if b as usize >= disk.blocks.len() {
            proof {
                assert(header_list(h@)[i as int] == b);
                assert(!header_recoverable(image(disk@), sb.log_start as int));
            }
            return false;
        }
        proof {
            assert(header_list(h@)[i as int] == b);
        }
        i = i + 1;
    }
    true
}

impl FileSystem {
    /// A freshly formatted image of `nblocks` blocks: zeroed, the
    /// superblock of `layout(nblocks)` in block 1, inode 0 reserved, inode 1
    /// the root directory with "." and "..".
    pub fn format(nblocks: u32) -> (disk: FileDisk)
        requires
            nblocks > 93,
        ensures
            disk.wf(),
            disk.nblocks == nblocks,
            decode_superblock(disk@[1]@) == layout(nblocks),
            image(disk@)[layout(nblocks).log_start as int] == empty_header(),
            mountable(disk),
            root_ok(Map::empty(), disk, layout(nblocks)),
            forall|di: DiskInode| #[trigger] decodes_inode(inode_bytes(Map::empty(), disk@, layout(nblocks), ROOT_INUM), di)
                ==> di.itype == INODE_DIR && di.nlink == 1 && di.size == 512
                    && di.direct@ == Seq::new(12, |i: int| 0u32).update(0, layout(nblocks).data_start),
            disk@[layout(nblocks).data_start as int]@ == root_block(),
            bit_set(disk@[layout(nblocks).inode_bitmap as int]@, 0),
            bit_set(disk@[layout(nblocks).data_bitmap as int]@, 0),
    {
        let mut disk = FileDisk::zeroed(nblocks);
        let sb = Superblock::new(nblocks);
        let mut cache = BlockCache::new();
        Bitmap::mark(&mut cache, &disk, sb.inode_bitmap, 0);
        let ghost c1 = cache@;
        proof {
            assert(!c1.contains_key(inode_block(sb, 1) as u32));
            assert(disk@[inode_block(sb, 1)]@ == Seq::new(512, |i: int| 0u8));
            assert(inode_free(c1, disk@, sb, 1));
        }
        let root = InodeOps::ialloc(&mut cache, &disk, &sb, INODE_DIR);
        match root {
            Some(r) => {
                assert(r == 1);
            },
            None => {
                assert(!inode_free(c1, disk@, sb, 1));
            },
        }
        let ghost c2 = cache@;
        let ghost fresh = choose|fresh: DiskInode| fresh_inode(fresh, INODE_DIR) && content(c2, disk@, inode_block(sb, 1) as u32)@
            == put_bytes(content(c1, disk@, inode_block(sb, 1) as u32)@, inode_offset(1), encode_inode(fresh));
        proof {
            lemma_inode_roundtrip(fresh);
            assert(inode_bytes(c2, disk@, sb, ROOT_INUM) =~= encode_inode(fresh));
            assert(content(c2, disk@, sb.inode_bitmap) == content(c1, disk@, sb.inode_bitmap));
        }
        proof {
            assert(content(c2, disk@, sb.data_bitmap) == content(c1, disk@, sb.data_bitmap));
            assert(content(c1, disk@, sb.data_bitmap)@ == Seq::new(512, |i: int| 0u8));
            let x: u8 = content(c2, disk@, sb.data_bitmap)@[0];
            assert(x & (1u8 << 0u8) == 0) by (bit_vector)
                requires
                    x == 0u8,
            ;
            assert(!crate::jfs::bitmap::bit_set(content(c2, disk@, sb.data_bitmap)@, 0));
        }
        DirOps::init_root(&mut cache, &disk, &sb);
        let ghost c3 = cache@;
        let ghost d0 = disk@;
        let ghost nb = choose|nb: u32|
            #![trigger content(c3, d0, nb)]
            {
            let bm = content(c2, d0, sb.data_bitmap)@;
            &&& crate::jfs::block_cache::unchanged_except(c2, c3, d0, set![sb.data_bitmap, nb, inode_block(sb, ROOT_INUM) as u32])
            &&& sb.data_start <= nb < sb.nblocks
            &&& !bit_set(bm, nb - sb.data_start)
            &&& forall|j: int| 0 <= j < nb - sb.data_start ==> #[trigger] bit_set(bm, j)
            &&& content(c3, d0, sb.data_bitmap)@ == crate::jfs::bitmap::with_bit(bm, nb - sb.data_start)
            &&& content(c3, d0, nb)@ == root_block()
            &&& forall|di: DiskInode, di2: DiskInode|
                #[trigger] decodes_inode(inode_bytes(c2, d0, sb, ROOT_INUM), di)
                && #[trigger] decodes_inode(inode_bytes(c3, d0, sb, ROOT_INUM), di2)
                ==> {
                    &&& di2.itype == INODE_DIR
                    &&& di2.nlink == 1
                    &&& di2.size == 512
                    &&& di2.direct@ == di.direct@.update(0, nb)
                }
        };
        proof {
            if nb != sb.data_start {
                assert(bit_set(content(c2, d0, sb.data_bitmap)@, 0));
            }
            crate::jfs::bitmap::lemma_with_bit(content(c2, d0, sb.data_bitmap)@, 0, 0);
            crate::jfs::bitmap::lemma_with_bit(content(Map::empty(), d0, sb.inode_bitmap)@, 0, 0);
        }
        cache.write_through(&mut disk);
        sb.write_to_disk(&mut disk);
        proof {
            crate::jfs::superblock::lemma_superblock_roundtrip(disk@[1]@, sb);
            let ib = inode_block(sb, ROOT_INUM) as u32;
            assert(disk@[ib as int] == content(c3, d0, ib));
            assert(inode_bytes(Map::empty(), disk@, sb, ROOT_INUM) == inode_bytes(c3, d0, sb, ROOT_INUM));
            let dr = lemma_decode_exists(inode_bytes(c3, d0, sb, ROOT_INUM));
            assert(decodes_inode(inode_bytes(c2, d0, sb, ROOT_INUM), fresh));
            assert(dr.direct@ =~= Seq::new(12, |i: int| 0u32).update(0, sb.data_start));
            assert(disk@[sb.data_start as int] == content(c3, d0, nb));
            lemma_fresh_root_ok(disk, sb, dr);
            assert forall|di: DiskInode| #[trigger] decodes_inode(inode_bytes(Map::empty(), disk@, sb, ROOT_INUM), di)
                implies di.itype == INODE_DIR && di.nlink == 1 && di.size == 512
                    && di.direct@ == Seq::new(12, |i: int| 0u32).update(0, sb.data_start) by {
                lemma_decode_unique(inode_bytes(Map::empty(), disk@, sb, ROOT_INUM), di, dr);
            }
            assert(disk@[sb.inode_bitmap as int] == content(c3, d0, sb.inode_bitmap));
            assert(disk@[sb.data_bitmap as int] == content(c3, d0, sb.data_bitmap));
            assert(disk@[sb.log_start as int] == d0[sb.log_start as int]);
            lemma_empty_header_zero();
            assert(image(disk@)[sb.log_start as int] =~= empty_header());
        }
        disk
    }

    /// Mounts a disk image: reads the superblock, refuses a bad magic
    /// number, then recovers with the journal of type `jtype` (see
    /// `recover_image`; none for `NoOp`). The cache starts empty.
    pub fn mount(disk: FileDisk, jtype: JournalType) -> (r: Result<Self, MountError>)
        requires
            mountable(disk),
        ensures
            ({
                let sb = decode_superblock(disk@[1]@);
                match r {
                    Err(e) => e == MountError::BadMagic && sb.magic != FS_MAGIC,
                    Ok(fs) => {
                        &&& sb.magic == FS_MAGIC
                        &&& fs.sb == sb
                        &&& fs.journal_type == jtype
                        &&& fs.cache@ == Map::<u32, CachedBlock>::empty()
                        &&& fs.disk.wf()
                        &&& fs.disk.nblocks == disk.nblocks
                        &&& image(fs.disk@) == (if jtype == JournalType::NoOp {
                            image(disk@)
                        } else {
                            recover_image(image(disk@), sb.log_start as int)
                        })
                        &&& image(disk@)[sb.log_start as int] == empty_header() ==> fs.disk@ == disk@
                    },
                }
            }),
    {
        let ghost disk0 = disk;
        let mut disk = disk;
        let mut cache = BlockCache::new();
        let sb = Superblock::read_from_disk(&disk);
        if sb.magic != FS_MAGIC {
            return Err(MountError::BadMagic);
        }
        match jtype {
            JournalType::Redo => {
                let mut log = RedoLog::new(&sb);
                log.recover(&mut disk, &mut cache);
            },
            JournalType::Undo => {
                let mut log = UndoLog::new(&sb);
                log.recover(&mut disk, &mut cache);
            },
            JournalType::NoOp => {
                let mut log = NoOpLog;
                log.recover(&mut disk, &mut cache);
            },
        }
        proof {
            let ghost d0 = disk0@;
            if image(d0)[sb.log_start as int] == empty_header() {
                lemma_empty_header_zero();
                assert(get_u32(empty_header(), 0) == 0);
                assert(image(d0).update(sb.log_start as int, empty_header()) =~= image(d0));
                assert(image(disk@) == image(d0));
                assert forall|i: int| 0 <= i < d0.len() implies #[trigger] disk@[i] == d0[i] by {
                    assert(image(disk@)[i] == image(d0)[i]);
                    assert(disk@[i] =~= d0[i]);
                }
                assert(disk@ =~= d0);
            }
        }
        Ok(FileSystem { disk, cache, sb, journal_type: jtype })
    }

    /// A journal of the configured type over the log area of the
    /// superblock.
    pub fn make_journal(&self) -> (j: AnyJournal)
        ensures
            j.inv(),
            !j.in_tx(),
            match j {
                AnyJournal::Redo(l) => self.journal_type == JournalType::Redo && l.spec_log_start() == self.sb.log_start
                    && l.pending().len() == 0,
                AnyJournal::Undo(l) => self.journal_type == JournalType::Undo && l.spec_log_start() == self.sb.log_start
                    && l.pending().len() == 0,
                AnyJournal::NoOp(_) => self.journal_type == JournalType::NoOp,
            },
            forall|d: FileDisk| #[trigger] j.fits(d) <== d.wf() && d.nblocks == self.sb.nblocks && self.sb.log_start
                + self.sb.nlogblocks <= self.sb.nblocks && self.sb.log_start < self.sb.nblocks,
    {
        match self.journal_type {
            JournalType::Redo => {
                let l = RedoLog::new(&self.sb);
                assert(l.inv());
                let j = AnyJournal::Redo(l);
                assert(j.inv());
                j
            },
            JournalType::Undo => AnyJournal::Undo(UndoLog::new(&self.sb)),
            JournalType::NoOp => AnyJournal::NoOp(NoOpLog),
        }
    }

    /// Unmounts: clears the log (dropping an open transaction) and writes
    /// every dirty, unpinned cached block to disk.
    pub fn umount(&mut self)
        requires
            old(self).disk.wf(),
            old(self).disk.nblocks == old(self).sb.nblocks,
            old(self).sb.log_start + old(self).sb.nlogblocks <= old(self).sb.nblocks,
            old(self).sb.log_start < old(self).sb.nblocks,
        ensures
            final(self).disk.wf(),
            final(self).disk.nblocks == old(self).disk.nblocks,
            final(self).sb == old(self).sb,
            final(self).journal_type == old(self).journal_type,
            final(self).cache@.dom() == old(self).cache@.dom(),
            forall|i: int| 0 <= i < old(self).disk@.len() ==> #[trigger] image(final(self).disk@)[i] == ({
                let c = old(self).cache@;
                let before = if old(self).journal_type != JournalType::NoOp && i == old(self).sb.log_start {
                    crate::jfs::log::empty_header()
                } else {
                    old(self).disk@[i]@
                };
                if c.contains_key(i as u32) && c[i as u32].dirty && !c[i as u32].pinned {
                    c[i as u32].data@
                } else {
                    before
                }
            }),
    {
        let mut journal = self.make_journal();
        let ghost d0 = self.disk;
        let ghost c0 = self.cache@;
        let ghost j0 = journal;
        journal.cleanup(&mut self.disk, &mut self.cache);
        let ghost d1 = self.disk;
        proof {
            assert(self.cache@ == c0);
            assert forall|i: int| 0 <= i < d0@.len() implies #[trigger] d1@[i]@ == (if self.journal_type != JournalType::NoOp
                && i == self.sb.log_start {
                crate::jfs::log::empty_header()
            } else {
                d0@[i]@
            }) by {
                assert(image(d1@)[i] == d1@[i]@);
            }
        }
        self.cache.sync(&mut self.disk);
        proof {
            assert forall|i: int| 0 <= i < d0@.len() implies #[trigger] image(self.disk@)[i] == self.disk@[i]@ by {}
        }
    }
}

} // verus!
