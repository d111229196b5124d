use vstd::prelude::*;
use crate::jfs::codec::{get_u32, put_u32, read_u32, write_u32, lemma_get_put_u32};
use crate::jfs::disk::{Block, FileDisk, BLOCK_SIZE};

verus! {

/// Magic number of this file system ("JFS1").
pub const FS_MAGIC: u32 = 0x4A465331;

/// Number of blocks reserved for the log area.
pub const LOG_BLOCKS: u32 = 64;

/// Number of inodes.
pub const NUM_INODES: u32 = 200;

/// The on-disk superblock, stored in block 1.
#[derive(Debug, Clone, Copy, PartialEq, Eq, Structural)]
pub struct Superblock {
    pub magic: u32,
    pub version: u32,
    pub nblocks: u32,
    pub nlogblocks: u32,
    pub log_start: u32,
    pub ninodes: u32,
    pub inode_start: u32,
    pub inode_bitmap: u32,
    pub data_bitmap: u32,
    pub data_start: u32,
}

/// The fields of a superblock in their on-disk order.
pub open spec fn sb_fields(sb: Superblock) -> Seq<u32> {
    seq![
        sb.magic,
        sb.version,
        sb.nblocks,
        sb.nlogblocks,
        sb.log_start,
        sb.ninodes,
        sb.inode_start,
        sb.inode_bitmap,
        sb.data_bitmap,
        sb.data_start,
    ]
}

/// A block holds the encoding of `sb`: field `k` little-endian at byte
/// `4 * k`, zero bytes after the last field.
pub open spec fn encodes_superblock(b: Seq<u8>, sb: Superblock) -> bool {
    &&& b.len() == 512
    &&& forall|k: int| 0 <= k < 10 ==> #[trigger] get_u32(b, 4 * k) == sb_fields(sb)[k]
    &&& forall|j: int| 40 <= j < 512 ==> #[trigger] b[j] == 0
}

/// The superblock that a block decodes to.
pub open spec fn decode_superblock(b: Seq<u8>) -> Superblock {
    Superblock {
        magic: get_u32(b, 0),
        version: get_u32(b, 4),
        nblocks: get_u32(b, 8),
        nlogblocks: get_u32(b, 12),
        log_start: get_u32(b, 16),
        ninodes: get_u32(b, 20),
        inode_start: get_u32(b, 24),
        inode_bitmap: get_u32(b, 28),
        data_bitmap: get_u32(b, 32),
        data_start: get_u32(b, 36),
    }
}

/// The layout of a disk of `nblocks` blocks: block 0 unused, block 1 the
/// superblock, then the log, the inode bitmap, the data bitmap, the inode
/// blocks (8 inodes of 64 bytes each per block) and the data blocks.
pub open spec fn layout(nblocks: u32) -> Superblock {
    Superblock {
        magic: FS_MAGIC,
        version: 1,
        nblocks,
        nlogblocks: LOG_BLOCKS,
        log_start: 2,
        ninodes: NUM_INODES,
        inode_start: 68,
        inode_bitmap: 66,
        data_bitmap: 67,
        data_start: 93,
    }
}

impl Superblock {
    /// Lays out a disk of `nblocks` blocks.
    pub fn new(nblocks: u32) -> (sb: Self)
        requires
            nblocks > 64,
        ensures
            sb == layout(nblocks),
    {
        let log_start: u32 = 2;
        let inode_bitmap: u32 = log_start + LOG_BLOCKS;
        let data_bitmap: u32 = inode_bitmap + 1;
        let inodes_per_block: u32 = (BLOCK_SIZE / 64) as u32;
        let ninode_blocks = (NUM_INODES + inodes_per_block - 1) / inodes_per_block;
        let inode_start: u32 = data_bitmap + 1;
        let data_start: u32 = inode_start + ninode_blocks;
        Superblock {
            magic: FS_MAGIC,
            version: 1,
            nblocks,
            nlogblocks: LOG_BLOCKS,
            log_start,
            ninodes: NUM_INODES,
            inode_start,
            inode_bitmap,
            data_bitmap,
            data_start,
        }
    }

    /// Reads the superblock from block 1.
    pub fn read_from_disk(disk: &FileDisk) -> (sb: Self)
        requires
            disk.wf(),
            disk.nblocks > 1,
        ensures
            sb == decode_superblock(disk@[1]@),
    {
        let mut buf: Block = [0u8; BLOCK_SIZE];
        disk.read_block(1, &mut buf);
        Self::from_bytes(&buf)
    }

    /// Writes the superblock to block 1.
    pub fn write_to_disk(&self, disk: &mut FileDisk)
        requires
            old(disk).wf(),
            old(disk).nblocks > 1,
        ensures
            final(disk).wf(),
            final(disk).nblocks == old(disk).nblocks,
            encodes_superblock(final(disk)@[1]@, *self),
            final(disk)@ == old(disk)@.update(1, final(disk)@[1]),
    {
        let buf = self.to_bytes();
        disk.write_block(1, &buf);
    }

    /// Encodes the superblock into a block.
    pub fn to_bytes(&self) -> (buf: Block)
        ensures
            encodes_superblock(buf@, *self),
    {
        let mut buf: Block = [0u8; BLOCK_SIZE];
        let ghost z = buf@;
        let fields: [u32; 10] = [
            self.magic,
            self.version,
            self.nblocks,
            self.nlogblocks,
            self.log_start,
            self.ninodes,
            self.inode_start,
            self.inode_bitmap,
            self.data_bitmap,
            self.data_start,
        ];
        assert(fields@ =~= sb_fields(*self));
        let mut k: usize = 0;
        while k < 10
            invariant
                k <= 10,
                fields@ == sb_fields(*self),
                buf@.len() == 512,
                forall|j: int| 0 <= j < k ==> #[trigger] get_u32(buf@, 4 * j) == fields@[j],
                forall|j: int| 4 * k <= j < 512 ==> #[trigger] buf@[j] == 0,
            decreases 10 - k,
        {
            let ghost before = buf@;
            write_u32(&mut buf, 4 * k, fields[k]);
            proof {
                lemma_get_put_u32(before, 4 * k as int, fields@[k as int]);
                assert forall|j: int| 0 <= j < k + 1 implies #[trigger] get_u32(buf@, 4 * j)
                    == fields@[j] by {
                    if j < k {
                        assert(get_u32(buf@, 4 * j) == get_u32(before, 4 * j));
                    }
                }
            }
            k = k + 1;
        }
        buf
    }

    /// Decodes a superblock from a block.
    pub fn from_bytes(buf: &Block) -> (sb: Self)
        ensures
            sb == decode_superblock(buf@),
    {
        Superblock {
            magic: read_u32(buf, 0),
            version: read_u32(buf, 4),
            nblocks: read_u32(buf, 8),
            nlogblocks: read_u32(buf, 12),
            log_start: read_u32(buf, 16),
            ninodes: read_u32(buf, 20),
            inode_start: read_u32(buf, 24),
            inode_bitmap: read_u32(buf, 28),
            data_bitmap: read_u32(buf, 32),
            data_start: read_u32(buf, 36),
        }
    }

    /// Number of data blocks.
    pub fn ndata_blocks(&self) -> (n: u32)
        requires
            self.data_start <= self.nblocks,
        ensures
            n == self.nblocks - self.data_start,
    {
        self.nblocks - self.data_start
    }

    /// Number of inode blocks.
    pub fn ninode_blocks(&self) -> (n: u32)
        requires
            self.inode_start <= self.data_start,
        ensures
            n == self.data_start - self.inode_start,
    {
        self.data_start - self.inode_start
    }
}

/// Decoding the encoding of a superblock gives it back.
pub proof fn lemma_superblock_roundtrip(b: Seq<u8>, sb: Superblock)
    requires
        encodes_superblock(b, sb),
    ensures
        decode_superblock(b) == sb,
{
    assert(get_u32(b, 4 * 0int) == sb_fields(sb)[0int]);
    assert(get_u32(b, 4 * 1int) == sb_fields(sb)[1int]);
    assert(get_u32(b, 4 * 2int) == sb_fields(sb)[2int]);
    assert(get_u32(b, 4 * 3int) == sb_fields(sb)[3int]);
    assert(get_u32(b, 4 * 4int) == sb_fields(sb)[4int]);
    assert(get_u32(b, 4 * 5int) == sb_fields(sb)[5int]);
    assert(get_u32(b, 4 * 6int) == sb_fields(sb)[6int]);
    assert(get_u32(b, 4 * 7int) == sb_fields(sb)[7int]);
    assert(get_u32(b, 4 * 8int) == sb_fields(sb)[8int]);
    assert(get_u32(b, 4 * 9int) == sb_fields(sb)[9int]);
}

} // verus!
