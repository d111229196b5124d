use vstd::prelude::*;

verus! {

pub const BLOCK_SIZE: usize = 512;

pub type Block = [u8; BLOCK_SIZE];

/// The image of a block device, held in memory. Every block written is
/// recorded so that the image can be persisted where it is stored.
pub struct FileDisk {
    pub blocks: Vec<Block>,
    pub nblocks: u32,
    /// Block numbers written and not yet handed out by `take_written`.
    pub written: Vec<u32>,
}

impl FileDisk {
    /// The blocks of the image.
    pub open spec fn view(&self) -> Seq<Block> {
        self.blocks@
    }

    /// Block numbers written since the last `take_written`, in order.
    pub open spec fn written_log(&self) -> Seq<u32> {
        self.written@
    }

    /// The image holds exactly `nblocks` blocks.
    pub open spec fn wf(&self) -> bool {
        self@.len() == self.nblocks
    }

    /// An image of `nblocks` zeroed blocks.
    pub fn zeroed(nblocks: u32) -> (d: Self)
        ensures
            d.wf(),
            d.nblocks == nblocks,
            forall|b: int| 0 <= b < nblocks ==> (#[trigger] d@[b])@ == Seq::new(512, |i: int| 0u8),
            d.written_log() == Seq::<u32>::empty(),
    {
        let mut blocks: Vec<Block> = Vec::new();
        let mut i: u32 = 0;
        while i < nblocks
            invariant
                i <= nblocks,
                blocks@.len() == i,
                forall|b: int| 0 <= b < i ==> (#[trigger] blocks@[b])@ == Seq::new(512, |i: int| 0u8),
            decreases nblocks - i,
        {
            let z: Block = [0u8; BLOCK_SIZE];
            assert(z@ =~= Seq::new(512, |i: int| 0u8));
            blocks.push(z);
            i = i + 1;
        }
        FileDisk { blocks, nblocks, written: Vec::new() }
    }

    /// An image made of the given blocks.
    pub fn from_blocks(blocks: Vec<Block>) -> (d: Self)
        requires
            blocks@.len() <= u32::MAX,
        ensures
            d.wf(),
            d@ == blocks@,
            d.written_log() == Seq::<u32>::empty(),
    {
        let nblocks = blocks.len() as u32;
        FileDisk { blocks, nblocks, written: Vec::new() }
    }

    /// Copies block `block_no` into `buf`.
    pub fn read_block(&self, block_no: u32, buf: &mut Block)
        requires
            self.wf(),
            block_no < self.nblocks,
        ensures
            *final(buf) == self@[block_no as int],
    {
        *buf = self.blocks[block_no as usize];
    }

    /// Writes `buf` to block `block_no`.
    pub fn write_block(&mut self, block_no: u32, buf: &Block)
        requires
            old(self).wf(),
            block_no < old(self).nblocks,
        ensures
            final(self).wf(),
            final(self).nblocks == old(self).nblocks,
            final(self)@ == old(self)@.update(block_no as int, *buf),
            final(self).written_log() == old(self).written_log().push(block_no),
    {
        self.blocks.set(block_no as usize, *buf);
        self.written.push(block_no);
    }

    /// The content of block `block_no`.
    pub fn block(&self, block_no: u32) -> (b: Block)
        requires
            self.wf(),
            block_no < self.nblocks,
        ensures
            b == self@[block_no as int],
    {
        self.blocks[block_no as usize]
    }

    /// Hands out the block numbers written since the last call, in order,
    /// and forgets them.
    pub fn take_written(&mut self) -> (w: Vec<u32>)
        ensures
            w@ == old(self).written_log(),
            final(self)@ == old(self)@,
            final(self).nblocks == old(self).nblocks,
            final(self).written_log() == Seq::<u32>::empty(),
    {
        let mut w: Vec<u32> = Vec::new();
        std::mem::swap(&mut w, &mut self.written);
        w
    }
}

} // verus!
