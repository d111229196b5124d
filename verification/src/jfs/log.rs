use vstd::prelude::*;
use crate::jfs::block_cache::{BlockCache, CachedBlock};
use crate::jfs::codec::{get_u32, put_u32, read_u32, write_u32, lemma_get_put_u32};
use crate::jfs::disk::{Block, FileDisk, BLOCK_SIZE};
use crate::jfs::superblock::Superblock;

verus! {

broadcast use vstd::array::group_array_axioms;

/// Most blocks one transaction can log.
pub const MAX_LOG_BLOCKS: usize = 30;

/// The contents of the blocks of a disk image.
pub open spec fn image(d: Seq<Block>) -> Seq<Seq<u8>> {
    Seq::new(d.len(), |i: int| d[i]@)
}

/// A block of zeros.
pub open spec fn zero_block() -> Seq<u8> {
    Seq::new(512, |i: int| 0u8)
}

/// `blocks` padded with zeros to 30 entries.
pub open spec fn pad_blocks(blocks: Seq<u32>) -> Seq<u32> {
    Seq::new(30, |i: int| if i < blocks.len() { blocks[i] } else { 0u32 })
}

/// `s` with `blocks[0..n]` stored little-endian from byte 8 on.
pub open spec fn put_block_list(s: Seq<u8>, blocks: Seq<u32>, n: nat) -> Seq<u8>
    decreases n,
{
    if n == 0 {
        s
    } else {
        put_u32(put_block_list(s, blocks, (n - 1) as nat), 8 + 4 * (n - 1), blocks[n - 1])
    }
}

/// The header block: the count and the commit flag little-endian, then
/// the 30 block numbers, then zeros.
pub open spec fn header_bytes(count: u32, committed: u32, blocks: Seq<u32>) -> Seq<u8> {
    put_block_list(put_u32(put_u32(zero_block(), 0, count), 4, committed), blocks, 30)
}

/// The header that commits the transaction logging `keys`.
pub open spec fn commit_header(keys: Seq<u32>) -> Seq<u8> {
    header_bytes(keys.len() as u32, 1, pad_blocks(keys))
}

/// The header block of an empty log.
pub open spec fn empty_header() -> Seq<u8> {
    header_bytes(0, 0, pad_blocks(Seq::empty()))
}

/// The header of an empty log is a block of zeros.
pub proof fn lemma_empty_header_zero()
    ensures
        empty_header() == zero_block(),
{
    let z = zero_block();
    assert(put_u32(z, 0, 0) =~= z);
    assert(put_u32(put_u32(z, 0, 0), 4, 0) =~= z);
    lemma_zero_block_list(30);
}

proof fn lemma_zero_block_list(n: nat)
    requires
        n <= 30,
    ensures
        put_block_list(zero_block(), pad_blocks(Seq::empty()), n) == zero_block(),
    decreases n,
{
    if n > 0 {
        lemma_zero_block_list((n - 1) as nat);
        assert(pad_blocks(Seq::<u32>::empty())[n - 1] == 0u32);
        assert(put_u32(zero_block(), 8 + 4 * (n - 1), 0u32) =~= zero_block());
    }
}

/// Recovery is idempotent: recovering a recovered image (redo or undo
/// log alike) changes nothing more.
pub proof fn law_recovery_idempotent(im: Seq<Seq<u8>>, ls: int)
    requires
        header_recoverable(im, ls),
    ensures
        recover_image(recover_image(im, ls), ls) == recover_image(im, ls),
{
    let h = im[ls];
    let count = get_u32(h, 0);
    if count != 0 && get_u32(h, 4) != 0 {
        lemma_replay_len(im, ls, header_list(h), count as int);
    }
    let r = recover_image(im, ls);
    lemma_empty_header_zero();
    assert(r[ls] == empty_header());
    assert(get_u32(empty_header(), 0) == 0);
    assert(r.update(ls, empty_header()) =~= r);
}

proof fn lemma_replay_len(im: Seq<Seq<u8>>, ls: int, blocks: Seq<u32>, n: int)
    requires
        forall|i: int| 0 <= i < n ==> #[trigger] blocks[i] < im.len(),
    ensures
        replay(im, ls, blocks, n).len() == im.len(),
    decreases n,
{
    if n > 0 {
        lemma_replay_len(im, ls, blocks, n - 1);
    }
}

/// The block numbers of a list of logged writes.
pub open spec fn keys(w: Seq<(u32, Block)>) -> Seq<u32> {
    Seq::new(w.len(), |i: int| w[i].0)
}

/// The contents of a list of logged writes.
pub open spec fn datas(w: Seq<(u32, Block)>) -> Seq<Seq<u8>> {
    Seq::new(w.len(), |i: int| w[i].1@)
}

/// `im` with `data[i]` stored in log data block `ls + 1 + i`.
pub open spec fn write_log(im: Seq<Seq<u8>>, ls: int, data: Seq<Seq<u8>>) -> Seq<Seq<u8>> {
    Seq::new(im.len(), |j: int| if ls + 1 <= j < ls + 1 + data.len() { data[j - ls - 1] } else { im[j] })
}

/// Copies log data block `ls + 1 + i` to block `blocks[i]`, for `i < n` in
/// order, each copy reading the image as the earlier ones left it.
pub open spec fn replay(im: Seq<Seq<u8>>, ls: int, blocks: Seq<u32>, n: int) -> Seq<Seq<u8>>
    decreases n,
{
    if n <= 0 {
        im
    } else {
        let p = replay(im, ls, blocks, n - 1);
        p.update(blocks[n - 1] as int, p[ls + n])
    }
}

/// `im` with block `w[i].0` set to `w[i].1`, in order.
pub open spec fn apply_writes(im: Seq<Seq<u8>>, w: Seq<(u32, Block)>) -> Seq<Seq<u8>>
    decreases w.len(),
{
    if w.len() == 0 {
        im
    } else {
        let p = apply_writes(im, w.drop_last());
        p.update(w.last().0 as int, w.last().1@)
    }
}

/// The image after a redo commit of `w`: the new data in the log, the
/// committed header, the data installed from the log, the header cleared.
pub open spec fn redo_commit_image(im: Seq<Seq<u8>>, ls: int, w: Seq<(u32, Block)>) -> Seq<Seq<u8>> {
    let d1 = write_log(im, ls, datas(w));
    let d2 = d1.update(ls, commit_header(keys(w)));
    replay(d2, ls, keys(w), w.len() as int).update(ls, empty_header())
}

/// The contents that blocks `keys[i]` hold in `im`.
pub open spec fn originals(im: Seq<Seq<u8>>, ks: Seq<u32>) -> Seq<Seq<u8>> {
    Seq::new(ks.len(), |i: int| im[ks[i] as int])
}

/// The image after an undo commit of `w`: the original data in the log, the
/// committed header, the new data in place, the header cleared.
pub open spec fn undo_commit_image(im: Seq<Seq<u8>>, ls: int, w: Seq<(u32, Block)>) -> Seq<Seq<u8>> {
    let d1 = write_log(im, ls, originals(im, keys(w)));
    let d2 = d1.update(ls, commit_header(keys(w)));
    apply_writes(d2, w).update(ls, empty_header())
}

/// The image after recovery: if the header at `ls` holds a committed,
/// non-empty transaction, its log blocks are copied back in place; then the
/// header is cleared.
pub open spec fn recover_image(im: Seq<Seq<u8>>, ls: int) -> Seq<Seq<u8>> {
    let h = im[ls];
    let count = get_u32(h, 0);
    let committed = get_u32(h, 4);
    if count == 0 || committed == 0 {
        im.update(ls, empty_header())
    } else {
        replay(im, ls, header_list(h), count as int).update(ls, empty_header())
    }
}

/// The 30 block numbers of a header block.
pub open spec fn header_list(h: Seq<u8>) -> Seq<u32> {
    Seq::new(30, |i: int| get_u32(h, 8 + 4 * i))
}

/// The header at `ls` can be recovered from without going out of bounds:
/// an uncommitted or empty one always; a committed one when it lists at
/// most 30 blocks, all on the disk, with its log blocks on the disk.
pub open spec fn header_recoverable(im: Seq<Seq<u8>>, ls: int) -> bool {
    let h = im[ls];
    let count = get_u32(h, 0);
    &&& 0 <= ls < im.len()
    &&& im[ls].len() == 512
    &&& (count != 0 && get_u32(h, 4) != 0) ==> {
        &&& count <= 30
        &&& ls + 1 + count <= im.len()
        &&& forall|i: int| 0 <= i < count ==> #[trigger] header_list(h)[i] < im.len()
    }
}

pub proof fn lemma_put_block_list(s: Seq<u8>, blocks: Seq<u32>, n: nat)
    requires
        s.len() == 512,
        n <= 30,
    ensures
        put_block_list(s, blocks, n).len() == 512,
        forall|i: int| 0 <= i < n ==> #[trigger] get_u32(put_block_list(s, blocks, n), 8 + 4 * i) == blocks[i],
        forall|j: int| 0 <= j < 512 && !(8 <= j < 8 + 4 * n) ==> #[trigger] put_block_list(s, blocks, n)[j] == s[j],
    decreases n,
{
    if n > 0 {
        let m = (n - 1) as nat;
        lemma_put_block_list(s, blocks, m);
        let p = put_block_list(s, blocks, m);
        lemma_get_put_u32(p, 8 + 4 * (m as int), blocks[m as int]);
        assert forall|i: int| 0 <= i < n implies #[trigger] get_u32(put_block_list(s, blocks, n), 8 + 4 * i)
            == blocks[i] by {
            if i < m {
                assert(get_u32(p, 8 + 4 * i) == blocks[i]);
            }
        }
    }
}

/// Decoding a header block gives back what was encoded.
pub proof fn lemma_header_roundtrip(count: u32, committed: u32, blocks: Seq<u32>)
    requires
        blocks.len() == 30,
    ensures
        header_bytes(count, committed, blocks).len() == 512,
        get_u32(header_bytes(count, committed, blocks), 0) == count,
        get_u32(header_bytes(count, committed, blocks), 4) == committed,
        header_list(header_bytes(count, committed, blocks)) == blocks,
{
    let z = zero_block();
    let a = put_u32(z, 0, count);
    let b = put_u32(a, 4, committed);
    lemma_get_put_u32(z, 0, count);
    lemma_get_put_u32(a, 4, committed);
    lemma_put_block_list(b, blocks, 30);
    let h = header_bytes(count, committed, blocks);
    assert(get_u32(h, 0) == get_u32(b, 0));
    assert(get_u32(h, 4) == get_u32(b, 4));
    assert(header_list(h) =~= blocks);
}

/// `c` after writing each of `w` through the cache, in order.
pub open spec fn cache_writes(c: Map<u32, CachedBlock>, w: Seq<(u32, Block)>) -> Map<u32, CachedBlock>
    decreases w.len(),
{
    if w.len() == 0 {
        c
    } else {
        let p = cache_writes(c, w.drop_last());
        p.insert(
            w.last().0,
            CachedBlock { data: w.last().1, dirty: true, pinned: p.contains_key(w.last().0) && p[w.last().0].pinned },
        )
    }
}

/// `p1` is the list of logged writes `p0` with block `b` getting `data`:
/// a write of `b` already listed takes the new data in its place, otherwise
/// the write joins the end.
pub open spec fn logged_write(p0: Seq<(u32, Block)>, p1: Seq<(u32, Block)>, b: u32, data: Block) -> bool {
    &&& keys(p0).contains(b) ==> exists|i: int| 0 <= i < p0.len() && p0[i].0 == b && p1 == #[trigger] p0.update(i, (b, data))
    &&& !keys(p0).contains(b) ==> p1 == p0.push((b, data))
}

/// No block number occurs twice.
pub open spec fn distinct_keys(w: Seq<(u32, Block)>) -> bool {
    forall|i: int, j: int| 0 <= i < j < w.len() ==> w[i].0 != w[j].0
}

/// A journal that groups block writes into transactions and makes each
/// committed transaction survive a crash.
pub trait Journal {
    /// The journal's own consistency.
    spec fn inv(&self) -> bool;

    /// A transaction is open.
    spec fn in_tx(&self) -> bool;

    /// Writes may be logged: a transaction is open, or the journal keeps
    /// none.
    spec fn ready(&self) -> bool;

    /// One more write of `block_no` fits in the open transaction.
    spec fn can_log(&self, block_no: u32) -> bool;

    /// The log area and the logged blocks lie on `disk`.
    spec fn fits(&self, disk: FileDisk) -> bool;

    /// The log on `disk` can be recovered from.
    spec fn can_recover(&self, disk: FileDisk) -> bool;

    /// The open transaction has logged nothing.
    spec fn nothing_logged(&self) -> bool;

    /// Starts a transaction.
    fn begin_tx(&mut self)
        requires
            old(self).inv(),
            !old(self).in_tx(),
        ensures
            final(self).inv(),
            final(self).ready(),
            final(self).nothing_logged(),
            forall|d: FileDisk| old(self).fits(d) ==> #[trigger] final(self).fits(d),
    ;

    /// Records that block `block_no` gets `data` in the open transaction.
    fn log_write(&mut self, block_no: u32, data: &Block)
        requires
            old(self).inv(),
            old(self).ready(),
            old(self).can_log(block_no),
        ensures
            final(self).inv(),
            final(self).ready(),
            forall|d: FileDisk| old(self).fits(d) ==> #[trigger] final(self).fits(d),
    ;

    /// Commits the open transaction.
    fn commit(&mut self, disk: &mut FileDisk, cache: &mut BlockCache)
        requires
            old(self).inv(),
            old(self).ready(),
            old(self).fits(*old(disk)),
        ensures
            final(self).inv(),
            !final(self).in_tx(),
            final(disk).wf(),
            final(disk).nblocks == old(disk).nblocks,
            old(self).nothing_logged() ==> final(disk)@ == old(disk)@ && final(cache)@ == old(cache)@,
            forall|d: FileDisk| old(self).fits(d) ==> #[trigger] final(self).fits(d),
    ;

    /// Brings the disk back to a consistent state after a crash.
    fn recover(&mut self, disk: &mut FileDisk, cache: &mut BlockCache)
        requires
            old(self).inv(),
            old(self).fits(*old(disk)),
            old(self).can_recover(*old(disk)),
        ensures
            final(self).inv(),
            final(disk).wf(),
            final(disk).nblocks == old(disk).nblocks,
            final(self).in_tx() == old(self).in_tx(),
            forall|d: FileDisk| old(self).fits(d) ==> #[trigger] final(self).fits(d),
    ;

    /// Drops any open transaction and clears the log.
    fn cleanup(&mut self, disk: &mut FileDisk, cache: &mut BlockCache)
        requires
            old(self).inv(),
            old(self).fits(*old(disk)),
        ensures
            final(self).inv(),
            !final(self).in_tx(),
            final(disk).wf(),
            final(disk).nblocks == old(disk).nblocks,
            forall|d: FileDisk| old(self).fits(d) ==> #[trigger] final(self).fits(d),
    ;
}

/// The on-disk log header.
#[derive(Debug)]
pub struct LogHeader {
    count: u32,
    committed: u32,
    blocks: [u32; MAX_LOG_BLOCKS],
}

impl LogHeader {
    /// An empty, uncommitted header.
    fn new() -> (h: Self)
        ensures
            h.count == 0,
            h.committed == 0,
            h.blocks@ == pad_blocks(Seq::empty()),
    {
        let blocks = [0u32; MAX_LOG_BLOCKS];
        proof {
            vstd::array::axiom_spec_array_fill_for_copy_type::<u32, MAX_LOG_BLOCKS>(0u32);
        }
        assert(blocks@.len() == 30);
        assert forall|i: int| 0 <= i < 30 implies blocks@[i] == 0u32 by {
            assert(blocks@[i] == blocks[i]);
        }
        let h = LogHeader { count: 0, committed: 0, blocks };
        assert(h.blocks@ =~= pad_blocks(Seq::empty()));
        h
    }

    /// The on-disk encoding.
    fn to_bytes(&self) -> (buf: Block)
        ensures
            buf@ == header_bytes(self.count, self.committed, self.blocks@),
    {
        let mut buf: Block = [0u8; BLOCK_SIZE];
        proof {
            vstd::array::axiom_spec_array_fill_for_copy_type::<u8, BLOCK_SIZE>(0u8);
        }
        assert forall|i: int| 0 <= i < 512 implies buf@[i] == 0u8 by {
            assert(buf@[i] == buf[i]);
        }
        assert(buf@ =~= zero_block());
        write_u32(&mut buf, 0, self.count);
        write_u32(&mut buf, 4, self.committed);
        let ghost c = buf@;
        let mut i: usize = 0;
        while i < MAX_LOG_BLOCKS
            invariant
                i <= 30,
                c.len() == 512,
                c == put_u32(put_u32(zero_block(), 0, self.count), 4, self.committed),
                buf@ == put_block_list(c, self.blocks@, i as nat),
            decreases 30 - i,
        {
            proof {
                lemma_put_block_list(c, self.blocks@, i as nat);
            }
            write_u32(&mut buf, 8 + i * 4, self.blocks[i]);
            i = i + 1;
        }
        buf
    }

    /// Decodes a header block.
    fn from_bytes(buf: &Block) -> (h: Self)
        ensures
            h.count == get_u32(buf@, 0),
            h.committed == get_u32(buf@, 4),
            h.blocks@ == header_list(buf@),
    {
        let count = read_u32(buf, 0);
        let committed = read_u32(buf, 4);
        let mut blocks = [0u32; MAX_LOG_BLOCKS];
        let mut i: usize = 0;
        while i < MAX_LOG_BLOCKS
            invariant
                i <= 30,
                forall|j: int| 0 <= j < i ==> #[trigger] blocks@[j] == get_u32(buf@, 8 + 4 * j),
            decreases 30 - i,
        {
            blocks[i] = read_u32(buf, 8 + i * 4);
            i = i + 1;
        }
        assert(blocks@ =~= header_list(buf@));
        LogHeader { count, committed, blocks }
    }
}

/// Copies log data block `i` to block `blocks[i]` for each `i < n`, in
/// order.
fn replay_blocks(disk: &mut FileDisk, log_start: u32, blocks: &[u32; MAX_LOG_BLOCKS], n: usize)
    requires
        old(disk).wf(),
        n <= 30,
        log_start + 1 + n <= old(disk).nblocks,
        forall|i: int| 0 <= i < n ==> #[trigger] blocks@[i] < old(disk).nblocks,
    ensures
        final(disk).wf(),
        final(disk).nblocks == old(disk).nblocks,
        image(final(disk)@) == replay(image(old(disk)@), log_start as int, blocks@, n as int),
{
    let ghost im0 = image(disk@);
    let mut i: usize = 0;
    while i < n
        invariant
            i <= n <= 30,
            disk.wf(),
            disk.nblocks == old(disk).nblocks,
            log_start + 1 + n <= disk.nblocks,
            forall|k: int| 0 <= k < n ==> #[trigger] blocks@[k] < disk.nblocks,
            im0 == image(old(disk)@),
            image(disk@) == replay(im0, log_start as int, blocks@, i as int),
        decreases n - i,
    {
        let mut data: Block = [0u8; BLOCK_SIZE];
        disk.read_block(log_start + 1 + i as u32, &mut data);
        let ghost p = image(disk@);
        disk.write_block(blocks[i], &data);
        assert(image(disk@) =~= p.update(blocks@[i as int] as int, p[log_start + 1 + i]));
        i = i + 1;
    }
}

/// A redo log (write-ahead, as in xv6): the new data goes to the log, the
/// header commits it, then it is copied in place. Recovery replays a
/// committed log.
pub struct RedoLog {
    log_start: u32,
    log_blocks: u32,
    disk_blocks: u32,
    in_tx: bool,
    logged_blocks: Vec<(u32, Block)>,
}

impl RedoLog {
    /// Block number of the log header.
    pub closed spec fn spec_log_start(&self) -> u32 {
        self.log_start
    }

    /// The writes logged in the open transaction, in order.
    pub closed spec fn pending(&self) -> Seq<(u32, Block)> {
        self.logged_blocks@
    }

    /// A log over the log area of `sb`.
    pub fn new(sb: &Superblock) -> (l: Self)
        ensures
            l.inv(),
            !l.in_tx(),
            l.spec_log_start() == sb.log_start,
            l.pending() == Seq::<(u32, Block)>::empty(),
            forall|d: FileDisk| #[trigger] l.fits(d) <==> d.wf() && d.nblocks == sb.nblocks && sb.log_start + sb.nlogblocks <= sb.nblocks && sb.log_start < sb.nblocks,
            forall|d: FileDisk| #[trigger] l.can_recover(d) <==> header_recoverable(image(d@), sb.log_start as int),
    {
        RedoLog {
            log_start: sb.log_start,
            log_blocks: sb.nlogblocks,
            disk_blocks: sb.nblocks,
            in_tx: false,
            logged_blocks: Vec::new(),
        }
    }

    fn read_header(&self, disk: &FileDisk) -> (h: LogHeader)
        requires
            disk.wf(),
            self.log_start < disk.nblocks,
        ensures
            h.count == get_u32(disk@[self.log_start as int]@, 0),
            h.committed == get_u32(disk@[self.log_start as int]@, 4),
            h.blocks@ == header_list(disk@[self.log_start as int]@),
    {
        let mut buf: Block = [0u8; BLOCK_SIZE];
        disk.read_block(self.log_start, &mut buf);
        LogHeader::from_bytes(&buf)
    }

    fn write_header(&self, disk: &mut FileDisk, hdr: &LogHeader)
        requires
            old(disk).wf(),
            self.log_start < old(disk).nblocks,
        ensures
            final(disk).wf(),
            final(disk).nblocks == old(disk).nblocks,
            image(final(disk)@) == image(old(disk)@).update(self.log_start as int, header_bytes(hdr.count, hdr.committed, hdr.blocks@)),
    {
        let buf = hdr.to_bytes();
        disk.write_block(self.log_start, &buf);
        assert(image(disk@) =~= image(old(disk)@).update(self.log_start as int, buf@));
    }
}

impl Journal for RedoLog {
    closed spec fn inv(&self) -> bool {
        &&& self.logged_blocks@.len() <= 30
        &&& (self.logged_blocks@.len() == 0 || self.logged_blocks@.len() < self.log_blocks)
        &&& distinct_keys(self.logged_blocks@)
        &&& forall|i: int| 0 <= i < self.logged_blocks@.len() ==> #[trigger] self.logged_blocks@[i].0 < self.disk_blocks
    }

    closed spec fn in_tx(&self) -> bool {
        self.in_tx
    }

    closed spec fn ready(&self) -> bool {
        self.in_tx
    }

    closed spec fn can_log(&self, block_no: u32) -> bool {
        &&& block_no < self.disk_blocks
        &&& (keys(self.logged_blocks@).contains(block_no) || (self.logged_blocks@.len() < 30
            && self.logged_blocks@.len() + 1 < self.log_blocks))
    }

    closed spec fn fits(&self, disk: FileDisk) -> bool {
        &&& disk.wf()
        &&& disk.nblocks == self.disk_blocks
        &&& self.log_start + self.log_blocks <= self.disk_blocks
        &&& self.log_start < self.disk_blocks
    }

    closed spec fn can_recover(&self, disk: FileDisk) -> bool {
        header_recoverable(image(disk@), self.log_start as int)
    }

    closed spec fn nothing_logged(&self) -> bool {
        self.pending().len() == 0
    }

    /// Opens a transaction with nothing logged.
    fn begin_tx(&mut self)
        ensures
            final(self).pending() == Seq::<(u32, Block)>::empty(),
            final(self).spec_log_start() == old(self).spec_log_start(),
    {
        self.in_tx = true;
        self.logged_blocks.clear();
    }

    /// Logs `data` for `block_no`, replacing an earlier write of the same
    /// block in the transaction.
    fn log_write(&mut self, block_no: u32, data: &Block)
        ensures
            final(self).spec_log_start() == old(self).spec_log_start(),
            keys(old(self).pending()).contains(block_no) ==> exists|i: int|
                0 <= i < old(self).pending().len() && old(self).pending()[i].0 == block_no
                && final(self).pending() == #[trigger] old(self).pending().update(i, (block_no, *data)),
            !keys(old(self).pending()).contains(block_no) ==> final(self).pending() == old(self).pending().push((block_no, *data)),
    {
        let mut i: usize = 0;
        while i < self.logged_blocks.len()
            invariant
                i <= self.logged_blocks@.len(),
                self.logged_blocks@ == old(self).logged_blocks@,
                self.in_tx == old(self).in_tx,
                self.log_start == old(self).log_start,
                self.log_blocks == old(self).log_blocks,
                self.disk_blocks == old(self).disk_blocks,
                old(self).inv(),
                old(self).ready(),
                old(self).can_log(block_no),
                forall|j: int| 0 <= j < i ==> self.logged_blocks@[j].0 != block_no,
            decreases self.logged_blocks@.len() - i,
        {
            if self.logged_blocks[i].0 == block_no {
                self.logged_blocks.set(i, (block_no, *data));
                proof {
                    assert(keys(old(self).pending())[i as int] == block_no);
                    assert forall|a: int, b: int| 0 <= a < b < self.logged_blocks@.len()
                        implies self.logged_blocks@[a].0 != self.logged_blocks@[b].0 by {
                        assert(old(self).logged_blocks@[a].0 != old(self).logged_blocks@[b].0);
                    }
                }
                return;
            }
            i = i + 1;
        }
        proof {
            assert forall|j: int| 0 <= j < keys(old(self).pending()).len() implies keys(old(self).pending())[j] != block_no by {
                assert(keys(old(self).pending())[j] == old(self).logged_blocks@[j].0);
            }
        }
        self.logged_blocks.push((block_no, *data));
    }

    /// With nothing logged, just closes the transaction. Otherwise writes
    /// the data to the log, commits the header, installs the data, clears
    /// the header (see `redo_commit_image`), and writes the data through
    /// the cache.
    fn commit(&mut self, disk: &mut FileDisk, cache: &mut BlockCache)
        ensures
            final(self).pending() == Seq::<(u32, Block)>::empty(),
            final(self).spec_log_start() == old(self).spec_log_start(),
            old(self).pending().len() == 0 ==> final(disk)@ == old(disk)@ && final(cache)@ == old(cache)@,
            old(self).pending().len() > 0 ==> image(final(disk)@) == redo_commit_image(image(old(disk)@), old(self).spec_log_start() as int, old(self).pending()),
            old(self).pending().len() > 0 ==> final(cache)@ == cache_writes(old(cache)@, old(self).pending()),
    {
        let n = self.logged_blocks.len();
        if n == 0 {
            self.in_tx = false;
            return;
        }
        let ghost w = self.logged_blocks@;
        let ghost im0 = image(disk@);
        let ls = self.log_start;
        // Phase 1: the new data goes to the log.
        let mut i: usize = 0;
        while i < n
            invariant
                i <= n,
                n == w.len(),
                w == self.logged_blocks@,
                self.inv(),
                self.fits(*disk),
                ls == self.log_start,
                im0 == image(old(disk)@),
                image(disk@) == write_log(im0, ls as int, datas(w).take(i as int)),
            decreases n - i,
        {
            let ghost p = image(disk@);
            disk.write_block(ls + 1 + i as u32, &self.logged_blocks[i].1);
            assert(image(disk@) =~= p.update(ls + 1 + i, w[i as int].1@));
            assert(datas(w).take(i + 1) =~= datas(w).take(i as int).push(w[i as int].1@));
            assert(image(disk@) =~= write_log(im0, ls as int, datas(w).take(i + 1)));
            i = i + 1;
        }
        assert(datas(w).take(n as int) =~= datas(w));
        // Phase 2: the commit point.
        let mut hdr = LogHeader::new();
        hdr.count = n as u32;
        hdr.committed = 1;
        let mut j: usize = 0;
        while j < n
            invariant
                j <= n <= 30,
                n == w.len(),
                w == self.logged_blocks@,
                hdr.count == n,
                hdr.committed == 1,
                forall|k: int| 0 <= k < 30 ==> #[trigger] hdr.blocks@[k] == (if k < j { w[k].0 } else { 0u32 }),
            decreases n - j,
        {
            hdr.blocks[j] = self.logged_blocks[j].0;
            j = j + 1;
        }
        assert(hdr.blocks@ =~= pad_blocks(keys(w)));
        self.write_header(disk, &hdr);
        // Phase 3: install from the log.
        proof {
            assert forall|k: int| 0 <= k < n implies #[trigger] hdr.blocks@[k] < disk.nblocks by {
                assert(hdr.blocks@[k] == w[k].0);
            }
        }
        let ghost im2 = image(disk@);
        replay_blocks(disk, ls, &hdr.blocks, n);
        proof {
            lemma_replay_prefix(im2, ls as int, hdr.blocks@, keys(w), n as int);
        }
        // Phase 4: clear the header.
        let empty = LogHeader::new();
        self.write_header(disk, &empty);
        // The cache sees the new data.
        let mut k: usize = 0;
        while k < n
            invariant
                k <= n,
                n == w.len(),
                w == self.logged_blocks@,
                self.inv(),
                self.fits(*disk),
                cache@ == cache_writes(old(cache)@, w.take(k as int)),
            decreases n - k,
        {
            proof {
                assert(w[k as int].0 < disk.nblocks);
            }
            let _ = cache.write(disk, self.logged_blocks[k].0, &self.logged_blocks[k].1);
            proof {
                assert(w.take(k + 1).drop_last() =~= w.take(k as int));
            }
            k = k + 1;
        }
        assert(w.take(n as int) =~= w);
        self.in_tx = false;
        self.logged_blocks.clear();
    }

    /// Replays a committed, non-empty log; then clears the header (see
    /// `recover_image`). The cache is left alone.
    fn recover(&mut self, disk: &mut FileDisk, cache: &mut BlockCache)
        ensures
            image(final(disk)@) == recover_image(image(old(disk)@), old(self).spec_log_start() as int),
            final(cache)@ == old(cache)@,
            final(self).pending() == old(self).pending(),
            final(self).spec_log_start() == old(self).spec_log_start(),
    {
        let hdr = self.read_header(disk);
        if hdr.count == 0 || hdr.committed == 0 {
            let empty = LogHeader::new();
            self.write_header(disk, &empty);
            return;
        }
        proof {
            assert(header_list(image(disk@)[self.log_start as int]) == header_list(disk@[self.log_start as int]@));
        }
        replay_blocks(disk, self.log_start, &hdr.blocks, hdr.count as usize);
        let empty = LogHeader::new();
        self.write_header(disk, &empty);
    }

    /// Drops an open transaction and clears the header.
    fn cleanup(&mut self, disk: &mut FileDisk, cache: &mut BlockCache)
        ensures
            image(final(disk)@) == image(old(disk)@).update(old(self).spec_log_start() as int, empty_header()),
            final(cache)@ == old(cache)@,
            final(self).pending() == Seq::<(u32, Block)>::empty() || (!old(self).in_tx() && final(self).pending() == old(self).pending()),
            final(self).spec_log_start() == old(self).spec_log_start(),
    {
        if self.in_tx {
            self.in_tx = false;
            self.logged_blocks.clear();
        }
        let empty = LogHeader::new();
        self.write_header(disk, &empty);
    }
}

/// An undo log: the original contents go to the log, the header commits
/// it, then the new data is written in place. Recovery from a committed log
/// restores the originals, undoing a partial write.
pub struct UndoLog {
    log_start: u32,
    log_blocks: u32,
    disk_blocks: u32,
    in_tx: bool,
    /// Blocks whose original is saved at commit.
    original_blocks: Vec<(u32, Block)>,
    /// The new data of each block, to be written at commit.
    new_blocks: Vec<(u32, Block)>,
}

impl UndoLog {
    /// Block number of the log header.
    pub closed spec fn spec_log_start(&self) -> u32 {
        self.log_start
    }

    /// The writes of the open transaction, in order.
    pub closed spec fn pending(&self) -> Seq<(u32, Block)> {
        self.new_blocks@
    }

    /// A log over the log area of `sb`.
    pub fn new(sb: &Superblock) -> (l: Self)
        ensures
            l.inv(),
            !l.in_tx(),
            l.spec_log_start() == sb.log_start,
            l.pending() == Seq::<(u32, Block)>::empty(),
            forall|d: FileDisk| #[trigger] l.fits(d) <==> d.wf() && d.nblocks == sb.nblocks && sb.log_start < sb.nblocks,
            forall|d: FileDisk| #[trigger] l.can_recover(d) <==> header_recoverable(image(d@), sb.log_start as int),
    {
        UndoLog {
            log_start: sb.log_start,
            log_blocks: sb.nlogblocks,
            disk_blocks: sb.nblocks,
            in_tx: false,
            original_blocks: Vec::new(),
            new_blocks: Vec::new(),
        }
    }

    fn read_header(&self, disk: &FileDisk) -> (h: LogHeader)
        requires
            disk.wf(),
            self.log_start < disk.nblocks,
        ensures
            h.count == get_u32(disk@[self.log_start as int]@, 0),
            h.committed == get_u32(disk@[self.log_start as int]@, 4),
            h.blocks@ == header_list(disk@[self.log_start as int]@),
    {
        let mut buf: Block = [0u8; BLOCK_SIZE];
        disk.read_block(self.log_start, &mut buf);
        LogHeader::from_bytes(&buf)
    }

    fn write_header(&self, disk: &mut FileDisk, hdr: &LogHeader)
        requires
            old(disk).wf(),
            self.log_start < old(disk).nblocks,
        ensures
            final(disk).wf(),
            final(disk).nblocks == old(disk).nblocks,
            image(final(disk)@) == image(old(disk)@).update(self.log_start as int, header_bytes(hdr.count, hdr.committed, hdr.blocks@)),
    {
        let buf = hdr.to_bytes();
        disk.write_block(self.log_start, &buf);
        assert(image(disk@) =~= image(old(disk)@).update(self.log_start as int, buf@));
    }
}

impl Journal for UndoLog {
    closed spec fn inv(&self) -> bool {
        &&& self.new_blocks@.len() <= 30
        &&& (self.new_blocks@.len() == 0 || self.log_start + 1 + self.new_blocks@.len() <= self.disk_blocks)
        &&& distinct_keys(self.new_blocks@)
        &&& forall|i: int| 0 <= i < self.new_blocks@.len() ==> #[trigger] self.new_blocks@[i].0 < self.disk_blocks
    }

    closed spec fn in_tx(&self) -> bool {
        self.in_tx
    }

    closed spec fn ready(&self) -> bool {
        self.in_tx
    }

    closed spec fn can_log(&self, block_no: u32) -> bool {
        &&& block_no < self.disk_blocks
        &&& (keys(self.new_blocks@).contains(block_no) || (self.new_blocks@.len() < 30
            && self.log_start + 2 + self.new_blocks@.len() <= self.disk_blocks))
    }

    closed spec fn fits(&self, disk: FileDisk) -> bool {
        &&& disk.wf()
        &&& disk.nblocks == self.disk_blocks
        &&& self.log_start < self.disk_blocks
    }

    closed spec fn can_recover(&self, disk: FileDisk) -> bool {
        header_recoverable(image(disk@), self.log_start as int)
    }

    closed spec fn nothing_logged(&self) -> bool {
        self.pending().len() == 0
    }

    /// Opens a transaction with nothing logged.
    fn begin_tx(&mut self)
        ensures
            final(self).pending() == Seq::<(u32, Block)>::empty(),
            final(self).spec_log_start() == old(self).spec_log_start(),
    {
        self.in_tx = true;
        self.original_blocks.clear();
        self.new_blocks.clear();
    }

    /// Queues `data` for `block_no`, replacing an earlier write of the same
    /// block in the transaction.
    fn log_write(&mut self, block_no: u32, data: &Block)
        ensures
            final(self).spec_log_start() == old(self).spec_log_start(),
            keys(old(self).pending()).contains(block_no) ==> exists|i: int|
                0 <= i < old(self).pending().len() && old(self).pending()[i].0 == block_no
                && final(self).pending() == #[trigger] old(self).pending().update(i, (block_no, *data)),
            !keys(old(self).pending()).contains(block_no) ==> final(self).pending() == old(self).pending().push((block_no, *data)),
    {
        let mut already_saved = false;
        let mut s: usize = 0;
        while s < self.original_blocks.len()
            invariant
                s <= self.original_blocks@.len(),
            decreases self.original_blocks@.len() - s,
        {
            if self.original_blocks[s].0 == block_no {
                already_saved = true;
            }
            s = s + 1;
        }
        let mut i: usize = 0;
        while i < self.new_blocks.len()
            invariant
                i <= self.new_blocks@.len(),
                self.new_blocks@ == old(self).new_blocks@,
                self.in_tx == old(self).in_tx,
                self.log_start == old(self).log_start,
                self.log_blocks == old(self).log_blocks,
                self.disk_blocks == old(self).disk_blocks,
                old(self).inv(),
                old(self).ready(),
                old(self).can_log(block_no),
                forall|j: int| 0 <= j < i ==> self.new_blocks@[j].0 != block_no,
            decreases self.new_blocks@.len() - i,
        {
            if self.new_blocks[i].0 == block_no {
                self.new_blocks.set(i, (block_no, *data));
                proof {
                    assert(keys(old(self).pending())[i as int] == block_no);
                    assert forall|a: int, b: int| 0 <= a < b < self.new_blocks@.len()
                        implies self.new_blocks@[a].0 != self.new_blocks@[b].0 by {
                        assert(old(self).new_blocks@[a].0 != old(self).new_blocks@[b].0);
                    }
                }
                return;
            }
            i = i + 1;
        }
        proof {
            assert forall|j: int| 0 <= j < keys(old(self).pending()).len() implies keys(old(self).pending())[j] != block_no by {
                assert(keys(old(self).pending())[j] == old(self).new_blocks@[j].0);
            }
        }
        if !already_saved {
            self.original_blocks.push((block_no, [0u8; BLOCK_SIZE]));
        }
        self.new_blocks.push((block_no, *data));
    }

    /// With nothing queued, just closes the transaction. Otherwise saves
    /// the original of each queued block to the log (the block numbers are
    /// distinct, so each once), commits the header, writes the new data in
    /// place, clears the header (see `undo_commit_image`), and writes the
    /// data through the cache.
    fn commit(&mut self, disk: &mut FileDisk, cache: &mut BlockCache)
        ensures
            final(self).pending() == Seq::<(u32, Block)>::empty(),
            final(self).spec_log_start() == old(self).spec_log_start(),
            old(self).pending().len() == 0 ==> final(disk)@ == old(disk)@ && final(cache)@ == old(cache)@,
            old(self).pending().len() > 0 ==> image(final(disk)@) == undo_commit_image(image(old(disk)@), old(self).spec_log_start() as int, old(self).pending()),
            old(self).pending().len() > 0 ==> final(cache)@ == cache_writes(old(cache)@, old(self).pending()),
    {
        let n = self.new_blocks.len();
        if n == 0 {
            self.in_tx = false;
            return;
        }
        let ghost w = self.new_blocks@;
        let ghost im0 = image(disk@);
        let ls = self.log_start;
        // Phase 1: save the originals.
        let mut origins: Vec<Block> = Vec::new();
        let mut i: usize = 0;
        while i < n
            invariant
                i <= n,
                n == w.len(),
                w == self.new_blocks@,
                self.inv(),
                self.fits(*disk),
                disk@ == old(disk)@,
                im0 == image(old(disk)@),
                origins@.len() == i,
                forall|k: int| 0 <= k < i ==> #[trigger] origins@[k]@ == im0[w[k].0 as int],
            decreases n - i,
        {
            let mut orig: Block = [0u8; BLOCK_SIZE];
            disk.read_block(self.new_blocks[i].0, &mut orig);
            origins.push(orig);
            i = i + 1;
        }
        let mut j: usize = 0;
        while j < n
            invariant
                j <= n,
                n == w.len(),
                w == self.new_blocks@,
                self.inv(),
                self.fits(*disk),
                ls == self.log_start,
                origins@.len() == n,
                forall|k: int| 0 <= k < n ==> #[trigger] origins@[k]@ == im0[w[k].0 as int],
                im0 == image(old(disk)@),
                image(disk@) == write_log(im0, ls as int, originals(im0, keys(w)).take(j as int)),
            decreases n - j,
        {
            let ghost p = image(disk@);
            disk.write_block(ls + 1 + j as u32, &origins[j]);
            assert(image(disk@) =~= p.update(ls + 1 + j, im0[w[j as int].0 as int]));
            assert(originals(im0, keys(w)).take(j + 1) =~= originals(im0, keys(w)).take(j as int).push(im0[w[j as int].0 as int]));
            assert(image(disk@) =~= write_log(im0, ls as int, originals(im0, keys(w)).take(j + 1)));
            j = j + 1;
        }
        assert(originals(im0, keys(w)).take(n as int) =~= originals(im0, keys(w)));
        // Phase 2: the commit point.
        let mut hdr = LogHeader::new();
        hdr.count = n as u32;
        hdr.committed = 1;
        let mut k: usize = 0;
        while k < n
            invariant
                k <= n <= 30,
                n == w.len(),
                w == self.new_blocks@,
                hdr.count == n,
                hdr.committed == 1,
                forall|q: int| 0 <= q < 30 ==> #[trigger] hdr.blocks@[q] == (if q < k { w[q].0 } else { 0u32 }),
            decreases n - k,
        {
            hdr.blocks[k] = self.new_blocks[k].0;
            k = k + 1;
        }
        assert(hdr.blocks@ =~= pad_blocks(keys(w)));
        self.write_header(disk, &hdr);
        // Phase 3: the new data in place.
        let ghost im2 = image(disk@);
        let mut m: usize = 0;
        while m < n
            invariant
                m <= n,
                n == w.len(),
                w == self.new_blocks@,
                self.inv(),
                self.fits(*disk),
                image(disk@) == apply_writes(im2, w.take(m as int)),
            decreases n - m,
        {
            let ghost p = image(disk@);
            disk.write_block(self.new_blocks[m].0, &self.new_blocks[m].1);
            proof {
                assert(w.take(m + 1).drop_last() =~= w.take(m as int));
                assert(image(disk@) =~= p.update(w[m as int].0 as int, w[m as int].1@));
            }
            m = m + 1;
        }
        assert(w.take(n as int) =~= w);
        // Phase 4: clear the header.
        let empty = LogHeader::new();
        self.write_header(disk, &empty);
        // The cache sees the new data.
        let mut q: usize = 0;
        while q < n
            invariant
                q <= n,
                n == w.len(),
                w == self.new_blocks@,
                self.inv(),
                self.fits(*disk),
                cache@ == cache_writes(old(cache)@, w.take(q as int)),
            decreases n - q,
        {
            proof {
                assert(w[q as int].0 < disk.nblocks);
            }
            let _ = cache.write(disk, self.new_blocks[q].0, &self.new_blocks[q].1);
            proof {
                assert(w.take(q + 1).drop_last() =~= w.take(q as int));
            }
            q = q + 1;
        }
        self.in_tx = false;
        self.original_blocks.clear();
        self.new_blocks.clear();
    }

    /// Restores the originals of a committed, non-empty log; then clears
    /// the header (see `recover_image`). The cache is left alone.
    fn recover(&mut self, disk: &mut FileDisk, cache: &mut BlockCache)
        ensures
            image(final(disk)@) == recover_image(image(old(disk)@), old(self).spec_log_start() as int),
            final(cache)@ == old(cache)@,
            final(self).pending() == old(self).pending(),
            final(self).spec_log_start() == old(self).spec_log_start(),
    {
        let hdr = self.read_header(disk);
        if hdr.count == 0 || hdr.committed == 0 {
            let empty = LogHeader::new();
            self.write_header(disk, &empty);
            return;
        }
        proof {
            assert(header_list(image(disk@)[self.log_start as int]) == header_list(disk@[self.log_start as int]@));
        }
        replay_blocks(disk, self.log_start, &hdr.blocks, hdr.count as usize);
        let empty = LogHeader::new();
        self.write_header(disk, &empty);
    }

    /// Drops an open transaction and clears the header.
    fn cleanup(&mut self, disk: &mut FileDisk, cache: &mut BlockCache)
        ensures
            image(final(disk)@) == image(old(disk)@).update(old(self).spec_log_start() as int, empty_header()),
            final(cache)@ == old(cache)@,
            final(self).pending() == Seq::<(u32, Block)>::empty() || (!old(self).in_tx() && final(self).pending() == old(self).pending()),
            final(self).spec_log_start() == old(self).spec_log_start(),
    {
        if self.in_tx {
            self.in_tx = false;
            self.original_blocks.clear();
            self.new_blocks.clear();
        }
        let empty = LogHeader::new();
        self.write_header(disk, &empty);
    }
}

/// A journal that does nothing: no transaction survives a crash.
pub struct NoOpLog;

impl Journal for NoOpLog {
    open spec fn inv(&self) -> bool {
        true
    }

    open spec fn in_tx(&self) -> bool {
        false
    }

    open spec fn ready(&self) -> bool {
        true
    }

    open spec fn can_log(&self, block_no: u32) -> bool {
        true
    }

    open spec fn fits(&self, disk: FileDisk) -> bool {
        disk.wf()
    }

    open spec fn can_recover(&self, disk: FileDisk) -> bool {
        true
    }

    open spec fn nothing_logged(&self) -> bool {
        true
    }

    fn begin_tx(&mut self) {
    }

    fn log_write(&mut self, block_no: u32, data: &Block) {
    }

    /// Leaves disk and cache alone.
    fn commit(&mut self, disk: &mut FileDisk, cache: &mut BlockCache)
        ensures
            final(disk)@ == old(disk)@,
            final(cache)@ == old(cache)@,
    {
    }

    /// Leaves disk and cache alone.
    fn recover(&mut self, disk: &mut FileDisk, cache: &mut BlockCache)
        ensures
            final(disk)@ == old(disk)@,
            final(cache)@ == old(cache)@,
    {
    }

    /// Leaves disk and cache alone.
    fn cleanup(&mut self, disk: &mut FileDisk, cache: &mut BlockCache)
        ensures
            final(disk)@ == old(disk)@,
            final(cache)@ == old(cache)@,
    {
    }
}

/// Replay only reads the first `n` listed blocks.
pub proof fn lemma_replay_prefix(im: Seq<Seq<u8>>, ls: int, a: Seq<u32>, b: Seq<u32>, n: int)
    requires
        0 <= n <= a.len(),
        n <= b.len(),
        forall|k: int| 0 <= k < n ==> a[k] == b[k],
    ensures
        replay(im, ls, a, n) == replay(im, ls, b, n),
    decreases n,
{
    if n > 0 {
        lemma_replay_prefix(im, ls, a, b, n - 1);
    }
}

} // verus!

verus! {

/// The writes `w` can be logged over an image of `len` blocks with the log
/// header at `ls`: between 1 and 30 writes, distinct blocks on the disk
/// outside the log header and data blocks, whose data blocks lie on the
/// disk.
pub open spec fn loggable(len: int, ls: int, w: Seq<(u32, Block)>) -> bool {
    &&& 1 <= w.len() <= 30
    &&& 0 <= ls
    &&& ls + 1 + w.len() <= len
    &&& distinct_keys(w)
    &&& forall|i: int| 0 <= i < w.len() ==> #[trigger] w[i].0 < len
    &&& forall|i: int| 0 <= i < w.len() ==> !(ls <= #[trigger] w[i].0 < ls + 1 + w.len())
}

/// What replaying from the log does to each block, when the listed blocks
/// are distinct and lie outside the log data blocks.
pub proof fn lemma_replay_blocks(im: Seq<Seq<u8>>, ls: int, bl: Seq<u32>, n: int)
    requires
        0 <= n <= bl.len(),
        0 <= ls,
        ls + 1 + n <= im.len(),
        forall|i: int| 0 <= i < n ==> #[trigger] bl[i] < im.len(),
        forall|i: int| 0 <= i < n ==> !(ls + 1 <= #[trigger] bl[i] < ls + 1 + n),
        forall|i: int, j: int| 0 <= i < j < n ==> bl[i] != bl[j],
    ensures
        replay(im, ls, bl, n).len() == im.len(),
        forall|i: int| 0 <= i < n ==> replay(im, ls, bl, n)[#[trigger] bl[i] as int] == im[ls + 1 + i],
        forall|j: int| 0 <= j < im.len() && (forall|i: int| 0 <= i < n ==> bl[i] != j) ==> #[trigger] replay(im, ls, bl, n)[j] == im[j],
    decreases n,
{
    if n > 0 {
        lemma_replay_blocks(im, ls, bl, n - 1);
        let p = replay(im, ls, bl, n - 1);
        assert(p[ls + n] == im[ls + n]);
        assert forall|i: int| 0 <= i < n implies replay(im, ls, bl, n)[#[trigger] bl[i] as int] == im[ls + 1 + i] by {
            if i < n - 1 {
                assert(bl[i] != bl[n - 1]);
            }
        }
    }
}

/// Committing writes with the redo log leaves each written block holding
/// its new data and every other block outside the log as it was.
pub proof fn law_redo_commit_writes(im: Seq<Seq<u8>>, ls: int, w: Seq<(u32, Block)>)
    requires
        loggable(im.len() as int, ls, w),
    ensures
        forall|i: int| 0 <= i < w.len() ==> redo_commit_image(im, ls, w)[#[trigger] w[i].0 as int] == w[i].1@,
        forall|j: int| 0 <= j < im.len() && !(ls <= j < ls + 1 + w.len()) && !keys(w).contains(j as u32)
            ==> #[trigger] redo_commit_image(im, ls, w)[j] == im[j],
        redo_commit_image(im, ls, w)[ls] == empty_header(),
{
    let n = w.len() as int;
    let d1 = write_log(im, ls, datas(w));
    let d2 = d1.update(ls, commit_header(keys(w)));
    lemma_replay_blocks(d2, ls, keys(w), n);
    assert forall|i: int| 0 <= i < w.len() implies redo_commit_image(im, ls, w)[#[trigger] w[i].0 as int] == w[i].1@ by {
        assert(keys(w)[i] == w[i].0);
    }
    assert forall|j: int| 0 <= j < im.len() && !(ls <= j < ls + 1 + w.len()) && !keys(w).contains(j as u32)
        implies #[trigger] redo_commit_image(im, ls, w)[j] == im[j] by {
        assert forall|i: int| 0 <= i < n implies keys(w)[i] != j by {
            if keys(w)[i] == j {
                assert(keys(w).contains(j as u32));
            }
        }
    }
}

/// Committing writes with the undo log leaves each written block holding
/// its new data and every other block outside the log as it was.
pub proof fn law_undo_commit_writes(im: Seq<Seq<u8>>, ls: int, w: Seq<(u32, Block)>)
    requires
        loggable(im.len() as int, ls, w),
    ensures
        forall|i: int| 0 <= i < w.len() ==> undo_commit_image(im, ls, w)[#[trigger] w[i].0 as int] == w[i].1@,
        forall|j: int| 0 <= j < im.len() && !(ls <= j < ls + 1 + w.len()) && !keys(w).contains(j as u32)
            ==> #[trigger] undo_commit_image(im, ls, w)[j] == im[j],
        undo_commit_image(im, ls, w)[ls] == empty_header(),
{
    let d1 = write_log(im, ls, originals(im, keys(w)));
    let d2 = d1.update(ls, commit_header(keys(w)));
    lemma_apply_writes(d2, w);
    assert forall|j: int| 0 <= j < im.len() && !(ls <= j < ls + 1 + w.len()) && !keys(w).contains(j as u32)
        implies #[trigger] undo_commit_image(im, ls, w)[j] == im[j] by {
        assert forall|i: int| 0 <= i < w.len() implies w[i].0 != j by {
            if w[i].0 == j {
                assert(keys(w)[i] == w[i].0);
                assert(keys(w).contains(j as u32));
            }
        }
    }
}

/// What applying distinct writes does to each block.
pub proof fn lemma_apply_writes(im: Seq<Seq<u8>>, w: Seq<(u32, Block)>)
    requires
        distinct_keys(w),
        forall|i: int| 0 <= i < w.len() ==> #[trigger] w[i].0 < im.len(),
    ensures
        apply_writes(im, w).len() == im.len(),
        forall|i: int| 0 <= i < w.len() ==> apply_writes(im, w)[#[trigger] w[i].0 as int] == w[i].1@,
        forall|j: int| 0 <= j < im.len() && (forall|i: int| 0 <= i < w.len() ==> w[i].0 != j) ==> #[trigger] apply_writes(im, w)[j] == im[j],
    decreases w.len(),
{
    if w.len() > 0 {
        let v = w.drop_last();
        assert forall|i: int| 0 <= i < v.len() implies #[trigger] v[i].0 < im.len() by {
            assert(v[i] == w[i]);
        }
        lemma_apply_writes(im, v);
        assert forall|i: int| 0 <= i < w.len() implies apply_writes(im, w)[#[trigger] w[i].0 as int] == w[i].1@ by {
            if i < w.len() - 1 {
                assert(v[i] == w[i]);
                assert(w[i].0 != w[w.len() - 1].0);
            }
        }
        assert forall|j: int| 0 <= j < im.len() && (forall|i: int| 0 <= i < w.len() ==> w[i].0 != j)
            implies #[trigger] apply_writes(im, w)[j] == im[j] by {
            assert forall|i: int| 0 <= i < v.len() implies v[i].0 != j by {
                assert(v[i] == w[i]);
            }
        }
    }
}

/// The header decodes as written.
pub proof fn lemma_commit_header(w: Seq<(u32, Block)>)
    requires
        w.len() <= 30,
    ensures
        commit_header(keys(w)).len() == 512,
        get_u32(commit_header(keys(w)), 0) == w.len(),
        get_u32(commit_header(keys(w)), 4) == 1,
        forall|i: int| 0 <= i < w.len() ==> #[trigger] header_list(commit_header(keys(w)))[i] == w[i].0,
{
    lemma_header_roundtrip(w.len() as u32, 1, pad_blocks(keys(w)));
}

/// A crash of a redo commit after its header is written, at any point of
/// copying the data in place, recovers to the image of the completed
/// commit.
pub proof fn law_redo_crash_after_commit_point(im: Seq<Seq<u8>>, ls: int, w: Seq<(u32, Block)>, k: int)
    requires
        loggable(im.len() as int, ls, w),
        0 <= k <= w.len(),
    ensures
        ({
            let d2 = write_log(im, ls, datas(w)).update(ls, commit_header(keys(w)));
            recover_image(replay(d2, ls, keys(w), k), ls) == redo_commit_image(im, ls, w)
        }),
{
    let n = w.len() as int;
    let d2 = write_log(im, ls, datas(w)).update(ls, commit_header(keys(w)));
    let dk = replay(d2, ls, keys(w), k);
    lemma_commit_header(w);
    lemma_replay_blocks(d2, ls, keys(w), k);
    lemma_replay_blocks(d2, ls, keys(w), n);
    assert forall|i: int| 0 <= i < n implies keys(w)[i] != ls by {
        assert(w[i].0 == keys(w)[i]);
    }
    assert(dk[ls] == d2[ls]);
    let bl = header_list(dk[ls]);
    assert forall|i: int| 0 <= i < n implies #[trigger] bl[i] == keys(w)[i] by {}
    lemma_replay_prefix(dk, ls, bl, keys(w), n);
    lemma_replay_blocks(dk, ls, keys(w), n);
    assert forall|j: int| 0 <= j < im.len() implies #[trigger] replay(dk, ls, keys(w), n)[j] == replay(d2, ls, keys(w), n)[j] by {
        if exists|i: int| 0 <= i < n && keys(w)[i] == j {
            let i = choose|i: int| 0 <= i < n && keys(w)[i] == j;
            assert(dk[ls + 1 + i] == d2[ls + 1 + i]) by {
                assert forall|q: int| 0 <= q < k implies keys(w)[q] != ls + 1 + i by {}
            }
        } else {
            assert forall|q: int| 0 <= q < k implies keys(w)[q] != j by {}
        }
    }
    assert(replay(dk, ls, keys(w), n) =~= replay(d2, ls, keys(w), n));
}

/// A crash of a redo commit before its header is written, while the data
/// goes to the log, changes no block outside the log once recovered,
/// provided the log was empty before.
pub proof fn law_redo_crash_before_commit_point(im: Seq<Seq<u8>>, ls: int, w: Seq<(u32, Block)>, k: int)
    requires
        loggable(im.len() as int, ls, w),
        0 <= k <= w.len(),
        get_u32(im[ls], 0) == 0,
    ensures
        forall|j: int| 0 <= j < im.len() && !(ls <= j < ls + 1 + w.len())
            ==> #[trigger] recover_image(write_log(im, ls, datas(w).take(k)), ls)[j] == im[j],
{
}

/// A crash of an undo commit after its header is written, at any point of
/// writing the new data in place, recovers every block outside the log to
/// its content before the commit.
pub proof fn law_undo_crash_after_commit_point(im: Seq<Seq<u8>>, ls: int, w: Seq<(u32, Block)>, k: int)
    requires
        loggable(im.len() as int, ls, w),
        0 <= k <= w.len(),
    ensures
        ({
            let d2 = write_log(im, ls, originals(im, keys(w))).update(ls, commit_header(keys(w)));
            forall|j: int| 0 <= j < im.len() && !(ls <= j < ls + 1 + w.len())
                ==> #[trigger] recover_image(apply_writes(d2, w.take(k)), ls)[j] == im[j]
        }),
{
    let n = w.len() as int;
    let d2 = write_log(im, ls, originals(im, keys(w))).update(ls, commit_header(keys(w)));
    let wk = w.take(k);
    assert forall|i: int| 0 <= i < wk.len() implies #[trigger] wk[i].0 < d2.len() by {
        assert(wk[i] == w[i]);
    }
    lemma_apply_writes(d2, wk);
    let dk = apply_writes(d2, wk);
    lemma_commit_header(w);
    assert forall|i: int| 0 <= i < wk.len() implies wk[i].0 != ls by {
        assert(wk[i] == w[i]);
    }
    assert(dk[ls] == d2[ls]);
    let bl = header_list(dk[ls]);
    assert forall|i: int| 0 <= i < n implies #[trigger] bl[i] == keys(w)[i] by {}
    lemma_replay_prefix(dk, ls, bl, keys(w), n);
    lemma_replay_blocks(dk, ls, keys(w), n);
    assert forall|j: int| 0 <= j < im.len() && !(ls <= j < ls + 1 + w.len())
        implies #[trigger] recover_image(dk, ls)[j] == im[j] by {
        if exists|i: int| 0 <= i < n && keys(w)[i] == j {
            let i = choose|i: int| 0 <= i < n && keys(w)[i] == j;
            assert forall|q: int| 0 <= q < wk.len() implies wk[q].0 != ls + 1 + i by {
                assert(wk[q] == w[q]);
            }
            assert(dk[ls + 1 + i] == d2[ls + 1 + i]);
            assert(d2[ls + 1 + i] == originals(im, keys(w))[i]);
        } else {
            assert forall|q: int| 0 <= q < wk.len() implies wk[q].0 != j by {
                assert(wk[q] == w[q]);
                assert(keys(w)[q] == w[q].0);
            }
        }
    }
}

/// A crash of an undo commit before its header is written, while the
/// originals go to the log, changes no block outside the log once
/// recovered, provided the log was empty before.
pub proof fn law_undo_crash_before_commit_point(im: Seq<Seq<u8>>, ls: int, w: Seq<(u32, Block)>, k: int)
    requires
        loggable(im.len() as int, ls, w),
        0 <= k <= w.len(),
        get_u32(im[ls], 0) == 0,
    ensures
        forall|j: int| 0 <= j < im.len() && !(ls <= j < ls + 1 + w.len())
            ==> #[trigger] recover_image(write_log(im, ls, originals(im, keys(w)).take(k)), ls)[j] == im[j],
{
}

} // verus!
