use vstd::prelude::*;
use vstd::string::StringSliceAdditionalSpecFns;

verus! {

/// Open flag: create the file when it is missing.
pub const O_CREATE: usize = 1;

/// Open flag: empty the file when it exists.
pub const O_TRUNC: usize = 2;

/// An in-memory file system: a flat directory of paths, each naming an
/// inode; inodes outlive their names while files are open on them.
pub struct RamFs {
    names: Vec<Vec<u8>>,
    inodes: Vec<usize>,
    datas: Vec<Vec<u8>>,
}

/// Whether two byte strings are equal.
fn bytes_eq(a: &[u8], b: &[u8]) -> (r: bool)
    ensures
        r == (a@ == b@),
{
    if a.len() != b.len() {
        return false;
    }
    let mut i: usize = 0;
    while i < a.len()
        invariant
            i <= a@.len(),
            a@.len() == b@.len(),
            forall|j: int| 0 <= j < i ==> a@[j] == b@[j],
        decreases a@.len() - i,
    {
        if a[i] != b[i] {
            return false;
        }
        i = i + 1;
    }
    assert(a@ =~= b@);
    true
}

/// `data` with `buf` written at `off`, grown with zeros to reach it.
pub open spec fn written(data: Seq<u8>, off: int, buf: Seq<u8>) -> Seq<u8> {
    let end = off + buf.len();
    let len = if end > data.len() { end } else { data.len() as int };
    Seq::new(len as nat, |i: int| if off <= i < end { buf[i - off] } else if i < data.len() { data[i] } else { 0u8 })
}

/// Writing `buf` at `off` puts its bytes there and leaves every other byte
/// of the file as it was: the file grows to reach the end of the write
/// (with zeros in any gap) and never shrinks.
pub proof fn law_write_keeps_the_rest(data: Seq<u8>, off: int, buf: Seq<u8>)
    requires
        0 <= off,
    ensures
        written(data, off, buf).len() >= data.len(),
        written(data, off, buf).len() >= off + buf.len(),
        written(data, off, buf).len() == data.len() || written(data, off, buf).len() == off + buf.len(),
        forall|k: int| 0 <= k < buf.len() ==> #[trigger] written(data, off, buf)[off + k] == buf[k],
        forall|i: int| 0 <= i < data.len() && !(off <= i < off + buf.len()) ==> #[trigger] written(data, off, buf)[i] == data[i],
        forall|i: int| data.len() <= i < off ==> #[trigger] written(data, off, buf)[i] == 0u8,
{
}

impl RamFs {
    /// The directory: paths with their inodes, in creation order.
    pub closed spec fn dir(&self) -> Seq<(Seq<u8>, usize)> {
        Seq::new(self.names@.len(), |i: int| (self.names@[i]@, self.inodes@[i]))
    }

    /// The contents of the inodes, by inode number.
    pub closed spec fn data(&self) -> Seq<Seq<u8>> {
        Seq::new(self.datas@.len(), |i: int| self.datas@[i]@)
    }

    /// Each path has its inode.
    pub closed spec fn lens_ok(&self) -> bool {
        self.names@.len() == self.inodes@.len()
    }

    /// Paths are unique and name existing inodes.
    pub open spec fn wf(&self) -> bool {
        &&& self.lens_ok()
        &&& forall|i: int, j: int| 0 <= i < j < self.dir().len() ==> self.dir()[i].0 != self.dir()[j].0
        &&& forall|i: int| 0 <= i < self.dir().len() ==> #[trigger] self.dir()[i].1 < self.data().len()
    }

    /// The inode that `path` names, if any.
    pub open spec fn lookup(&self, path: Seq<u8>) -> Option<usize> {
        if exists|i: int| 0 <= i < self.dir().len() && #[trigger] self.dir()[i].0 == path {
            let i = choose|i: int| 0 <= i < self.dir().len() && #[trigger] self.dir()[i].0 == path;
            Some(self.dir()[i].1)
        } else {
            None
        }
    }

    /// An empty file system.
    pub fn new() -> (fs: Self)
        ensures
            fs.wf(),
            fs.dir() == Seq::<(Seq<u8>, usize)>::empty(),
            fs.data() == Seq::<Seq<u8>>::empty(),
    {
        let fs = RamFs { names: Vec::new(), inodes: Vec::new(), datas: Vec::new() };
        assert(fs.dir() =~= Seq::<(Seq<u8>, usize)>::empty());
        assert(fs.data() =~= Seq::<Seq<u8>>::empty());
        fs
    }

    /// The directory index of `path`.
    fn find(&self, path: &[u8]) -> (r: Option<usize>)
        requires
            self.names@.len() == self.inodes@.len(),
        ensures
            match r {
                Some(i) => i < self.dir().len() && self.dir()[i as int].0 == path@,
                None => forall|i: int| 0 <= i < self.dir().len() ==> #[trigger] self.dir()[i].0 != path@,
            },
    {
        let mut i: usize = 0;
        while i < self.names.len()
            invariant
                i <= self.names@.len(),
                self.names@.len() == self.inodes@.len(),
                forall|j: int| 0 <= j < i ==> #[trigger] self.dir()[j].0 != path@,
            decreases self.names@.len() - i,
        {
            if bytes_eq(self.names[i].as_slice(), path) {
                return Some(i);
            }
            i = i + 1;
        }
        None
    }
}

/// Opens the inode of `path`: emptied with `O_TRUNC`; created (empty,
/// last in the directory) with `O_CREATE` when the path is missing; none
/// otherwise.
fn open_inode(fs: &mut RamFs, path: &[u8], flags: usize) -> (r: Option<usize>)
    requires
        old(fs).wf(),
    ensures
        final(fs).wf(),
        match old(fs).lookup(path@) {
            Some(ino) => r == Some(ino) && final(fs).dir() == old(fs).dir() && final(fs).data() == (if flags & O_TRUNC != 0 {
                old(fs).data().update(ino as int, Seq::empty())
            } else {
                old(fs).data()
            }),
            None => if flags & O_CREATE != 0 {
                &&& r == Some(old(fs).data().len() as usize)
                &&& final(fs).dir() == old(fs).dir().push((path@, old(fs).data().len() as usize))
                &&& final(fs).data() == old(fs).data().push(Seq::empty())
            } else {
                r is None && final(fs).dir() == old(fs).dir() && final(fs).data() == old(fs).data()
            },
        },
{
    match fs.find(path) {
        Some(i) => {
            let ino = fs.inodes[i];
            proof {
                assert(fs.dir()[i as int].0 == path@);
                let k = choose|k: int| 0 <= k < fs.dir().len() && #[trigger] fs.dir()[k].0 == path@;
                assert(k == i);
            }
            if flags & O_TRUNC != 0 {
                fs.datas.set(ino, Vec::new());
                assert(fs.data() =~= old(fs).data().update(ino as int, Seq::empty()));
            }
            assert(fs.dir() =~= old(fs).dir());
            Some(ino)
        },
        None => {
            if flags & O_CREATE != 0 {
                let ino = fs.datas.len();
                fs.datas.push(Vec::new());
                fs.names.push(vstd::slice::slice_to_vec(path));
                fs.inodes.push(ino);
                assert(fs.dir() =~= old(fs).dir().push((path@, ino)));
                assert(fs.data() =~= old(fs).data().push(Seq::empty()));
                Some(ino)
            } else {
                None
            }
        },
    }
}

/// Removes `path` from the directory: 0 when it was there, else -1. The
/// inode stays for files open on it.
pub fn unlink(fs: &mut RamFs, path: &str) -> (r: isize)
    requires
        old(fs).wf(),
    ensures
        final(fs).wf(),
        final(fs).data() == old(fs).data(),
        r == (if old(fs).lookup(path.spec_bytes()) is Some { 0isize } else { -1isize }),
        final(fs).lookup(path.spec_bytes()) is None,
        forall|p: Seq<u8>| p != path.spec_bytes() ==> #[trigger] final(fs).lookup(p) == old(fs).lookup(p),
{
    match fs.find(path.as_bytes()) {
        Some(i) => {
            fs.names.remove(i);
            fs.inodes.remove(i);
            proof {
                assert(fs.dir() =~= old(fs).dir().remove(i as int));
                assert(fs.data() =~= old(fs).data());
                assert forall|p: Seq<u8>| p != path.spec_bytes() implies #[trigger] fs.lookup(p) == old(fs).lookup(p) by {
                    if exists|k: int| 0 <= k < old(fs).dir().len() && #[trigger] old(fs).dir()[k].0 == p {
                        let k = choose|k: int| 0 <= k < old(fs).dir().len() && #[trigger] old(fs).dir()[k].0 == p;
                        let k2 = if k < i { k } else { k - 1 };
                        assert(fs.dir()[k2].0 == p);
                        let m = choose|m: int| 0 <= m < fs.dir().len() && #[trigger] fs.dir()[m].0 == p;
                        let m1 = if m < i { m } else { m + 1 };
                        assert(old(fs).dir()[m1].0 == p);
                    }
                    if exists|k: int| 0 <= k < fs.dir().len() && #[trigger] fs.dir()[k].0 == p {
                        let k = choose|k: int| 0 <= k < fs.dir().len() && #[trigger] fs.dir()[k].0 == p;
                        let k1 = if k < i { k } else { k + 1 };
                        assert(old(fs).dir()[k1].0 == p);
                    }
                }
                assert(fs.lookup(path.spec_bytes()) is None) by {
                    if exists|k: int| 0 <= k < fs.dir().len() && #[trigger] fs.dir()[k].0 == path.spec_bytes() {
                        let k = choose|k: int| 0 <= k < fs.dir().len() && #[trigger] fs.dir()[k].0 == path.spec_bytes();
                        let k1 = if k < i { k } else { k + 1 };
                        assert(old(fs).dir()[k1].0 == path.spec_bytes());
                    }
                }
            }
            0
        },
        None => -1,
    }
}

/// An open file of the in-memory file system: its inode and the offset
/// of the next read or write.
#[derive(Clone, Copy, Debug)]
pub struct RamFile {
    pub inode: usize,
    pub offset: usize,
}

impl RamFile {
    /// Opens `path` (see `open_inode`) at offset 0.
    pub fn open(fs: &mut RamFs, path: &str, flags: usize) -> (r: Option<RamFile>)
        requires
            old(fs).wf(),
        ensures
            final(fs).wf(),
            match old(fs).lookup(path.spec_bytes()) {
                Some(ino) => r == Some(RamFile { inode: ino, offset: 0 }) && final(fs).dir() == old(fs).dir()
                    && final(fs).data() == (if flags & O_TRUNC != 0 {
                    old(fs).data().update(ino as int, Seq::empty())
                } else {
                    old(fs).data()
                }),
                None => if flags & O_CREATE != 0 {
                    &&& r == Some(RamFile { inode: old(fs).data().len() as usize, offset: 0 })
                    &&& final(fs).dir() == old(fs).dir().push((path.spec_bytes(), old(fs).data().len() as usize))
                    &&& final(fs).data() == old(fs).data().push(Seq::empty())
                } else {
                    r is None && final(fs).dir() == old(fs).dir() && final(fs).data() == old(fs).data()
                },
            },
    {
        match open_inode(fs, path.as_bytes(), flags) {
            Some(ino) => Some(RamFile { inode: ino, offset: 0 }),
            None => None,
        }
    }

    /// Reads from the offset into `buf` up to the end of the file, moves
    /// the offset past what it read and returns how many bytes it read.
    pub fn read(&mut self, fs: &RamFs, buf: &mut [u8]) -> (n: usize)
        requires
            old(self).inode < fs.data().len(),
        ensures
            ({
                let data = fs.data()[old(self).inode as int];
                let off = old(self).offset as int;
                let avail = if off >= data.len() { 0 } else { data.len() - off };
                &&& n == (if old(buf)@.len() < avail { old(buf)@.len() as int } else { avail })
                &&& final(buf)@.len() == old(buf)@.len()
                &&& forall|k: int| 0 <= k < n ==> #[trigger] final(buf)@[k] == data[off + k]
                &&& forall|k: int| n <= k < old(buf)@.len() ==> #[trigger] final(buf)@[k] == old(buf)@[k]
                &&& final(self).inode == old(self).inode
                &&& final(self).offset == (if off >= data.len() { off } else { off + n })
            }),
    {
        let data = &fs.datas[self.inode];
        let off = self.offset;
        if off >= data.len() {
            return 0;
        }
        let avail = data.len() - off;
        let n = if buf.len() < avail { buf.len() } else { avail };
        let mut k: usize = 0;
        while k < n
            invariant
                k <= n,
                n <= buf@.len(),
                off + n <= data@.len(),
                data@.len() <= usize::MAX,
                buf@.len() == old(buf)@.len(),
                forall|j: int| 0 <= j < k ==> #[trigger] buf@[j] == data@[off + j],
                forall|j: int| k <= j < buf@.len() ==> #[trigger] buf@[j] == old(buf)@[j],
            decreases n - k,
        {
            buf[k] = data[off + k];
            k = k + 1;
        }
        self.offset = off + n;
        n
    }

    /// Writes `buf` at the offset, growing the file with zeros as needed,
    /// moves the offset past it and returns its length.
    pub fn write(&mut self, fs: &mut RamFs, buf: &[u8]) -> (n: usize)
        requires
            old(self).inode < old(fs).data().len(),
            old(self).offset + buf@.len() <= usize::MAX,
        ensures
            n == buf@.len(),
            final(fs).dir() == old(fs).dir(),
            final(fs).data() == old(fs).data().update(
                old(self).inode as int,
                written(old(fs).data()[old(self).inode as int], old(self).offset as int, buf@),
            ),
            final(self).inode == old(self).inode,
            final(self).offset == old(self).offset + buf@.len(),
    {
        let off = self.offset;
        let end = off + buf.len();
        let mut data: Vec<u8> = Vec::new();
        fs.datas.set_and_swap(self.inode, &mut data);
        let ghost d0 = data@;
        while data.len() < end
            invariant
                d0.len() <= data@.len() <= end || data@.len() == d0.len(),
                forall|j: int| 0 <= j < d0.len() ==> data@[j] == d0[j],
                forall|j: int| d0.len() <= j < data@.len() ==> data@[j] == 0u8,
            decreases end - data@.len(),
        {
            data.push(0);
        }
        let mut k: usize = 0;
        while k < buf.len()
            invariant
                k <= buf@.len(),
                end == off + buf@.len(),
                data@.len() == (if end > d0.len() { end as int } else { d0.len() as int }),
                forall|j: int| 0 <= j < data@.len() ==> #[trigger] data@[j] == (if off <= j < off + k {
                    buf@[j - off]
                } else if j < d0.len() {
                    d0[j]
                } else {
                    0u8
                }),
            decreases buf@.len() - k,
        {
            data.set(off + k, buf[k]);
            k = k + 1;
        }
        assert(data@ =~= written(d0, off as int, buf@));
        fs.datas.set_and_swap(self.inode, &mut data);
        assert(fs.data() =~= old(fs).data().update(self.inode as int, written(d0, off as int, buf@)));
        assert(fs.dir() =~= old(fs).dir());
        self.offset = end;
        buf.len()
    }

    /// Moves the offset to `offset` from the start (`whence` 0), the
    /// current offset (1) or the end (2) and returns it; -1 for another
    /// `whence` or a negative result.
    pub fn seek(&mut self, fs: &RamFs, offset: isize, whence: usize) -> (r: isize)
        requires
            old(self).inode < fs.data().len(),
            fs.data()[old(self).inode as int].len() <= isize::MAX,
            old(self).offset <= isize::MAX,
            whence == 1 ==> i64::MIN <= old(self).offset + offset <= isize::MAX,
            whence == 2 ==> i64::MIN <= fs.data()[old(self).inode as int].len() + offset <= isize::MAX,
            whence == 0 ==> true,
        ensures
            ({
                let base: int = if whence == 0 {
                    0
                } else if whence == 1 {
                    old(self).offset as int
                } else {
                    fs.data()[old(self).inode as int].len() as int
                };
                if whence > 2 || base + offset < 0 {
                    r == -1 && *final(self) == *old(self)
                } else {
                    r == base + offset && final(self).offset == base + offset && final(self).inode == old(self).inode
                }
            }),
    {
        let data_len = fs.datas[self.inode].len() as isize;
        let base: isize = if whence == 0 {
            0
        } else if whence == 1 {
            self.offset as isize
        } else if whence == 2 {
            data_len
        } else {
            return -1;
        };
        let new_off = base + offset;
        if new_off < 0 {
            return -1;
        }
        self.offset = new_off as usize;
        new_off
    }

    /// The size of the file.
    pub fn size(&self, fs: &RamFs) -> (n: usize)
        requires
            self.inode < fs.data().len(),
        ensures
            n == fs.data()[self.inode as int].len(),
    {
        fs.datas[self.inode].len()
    }
}

} // verus!
