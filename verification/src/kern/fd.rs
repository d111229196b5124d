use vstd::prelude::*;
use vstd::string::StringSliceAdditionalSpecFns;
use crate::kern::ramfs::{RamFs, RamFile, O_CREATE, O_TRUNC, written};

verus! {

/// What a descriptor refers to.
#[derive(Clone, Copy, Debug)]
pub enum FdEntry {
    /// The console input: readable only.
    Stdin,
    /// The console output: writable only.
    Stdout,
    /// A file of the in-memory file system.
    Ram(RamFile),
}

/// What a read or write on a descriptor comes to.
#[derive(Clone, Copy, Debug, PartialEq, Eq, Structural)]
pub enum FdIo {
    /// Refused: no such descriptor, or the wrong direction.
    Failed,
    /// The console does the transfer.
    Console,
    /// Done on a file: this many bytes.
    Done(usize),
}

/// A process's descriptors; 0, 1 and 2 are kept for the console.
pub struct FdTable {
    fds: Vec<Option<FdEntry>>,
}

impl FdTable {
    /// The descriptors by number.
    pub closed spec fn entries(&self) -> Seq<Option<FdEntry>> {
        self.fds@
    }

    /// The descriptor `fd`, if open.
    pub open spec fn get(&self, fd: usize) -> Option<FdEntry> {
        if fd < self.entries().len() {
            self.entries()[fd as int]
        } else {
            None
        }
    }

    /// Console input on 0, console output on 1 and 2.
    pub fn new() -> (t: Self)
        ensures
            t.entries() == seq![Some(FdEntry::Stdin), Some(FdEntry::Stdout), Some(FdEntry::Stdout)],
    {
        let mut fds: Vec<Option<FdEntry>> = Vec::new();
        fds.push(Some(FdEntry::Stdin));
        fds.push(Some(FdEntry::Stdout));
        fds.push(Some(FdEntry::Stdout));
        let t = FdTable { fds };
        assert(t.entries() =~= seq![Some(FdEntry::Stdin), Some(FdEntry::Stdout), Some(FdEntry::Stdout)]);
        t
    }
}

/// The descriptor that `sys_open` uses in `fds` (at least 3 long): the
/// first free one from 3 on, else a new one at the end.
pub open spec fn first_free_fd(fds: Seq<Option<FdEntry>>, k: int) -> int
    decreases fds.len() - k,
{
    if k >= fds.len() {
        fds.len() as int
    } else if fds[k] is None {
        k
    } else {
        first_free_fd(fds, k + 1)
    }
}

/// `fds` grown with free descriptors to at least 3.
pub open spec fn padded(fds: Seq<Option<FdEntry>>) -> Seq<Option<FdEntry>> {
    if fds.len() >= 3 {
        fds
    } else {
        fds + Seq::new((3 - fds.len()) as nat, |i: int| None::<FdEntry>)
    }
}

pub proof fn lemma_first_free(fds: Seq<Option<FdEntry>>, k: int)
    requires
        0 <= k <= fds.len(),
    ensures
        k <= first_free_fd(fds, k) <= fds.len(),
        first_free_fd(fds, k) < fds.len() ==> fds[first_free_fd(fds, k)] is None,
    decreases fds.len() - k,
{
    if k < fds.len() {
        lemma_first_free(fds, k + 1);
    }
}

/// Opens `path` (see `RamFile::open`) on the first free descriptor from 3
/// on and returns it; -1 for an empty path or when the file cannot be
/// opened.
pub fn sys_open(fdt: &mut FdTable, fs: &mut RamFs, path: &str, flags: usize) -> (r: isize)
    requires
        old(fs).wf(),
        old(fdt).entries().len() < isize::MAX,
        path.spec_bytes().len() <= usize::MAX,
    ensures
        final(fs).wf(),
        path.spec_bytes().len() == 0 ==> r == -1 && *final(fs) == *old(fs) && final(fdt).entries() == old(fdt).entries(),
        path.spec_bytes().len() > 0 && old(fs).lookup(path.spec_bytes()) is None && flags & O_CREATE == 0 ==> r == -1
            && final(fdt).entries() == old(fdt).entries(),
        r >= 0 ==> {
            let fds = padded(old(fdt).entries());
            let fd = first_free_fd(fds, 3);
            &&& r == fd
            &&& final(fdt).get(fd as usize) is Some
            &&& final(fdt).get(fd as usize)->0 matches FdEntry::Ram(f) && f.offset == 0 && Some(f.inode) == final(fs).lookup(path.spec_bytes())
            &&& forall|k: usize| k != fd ==> #[trigger] final(fdt).get(k) == (if k < fds.len() { fds[k as int] } else { None })
        },
        path.spec_bytes().len() > 0 && (old(fs).lookup(path.spec_bytes()) is Some || flags & O_CREATE != 0) ==> r >= 0,
{
    if path.len() == 0 {
        return -1;
    }
    let file = match RamFile::open(fs, path, flags) {
        Some(f) => f,
        None => return -1,
    };
    proof {
        assert(fs.lookup(path.spec_bytes()) == Some(file.inode)) by {
            if old(fs).lookup(path.spec_bytes()) is None {
                let n = old(fs).dir().len() as int;
                assert(fs.dir()[n].0 == path.spec_bytes());
                assert forall|i: int| 0 <= i < fs.dir().len() && #[trigger] fs.dir()[i].0 == path.spec_bytes() implies i == n by {
                    if i < n {
                        assert(old(fs).dir()[i].0 == path.spec_bytes());
                    }
                }
            } else {
                assert(fs.dir() == old(fs).dir());
            }
        }
    }
    while fdt.fds.len() < 3
        invariant
            fdt.fds@.len() <= 3 || fdt.fds@.len() == old(fdt).entries().len(),
            padded(old(fdt).entries()) == padded(fdt.fds@),
            old(fdt).entries().len() < isize::MAX,
            fdt.fds@.len() >= old(fdt).entries().len(),
            fs.wf(),
            fs.lookup(path.spec_bytes()) == Some(file.inode),
            file.offset == 0,
            path.spec_bytes().len() > 0,
            old(fs).lookup(path.spec_bytes()) is Some || flags & O_CREATE != 0,
        decreases 3 - fdt.fds@.len(),
    {
        let ghost before = fdt.fds@;
        fdt.fds.push(None);
        proof {
            assert(padded(before) =~= padded(fdt.fds@));
        }
    }
    let ghost fds = fdt.fds@;
    proof {
        assert(padded(fds) == fds);
        lemma_first_free(fds, 3);
    }
    let mut fd: usize = 3;
    while fd < fdt.fds.len()
        invariant
            3 <= fd <= fdt.fds@.len(),
            fdt.fds@ == fds,
            fds.len() < isize::MAX,
            first_free_fd(fds, 3) == first_free_fd(fds, fd as int),
            fds == padded(old(fdt).entries()),
            fs.wf(),
            fs.lookup(path.spec_bytes()) == Some(file.inode),
            file.offset == 0,
            path.spec_bytes().len() > 0,
            old(fs).lookup(path.spec_bytes()) is Some || flags & O_CREATE != 0,
        decreases fdt.fds@.len() - fd,
    {
        if fdt.fds[fd].is_none() {
            fdt.fds.set(fd, Some(FdEntry::Ram(file)));
            return fd as isize;
        }
        fd = fd + 1;
    }
    fdt.fds.push(Some(FdEntry::Ram(file)));
    (fdt.fds.len() - 1) as isize
}

/// Closes descriptor `fd`: 0 when it was open and not a console one,
/// else -1.
pub fn sys_close(fdt: &mut FdTable, fd: usize) -> (r: isize)
    ensures
        r == (if fd >= 3 && old(fdt).get(fd) is Some { 0isize } else { -1isize }),
        r == 0 ==> final(fdt).entries() == old(fdt).entries().update(fd as int, None),
        r != 0 ==> final(fdt).entries() == old(fdt).entries(),
{
    if fd < 3 {
        return -1;
    }
    if fd >= fdt.fds.len() || fdt.fds[fd].is_none() {
        return -1;
    }
    fdt.fds.set(fd, None);
    0
}

/// Moves the offset of descriptor `fd` (see `RamFile::seek`); -1 for a
/// closed descriptor or the console.
pub fn sys_lseek(fdt: &mut FdTable, fs: &RamFs, fd: usize, offset: isize, whence: usize) -> (r: isize)
    requires
        old(fdt).get(fd) matches Some(FdEntry::Ram(f)) ==> {
            &&& f.inode < fs.data().len()
            &&& fs.data()[f.inode as int].len() <= isize::MAX
            &&& f.offset <= isize::MAX
            &&& whence == 1 ==> i64::MIN <= f.offset + offset <= isize::MAX
            &&& whence == 2 ==> i64::MIN <= fs.data()[f.inode as int].len() + offset <= isize::MAX
        },
    ensures
        match old(fdt).get(fd) {
            Some(FdEntry::Ram(f)) => {
                let base: int = if whence == 0 {
                    0
                } else if whence == 1 {
                    f.offset as int
                } else {
                    fs.data()[f.inode as int].len() as int
                };
                if whence > 2 || base + offset < 0 {
                    r == -1 && final(fdt).entries() == old(fdt).entries()
                } else {
                    r == base + offset && final(fdt).entries() == old(fdt).entries().update(
                        fd as int,
                        Some(FdEntry::Ram(RamFile { inode: f.inode, offset: (base + offset) as usize })),
                    )
                }
            },
            _ => r == -1 && final(fdt).entries() == old(fdt).entries(),
        },
{
    if fd >= fdt.fds.len() {
        return -1;
    }
    match fdt.fds[fd] {
        Some(FdEntry::Ram(f)) => {
            let mut file = f;
            let r = file.seek(fs, offset, whence);
            if r >= 0 {
                fdt.fds.set(fd, Some(FdEntry::Ram(file)));
            }
            r
        },
        _ => -1,
    }
}

/// Removes `path` (see `ramfs::unlink`); -1 for an empty path.
pub fn sys_unlink(fs: &mut RamFs, path: &str) -> (r: isize)
    requires
        old(fs).wf(),
        path.spec_bytes().len() <= usize::MAX,
    ensures
        final(fs).wf(),
        path.spec_bytes().len() == 0 ==> r == -1 && *final(fs) == *old(fs),
        path.spec_bytes().len() > 0 ==> r == (if old(fs).lookup(path.spec_bytes()) is Some { 0isize } else { -1isize })
            && final(fs).lookup(path.spec_bytes()) is None
            && final(fs).data() == old(fs).data(),
{
    if path.len() == 0 {
        return -1;
    }
    crate::kern::ramfs::unlink(fs, path)
}

/// The size of the file on descriptor `fd` into `size`: 0 when done, -1
/// for a closed descriptor; the console has size 0.
pub fn sys_fsize(fdt: &FdTable, fs: &RamFs, fd: usize, size: &mut usize) -> (r: isize)
    requires
        fdt.get(fd) matches Some(FdEntry::Ram(f)) ==> f.inode < fs.data().len(),
    ensures
        r == (if fdt.get(fd) is Some { 0isize } else { -1isize }),
        r == 0 ==> *final(size) == (match fdt.get(fd)->0 {
            FdEntry::Ram(f) => fs.data()[f.inode as int].len() as usize,
            _ => 0usize,
        }),
        r != 0 ==> *final(size) == *old(size),
{
    if fd >= fdt.fds.len() {
        return -1;
    }
    match fdt.fds[fd] {
        None => -1,
        Some(FdEntry::Ram(f)) => {
            *size = f.size(fs);
            0
        },
        Some(_) => {
            *size = 0;
            0
        },
    }
}

/// Writes `buf` to descriptor `fd`: on a file at its offset (see
/// `RamFile::write`); the console output is left to the console; refused
/// for a closed descriptor and the console input.
pub fn sys_write(fdt: &mut FdTable, fs: &mut RamFs, fd: usize, buf: &[u8]) -> (r: FdIo)
    requires
        old(fdt).get(fd) matches Some(FdEntry::Ram(f)) ==> f.inode < old(fs).data().len() && f.offset + buf@.len() <= usize::MAX,
    ensures
        final(fs).dir() == old(fs).dir(),
        match old(fdt).get(fd) {
            None => r == FdIo::Failed && final(fs).data() == old(fs).data() && final(fdt).entries() == old(fdt).entries(),
            Some(FdEntry::Stdin) => r == FdIo::Failed && final(fs).data() == old(fs).data() && final(fdt).entries() == old(fdt).entries(),
            Some(FdEntry::Stdout) => r == FdIo::Console && final(fs).data() == old(fs).data() && final(fdt).entries() == old(fdt).entries(),
            Some(FdEntry::Ram(f)) => {
                &&& r == FdIo::Done(buf@.len() as usize)
                &&& final(fs).data() == old(fs).data().update(f.inode as int, written(old(fs).data()[f.inode as int], f.offset as int, buf@))
                &&& final(fdt).entries() == old(fdt).entries().update(fd as int, Some(FdEntry::Ram(RamFile { inode: f.inode, offset: (f.offset + buf@.len()) as usize })))
            },
        },
{
    if fd >= fdt.fds.len() {
        return FdIo::Failed;
    }
    match fdt.fds[fd] {
        None => FdIo::Failed,
        Some(FdEntry::Stdin) => FdIo::Failed,
        Some(FdEntry::Stdout) => FdIo::Console,
        Some(FdEntry::Ram(f)) => {
            let mut file = f;
            let n = file.write(fs, buf);
            fdt.fds.set(fd, Some(FdEntry::Ram(file)));
            FdIo::Done(n)
        },
    }
}

/// Reads from descriptor `fd` into `buf`: from a file at its offset (see
/// `RamFile::read`); the console input is left to the console; refused for
/// a closed descriptor and the console output.
pub fn sys_read(fdt: &mut FdTable, fs: &RamFs, fd: usize, buf: &mut [u8]) -> (r: FdIo)
    requires
        old(fdt).get(fd) matches Some(FdEntry::Ram(f)) ==> f.inode < fs.data().len(),
    ensures
        match old(fdt).get(fd) {
            None => r == FdIo::Failed && final(buf)@ == old(buf)@ && final(fdt).entries() == old(fdt).entries(),
            Some(FdEntry::Stdout) => r == FdIo::Failed && final(buf)@ == old(buf)@ && final(fdt).entries() == old(fdt).entries(),
            Some(FdEntry::Stdin) => r == FdIo::Console && final(buf)@ == old(buf)@ && final(fdt).entries() == old(fdt).entries(),
            Some(FdEntry::Ram(f)) => {
                let data = fs.data()[f.inode as int];
                let off = f.offset as int;
                let avail = if off >= data.len() { 0 } else { data.len() - off };
                let n = if old(buf)@.len() < avail { old(buf)@.len() as int } else { avail };
                &&& r == FdIo::Done(n as usize)
                &&& final(buf)@.len() == old(buf)@.len()
                &&& forall|k: int| 0 <= k < n ==> #[trigger] final(buf)@[k] == data[off + k]
                &&& forall|k: int| n <= k < old(buf)@.len() ==> #[trigger] final(buf)@[k] == old(buf)@[k]
                &&& final(fdt).entries() == old(fdt).entries().update(fd as int, Some(FdEntry::Ram(RamFile {
                    inode: f.inode,
                    offset: (if off >= data.len() { off } else { off + n }) as usize,
                })))
            },
        },
{
    if fd >= fdt.fds.len() {
        return FdIo::Failed;
    }
    match fdt.fds[fd] {
        None => FdIo::Failed,
        Some(FdEntry::Stdout) => FdIo::Failed,
        Some(FdEntry::Stdin) => FdIo::Console,
        Some(FdEntry::Ram(f)) => {
            let mut file = f;
            let n = file.read(fs, buf);
            fdt.fds.set(fd, Some(FdEntry::Ram(file)));
            FdIo::Done(n)
        },
    }
}

} // verus!
