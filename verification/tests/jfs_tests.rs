use oslab::jfs::bitmap::{bitmap_init, Bitmap};
use oslab::jfs::shell::split_command;
use oslab::jfs::block_cache::BlockCache;
use oslab::jfs::dir::{DirEntry, DirError, DirOps, ROOT_INUM};
use oslab::jfs::disk::{Block, FileDisk, BLOCK_SIZE};
use oslab::jfs::file::{FileOps, FsError};
use oslab::jfs::fs::{FileSystem, JournalType, MountError};
use oslab::jfs::inode::{DiskInode, InodeOps, INODES_PER_BLOCK, INODE_FILE, INODE_SIZE};
use oslab::jfs::log::{Journal, NoOpLog, RedoLog, UndoLog};
use oslab::jfs::superblock::{Superblock, FS_MAGIC};

fn fresh(nblocks: u32, jtype: JournalType) -> FileSystem {
    let disk = FileSystem::format(nblocks);
    FileSystem::mount(disk, jtype).unwrap()
}

fn create(fs: &mut FileSystem, name: &str) -> Result<u32, FsError> {
    let mut j = fs.make_journal();
    FileOps::create(&mut j, &mut fs.cache, &mut fs.disk, &fs.sb, name)
}

fn write(fs: &mut FileSystem, name: &str, data: &[u8]) -> Result<usize, FsError> {
    let mut j = fs.make_journal();
    FileOps::write(&mut j, &mut fs.cache, &mut fs.disk, &fs.sb, name, data)
}

fn read(fs: &mut FileSystem, name: &str) -> Result<String, FsError> {
    FileOps::read_string(&mut fs.cache, &fs.disk, &fs.sb, name)
}

/// The inode of `inum` as it stands on `disk`.
fn disk_inode(disk: &FileDisk, sb: &Superblock, inum: u32) -> DiskInode {
    let block = disk.block(sb.inode_start + inum / INODES_PER_BLOCK);
    let off = ((inum % INODES_PER_BLOCK) as usize) * INODE_SIZE;
    let mut raw = [0u8; INODE_SIZE];
    raw.copy_from_slice(&block[off..off + INODE_SIZE]);
    DiskInode::from_bytes(&raw)
}

/// A committed log header listing `blocks`.
fn committed_header(blocks: &[u32]) -> Block {
    let mut hdr = [0u8; BLOCK_SIZE];
    hdr[0..4].copy_from_slice(&(blocks.len() as u32).to_le_bytes());
    hdr[4..8].copy_from_slice(&1u32.to_le_bytes());
    for (i, b) in blocks.iter().enumerate() {
        hdr[8 + 4 * i..12 + 4 * i].copy_from_slice(&b.to_le_bytes());
    }
    hdr
}

#[test]
fn test_disk_read_write() {
    let mut disk = FileDisk::zeroed(100);
    let mut data: Block = [0u8; BLOCK_SIZE];
    data[0..5].copy_from_slice(b"hello");
    disk.write_block(10, &data);
    let mut buf: Block = [0u8; BLOCK_SIZE];
    disk.read_block(10, &mut buf);
    assert_eq!(&buf[0..5], b"hello");
    assert_eq!(disk.take_written(), vec![10]);
}

#[test]
fn test_bitmap_alloc_free() {
    let mut d = FileDisk::zeroed(1024);
    let mut cache = BlockCache::new();
    bitmap_init(&mut cache, &d, 10);
    let a = Bitmap::allocate(&mut cache, &d, 10, 100).unwrap();
    let b = Bitmap::allocate(&mut cache, &d, 10, 100).unwrap();
    let c = Bitmap::allocate(&mut cache, &d, 10, 100).unwrap();
    assert_ne!(a, b);
    assert_ne!(b, c);
    Bitmap::free(&mut cache, &d, 10, b);
    let d2 = Bitmap::allocate(&mut cache, &d, 10, 100).unwrap();
    assert_eq!(d2, b);
    cache.sync(&mut d);
}

#[test]
fn bitmap_hands_out_the_lowest_free_item() {
    let d = FileDisk::zeroed(64);
    let mut cache = BlockCache::new();
    bitmap_init(&mut cache, &d, 5);
    assert_eq!(Bitmap::allocate(&mut cache, &d, 5, 3), Some(0));
    assert_eq!(Bitmap::allocate(&mut cache, &d, 5, 3), Some(1));
    assert_eq!(Bitmap::allocate(&mut cache, &d, 5, 3), Some(2));
    assert_eq!(Bitmap::allocate(&mut cache, &d, 5, 3), None);
    assert!(Bitmap::is_allocated(&mut cache, &d, 5, 1));
    Bitmap::free(&mut cache, &d, 5, 1);
    assert!(!Bitmap::is_allocated(&mut cache, &d, 5, 1));
    Bitmap::mark(&mut cache, &d, 5, 9);
    assert!(Bitmap::is_allocated(&mut cache, &d, 5, 9));
}

#[test]
fn cache_write_is_seen_by_read_and_reaches_disk_on_sync() {
    let mut d = FileDisk::zeroed(16);
    let mut cache = BlockCache::new();
    let mut data: Block = [0u8; BLOCK_SIZE];
    data[7] = 42;
    cache.write(&d, 3, &data);
    assert_eq!(cache.read(&d, 3)[7], 42);
    assert_eq!(d.block(3)[7], 0);
    cache.sync(&mut d);
    assert_eq!(d.block(3)[7], 42);
    assert!(cache.contains(3));
    cache.invalidate(3);
    assert!(!cache.contains(3));
}

#[test]
fn superblock_layout_and_round_trip() {
    let sb = Superblock::new(4096);
    assert_eq!(sb.magic, FS_MAGIC);
    assert_eq!(sb.log_start, 2);
    assert_eq!(sb.nlogblocks, 64);
    assert_eq!(sb.inode_bitmap, 66);
    assert_eq!(sb.data_bitmap, 67);
    assert_eq!(sb.inode_start, 68);
    assert_eq!(sb.data_start, 93);
    assert_eq!(sb.ninodes, 200);
    assert_eq!(sb.ndata_blocks(), 4096 - 93);
    assert_eq!(sb.ninode_blocks(), 25);
    assert_eq!(Superblock::from_bytes(&sb.to_bytes()), sb);
}

#[test]
fn inode_bytes_round_trip() {
    let mut d = DiskInode::zeroed();
    d.itype = INODE_FILE;
    d.nlink = 1;
    d.size = 1234;
    d.direct[0] = 93;
    d.direct[11] = 4000;
    let back = DiskInode::from_bytes(&d.to_bytes());
    assert_eq!(back.itype, INODE_FILE);
    assert_eq!(back.nlink, 1);
    assert_eq!(back.size, 1234);
    assert_eq!(back.direct, d.direct);
}

#[test]
fn dirent_bytes_round_trip() {
    let e = DirEntry::new(7, "notes.txt");
    assert_eq!(e.name_str(), "notes.txt");
    let back = DirEntry::from_bytes(&e.to_bytes());
    assert_eq!(back.inum, 7);
    assert_eq!(back.name_str(), "notes.txt");
    assert_eq!(DirEntry::empty().inum, 0);
}

#[test]
fn create_write_read() {
    let mut fs = fresh(1024, JournalType::Redo);
    assert_eq!(create(&mut fs, "test"), Ok(2));
    assert_eq!(write(&mut fs, "test", b"hello"), Ok(5));
    assert_eq!(read(&mut fs, "test").unwrap(), "hello");
    assert_eq!(FileOps::size(&mut fs.cache, &fs.disk, &fs.sb, "test"), Ok(5));
    fs.umount();
}

#[test]
fn multiple_files_keep_their_contents() {
    let mut fs = fresh(2048, JournalType::Redo);
    for i in 0..10 {
        let name = format!("f{}", i);
        let data = format!("data{}", i);
        create(&mut fs, &name).unwrap();
        write(&mut fs, &name, data.as_bytes()).unwrap();
    }
    for i in 0..10 {
        let name = format!("f{}", i);
        assert_eq!(read(&mut fs, &name).unwrap(), format!("data{}", i));
    }
    fs.umount();
}

#[test]
fn delete_and_recreate() {
    let mut fs = fresh(1024, JournalType::Redo);
    create(&mut fs, "tmp").unwrap();
    write(&mut fs, "tmp", b"first").unwrap();
    {
        let mut j = fs.make_journal();
        FileOps::unlink(&mut j, &mut fs.cache, &mut fs.disk, &fs.sb, "tmp").unwrap();
    }
    assert_eq!(read(&mut fs, "tmp"), Err(FsError::NotFound));
    create(&mut fs, "tmp").unwrap();
    write(&mut fs, "tmp", b"second").unwrap();
    assert_eq!(read(&mut fs, "tmp").unwrap(), "second");
    fs.umount();
}

#[test]
fn append_and_rename() {
    let mut fs = fresh(1024, JournalType::Undo);
    create(&mut fs, "a").unwrap();
    write(&mut fs, "a", b"abc").unwrap();
    {
        let mut j = fs.make_journal();
        assert_eq!(FileOps::append(&mut j, &mut fs.cache, &mut fs.disk, &fs.sb, "a", b"def"), Ok(3));
    }
    assert_eq!(read(&mut fs, "a").unwrap(), "abcdef");
    {
        let mut j = fs.make_journal();
        assert_eq!(FileOps::rename(&mut j, &mut fs.cache, &mut fs.disk, &fs.sb, "a", "b"), Ok(()));
    }
    assert_eq!(read(&mut fs, "a"), Err(FsError::NotFound));
    // The file keeps its inode, its content and its single link.
    assert_eq!(read(&mut fs, "b").unwrap(), "abcdef");
    let inum = DirOps::lookup(&mut fs.cache, &fs.disk, &fs.sb, ROOT_INUM, "b").unwrap();
    let di = InodeOps::iget(&mut fs.cache, &fs.disk, &fs.sb, inum);
    assert_eq!(di.nlink, 1);
    assert_eq!(di.itype, INODE_FILE);
    fs.umount();
}

#[test]
fn errors_of_the_file_operations() {
    let mut fs = fresh(1024, JournalType::NoOp);
    assert_eq!(read(&mut fs, "missing"), Err(FsError::NotFound));
    assert_eq!(write(&mut fs, "missing", b"x"), Err(FsError::NotFound));
    create(&mut fs, "dup").unwrap();
    assert_eq!(create(&mut fs, "dup"), Err(FsError::Dir(DirError::AlreadyExists)));
    write(&mut fs, "dup", &[0xff, 0xfe]).unwrap();
    assert_eq!(read(&mut fs, "dup"), Err(FsError::NotUtf8));
    let mut buf = [0u8; 4];
    assert_eq!(FileOps::read(&mut fs.cache, &fs.disk, &fs.sb, "dup", &mut buf), Ok(2));
    assert_eq!(&buf[0..2], &[0xff, 0xfe]);
}

#[test]
fn mount_refuses_an_unformatted_disk() {
    let r = FileSystem::mount(FileDisk::zeroed(200), JournalType::Redo);
    assert_eq!(r.err(), Some(MountError::BadMagic));
}

#[test]
fn listing_the_root_directory() {
    let mut fs = fresh(1024, JournalType::Redo);
    create(&mut fs, "file").unwrap();
    let entries = DirOps::list(&mut fs.cache, &fs.disk, &fs.sb, ROOT_INUM);
    let names: Vec<(String, u32, u16)> = entries;
    assert_eq!(names, vec![
        (".".to_string(), 1, 2),
        ("..".to_string(), 1, 2),
        ("file".to_string(), 2, 1),
    ]);
    assert_eq!(DirOps::lookup(&mut fs.cache, &fs.disk, &fs.sb, ROOT_INUM, "file"), Some(2));
    assert_eq!(DirOps::lookup(&mut fs.cache, &fs.disk, &fs.sb, ROOT_INUM, "nope"), None);
    let d = InodeOps::iget(&mut fs.cache, &fs.disk, &fs.sb, 2);
    assert_eq!(d.itype, INODE_FILE);
    assert_eq!(d.nlink, 1);
}

#[test]
fn redo_recovery_replays_a_committed_transaction() {
    let mut fs = fresh(1024, JournalType::Redo);
    create(&mut fs, "crash_test").unwrap();
    write(&mut fs, "crash_test", b"BEFORE").unwrap();
    fs.umount();
    let mut disk = fs.disk;
    let sb = Superblock::read_from_disk(&disk);
    let data_block = disk_inode(&disk, &sb, 2).direct[0];
    let mut new_data = [0u8; BLOCK_SIZE];
    new_data[0..6].copy_from_slice(b"AFTER1");
    disk.write_block(sb.log_start + 1, &new_data);
    disk.write_block(sb.log_start, &committed_header(&[data_block]));
    // Crash here; the next mount recovers.
    let mut fs = FileSystem::mount(disk, JournalType::Redo).unwrap();
    assert_eq!(read(&mut fs, "crash_test").unwrap(), "AFTER1");
    assert_eq!(fs.disk.block(sb.log_start)[0..8], [0u8; 8]);
    fs.umount();
}

#[test]
fn undo_recovery_restores_the_original_data() {
    let mut fs = fresh(1024, JournalType::Undo);
    create(&mut fs, "undo_test").unwrap();
    write(&mut fs, "undo_test", b"SAFE_DATA").unwrap();
    fs.umount();
    let mut disk = fs.disk;
    let sb = Superblock::read_from_disk(&disk);
    let data_block = disk_inode(&disk, &sb, 2).direct[0];
    let orig = disk.block(data_block);
    disk.write_block(sb.log_start + 1, &orig);
    disk.write_block(sb.log_start, &committed_header(&[data_block]));
    let mut partial = orig;
    partial[0..9].copy_from_slice(b"CORRUPTED");
    disk.write_block(data_block, &partial);
    // Crash here; the next mount undoes the partial write.
    let mut fs = FileSystem::mount(disk, JournalType::Undo).unwrap();
    assert_eq!(read(&mut fs, "undo_test").unwrap(), "SAFE_DATA");
    fs.umount();
}

#[test]
fn uncommitted_redo_log_is_ignored() {
    let mut fs = fresh(512, JournalType::Redo);
    create(&mut fs, "f").unwrap();
    write(&mut fs, "f", b"KEEP").unwrap();
    fs.umount();
    let mut disk = fs.disk;
    let sb = Superblock::read_from_disk(&disk);
    let data_block = disk_inode(&disk, &sb, 2).direct[0];
    let mut new_data = [0u8; BLOCK_SIZE];
    new_data[0..4].copy_from_slice(b"LOST");
    disk.write_block(sb.log_start + 1, &new_data);
    let mut hdr = committed_header(&[data_block]);
    hdr[4..8].copy_from_slice(&0u32.to_le_bytes());
    disk.write_block(sb.log_start, &hdr);
    let mut fs = FileSystem::mount(disk, JournalType::Redo).unwrap();
    assert_eq!(read(&mut fs, "f").unwrap(), "KEEP");
}

#[test]
fn redo_commit_installs_logged_blocks() {
    let disk = FileSystem::format(256);
    let mut disk = disk;
    let sb = Superblock::read_from_disk(&disk);
    let mut cache = BlockCache::new();
    let mut log = RedoLog::new(&sb);
    let mut data = [0u8; BLOCK_SIZE];
    data[0] = 0xAB;
    log.begin_tx();
    log.log_write(150, &data);
    log.commit(&mut disk, &mut cache);
    assert_eq!(disk.block(150)[0], 0xAB);
    assert_eq!(disk.block(sb.log_start + 1)[0], 0xAB);
    assert_eq!(disk.block(sb.log_start)[4..8], [0u8; 4]);
}

#[test]
fn undo_commit_installs_logged_blocks() {
    let mut disk = FileSystem::format(256);
    let sb = Superblock::read_from_disk(&disk);
    let mut cache = BlockCache::new();
    let mut log = UndoLog::new(&sb);
    let mut data = [0u8; BLOCK_SIZE];
    data[1] = 0xCD;
    log.begin_tx();
    log.log_write(151, &data);
    log.commit(&mut disk, &mut cache);
    assert_eq!(disk.block(151)[1], 0xCD);
    assert_eq!(disk.block(sb.log_start)[4..8], [0u8; 4]);
}

#[test]
fn noop_log_logs_nothing() {
    let mut disk = FileSystem::format(256);
    let mut cache = BlockCache::new();
    let mut log = NoOpLog;
    let mut data = [0u8; BLOCK_SIZE];
    data[2] = 9;
    log.begin_tx();
    log.log_write(160, &data);
    log.commit(&mut disk, &mut cache);
    assert_eq!(disk.block(160)[2], 0);
    assert_eq!(disk.block(2)[0..8], [0u8; 8]);
}

#[test]
fn journal_type_names() {
    assert_eq!(JournalType::Redo.name(), "redo");
    assert_eq!(JournalType::Undo.name(), "undo");
    assert_eq!(JournalType::NoOp.name(), "noop");
}

#[test]
fn read_gives_back_a_write_across_blocks() {
    let mut fs = fresh(1024, JournalType::Redo);
    create(&mut fs, "big").unwrap();
    let data: Vec<u8> = (0..1300u32).map(|i| (i % 251) as u8).collect();
    assert_eq!(write(&mut fs, "big", &data), Ok(1300));
    let mut buf = [7u8; 700];
    assert_eq!(FileOps::read(&mut fs.cache, &fs.disk, &fs.sb, "big", &mut buf), Ok(700));
    assert_eq!(&buf[..], &data[..700]);
    let mut whole = vec![0u8; 2000];
    assert_eq!(FileOps::read(&mut fs.cache, &fs.disk, &fs.sb, "big", &mut whole), Ok(1300));
    assert_eq!(&whole[..1300], &data[..]);
    assert!(whole[1300..].iter().all(|b| *b == 0));
    // A shorter write at the start keeps the bytes after it.
    assert_eq!(write(&mut fs, "big", b"xyz"), Ok(3));
    assert_eq!(FileOps::read(&mut fs.cache, &fs.disk, &fs.sb, "big", &mut whole), Ok(1300));
    assert_eq!(&whole[..3], b"xyz");
    assert_eq!(&whole[3..1300], &data[3..]);
    fs.umount();
}

#[test]
fn write_stops_at_the_end_of_the_direct_blocks() {
    let mut fs = fresh(1024, JournalType::NoOp);
    create(&mut fs, "full").unwrap();
    let data = vec![1u8; 7000];
    assert_eq!(write(&mut fs, "full", &data), Ok(6144));
    assert_eq!(FileOps::size(&mut fs.cache, &fs.disk, &fs.sb, "full"), Ok(6144));
}

#[test]
fn error_messages_name_the_operation_and_file() {
    assert_eq!(DirError::AlreadyExists.message("link", "a"), "link: a already exists");
    assert_eq!(DirError::NotADirectory.message("unlink", "a"), "unlink: not a directory");
    assert_eq!(DirError::NoFreeBlocks.message("link", "a"), "link: no free blocks");
    assert_eq!(DirError::DirectoryFull.message("link", "a"), "link: directory full");
    assert_eq!(DirError::NotFound.message("unlink", "b"), "unlink: b not found");
    assert_eq!(FsError::NotFound.message("read", "x"), "read: x not found");
    assert_eq!(FsError::NoFreeInodes.message("create", "x"), "create: no free inodes");
    assert_eq!(FsError::Dir(DirError::DirectoryFull).message("link", "x"), "link: directory full");
}

#[test]
fn a_formatted_image_keeps_an_empty_log_and_mounts_unchanged() {
    let disk = FileSystem::format(1024);
    let before = disk.blocks.clone();
    let fs = FileSystem::mount(disk, JournalType::Redo).unwrap();
    assert!(fs.disk.blocks == before);
    assert!(fs.disk.blocks[2].iter().all(|b| *b == 0));
    let root = fs.disk.blocks[fs.sb.data_start as usize];
    assert_eq!(root[0], 1);
    assert_eq!(root[4], b'.');
    assert_eq!(root[32], 1);
    assert_eq!(&root[36..38], b"..");
    assert_eq!(fs.disk.blocks[fs.sb.inode_bitmap as usize][0] & 1, 1);
    assert_eq!(fs.disk.blocks[fs.sb.data_bitmap as usize][0] & 1, 1);
}

#[test]
fn entries_names_and_inodes_round_trip() {
    let e = DirEntry::new(7, "notes.txt");
    assert_eq!(e.name_str(), "notes.txt");
    let b = e.to_bytes();
    let back = DirEntry::from_bytes(&b);
    assert_eq!(back.to_bytes(), b);
    assert_eq!(back.inum, 7);
    assert_eq!(DiskInode::zeroed().to_bytes(), [0u8; INODE_SIZE]);
    let mut d = DiskInode::zeroed();
    d.itype = INODE_FILE;
    d.size = 99;
    d.direct[11] = 0xffff_ffff;
    assert_eq!(&d.to_bytes()[56..64], &[0u8; 8]);
}

#[test]
fn recovering_twice_changes_nothing_more() {
    let disk = FileSystem::format(1024);
    let fs = FileSystem::mount(disk, JournalType::Redo).unwrap();
    let once = fs.disk.blocks.clone();
    let fs2 = FileSystem::mount(fs.disk, JournalType::Redo).unwrap();
    assert!(fs2.disk.blocks == once);
}

#[test]
fn shell_lines_split_at_the_first_two_spaces() {
    let line = "write notes hello big world";
    let s = split_command(line.as_bytes());
    assert_eq!(&line[..s.cmd_end], "write");
    assert_eq!(&line[s.arg1_start..s.arg1_end], "notes");
    assert_eq!(&line[s.arg2_start..], "hello big world");
    let one = "ls";
    let s = split_command(one.as_bytes());
    assert_eq!(&one[..s.cmd_end], "ls");
    assert_eq!(&one[s.arg1_start..s.arg1_end], "");
    assert_eq!(&one[s.arg2_start..], "");
    let two = "read a";
    let s = split_command(two.as_bytes());
    assert_eq!(&two[s.arg1_start..s.arg1_end], "a");
    assert_eq!(&two[s.arg2_start..], "");
}

#[test]
fn the_checks_accept_a_fresh_image_and_refuse_a_broken_one() {
    let mut fs = fresh(1024, JournalType::Redo);
    assert!(FileOps::check_root(&mut fs.cache, &fs.disk, &fs.sb));
    assert!(FileOps::check_file_blocks(&mut fs.cache, &fs.disk, &fs.sb, "none"));
    create(&mut fs, "f").unwrap();
    write(&mut fs, "f", b"data").unwrap();
    assert!(FileOps::check_root(&mut fs.cache, &fs.disk, &fs.sb));
    assert!(FileOps::check_file_blocks(&mut fs.cache, &fs.disk, &fs.sb, "f"));
    let mut sb = fs.sb;
    sb.data_start = sb.nblocks + 1;
    assert!(!FileOps::check_root(&mut fs.cache, &fs.disk, &sb));
    // A file whose block is the root directory's own block is refused.
    let inum = DirOps::lookup(&mut fs.cache, &fs.disk, &fs.sb, ROOT_INUM, "f").unwrap();
    let mut di = InodeOps::iget(&mut fs.cache, &fs.disk, &fs.sb, inum);
    di.direct[1] = fs.sb.data_start;
    InodeOps::iupdate(&mut fs.cache, &fs.disk, &fs.sb, inum, &di);
    assert!(!FileOps::check_file_blocks(&mut fs.cache, &fs.disk, &fs.sb, "f"));
}
