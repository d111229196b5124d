//! A small journaling file system over a block device: superblock layout,
//! block cache, bitmaps, inodes, a flat root directory and redo/undo logs.

pub mod codec;
pub mod disk;
pub mod block_cache;
pub mod superblock;
pub mod bitmap;
pub mod inode;
pub mod dir;
pub mod log;
pub mod file;

pub mod fs;
pub mod shell;
