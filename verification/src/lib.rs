//! An in-process FAT12/FAT16/FAT32 filesystem core over an in-memory volume
//! image. The library mounts a volume, walks and mutates the directory tree,
//! reads and writes files, and keeps the File Allocation Table consistent
//! with the cluster chains and directory entries it manages.

pub mod codec;
pub mod dir;
pub mod dir_entry;
pub mod error;
pub mod file;
pub mod fs;
pub mod table;

pub use dir::{Dir, DirIter, DirRawStream, DiskSlice};
pub use dir_entry::{Date, DateTime, DirEntry, DirEntryEditor, FileAttributes, ShortName, Time};
pub use error::Error;
pub use file::File;
pub use fs::{FatType, FileSystem, FsStatusFlags, Geometry, Layout, SeekFrom};
pub use table::{ClusterIterator, FatValue};
