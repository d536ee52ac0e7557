//! The logic of a file system that presents a Git repository over NFS: packs and their
//! indexes, trees, the virtual directory tree, staged edits, the write-ahead log and the
//! commits built from them.

pub mod bytes;
pub mod cache;
pub mod git;
pub mod maps;
pub mod mount;
pub mod nfs;
pub mod session;
pub mod setup_laws;
pub mod sorting;
pub mod staging;
pub mod text;
pub mod text_laws;
pub mod vfs;
pub mod wal;
