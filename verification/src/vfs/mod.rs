//! The virtual directory tree.

pub mod filter;
pub mod inode;
pub mod laws;
pub mod outcome_laws;
