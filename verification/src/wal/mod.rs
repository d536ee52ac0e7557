//! The log of edits, and recovery from it.

pub mod backend;
pub mod log_laws;
pub mod manager;
pub mod proto;
pub mod proto_laws;
pub mod recovery;
pub mod steps;

pub use backend::{GcsRapidWalBackend, LocalWalBackend};
pub use manager::WalManager;
pub use proto::{
    CreateFileMutation, InodeType, MkdirMutation, RemoveMutation, RenameMutation,
    TruncateMutation, WalEntry, WalHeader, WalPayload, WriteMutation,
};
pub use recovery::{build_pack_from_recovered_state, replay_wal_entries, RecoveredPackResult};
