//! Git's formats and objects.

pub mod bucket_laws;
pub mod builder;
pub mod builder_laws;
pub mod commit_message;
pub mod delta_laws;
pub mod edit_laws;
pub mod engine;
pub mod engine_laws;
pub mod format_laws;
pub mod gcs_storage;
pub mod hash;
pub mod idx;
pub mod load_laws;
pub mod message_laws;
pub mod pack;
pub mod pack_laws;
pub mod pack_writer;
pub mod packet_laws;
pub mod protocol;
pub mod read_laws;
pub mod ref_laws;
pub mod smart_http;
pub mod startup;
pub mod tree;
pub mod tree_laws;
pub mod unpack_laws;

pub use engine::GitEngine;
pub use gcs_storage::GcsGitStorage;
