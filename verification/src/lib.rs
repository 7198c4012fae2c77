//! A small replicated key-value store: wire codecs, command dispatch,
//! sharded backup image and replication log, with machine-checked contracts.

pub mod app;
pub mod backup_image;
pub mod backup_keys;
pub mod bytes;
pub mod changeset;
pub mod client;
pub mod event_log;
pub mod file_backup;
pub mod frame_reader;
pub mod interpreter;
pub mod registry_check;
pub mod replicator;
pub mod response_frame;
pub mod shard_registry;
pub mod storage;
