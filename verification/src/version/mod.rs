//! Snapshots, timelines, restore, and patch-series export.
//!
//! Files on disk stay canonical, plain, portable markdown. Everything here is
//! the private history beside them: git plumbing in spirit, entirely internal
//! in fact. No `.git` directory is ever written into a user's folder.

pub mod export;
pub mod history;
pub mod record;
pub mod restore;
pub mod types;

pub use export::export_history;
pub use history::{
    content, content_by_id, get, latest, list_versions, resolve_ref, since, tracked_paths,
    version_count,
};
pub use record::{record, RecordOutcome, RecordRequest};
pub use restore::{record_from_disk, restore, write_and_record};
pub use types::{Snapshot, SnapshotModel, Source, AUTHOR_EXTERNAL, AUTHOR_YOU};
