//! Anchored comments: highlight a region, leave a note, and the note becomes a
//! first-class work item for every connected agent.
//!
//! **Files stay pure.** A comment never lives inside the markdown. It is
//! anchored *textually*, by the selected text plus a couple of lines of
//! context on each side, and re-resolved against the current content every
//! time it is rendered:
//!
//! * the anchored text still exists verbatim: the comment pins to it wherever
//!   it moved, so a rewritten paragraph above it does not orphan it;
//! * the text changed: the comment is marked **outdated** and shown in the
//!   drawer, never silently dropped;
//! * the file was deleted: the comment is **orphaned** but retained.

pub mod anchor;
pub mod threads;
pub mod types;

pub use anchor::{anchor_from_selection, anchor_hash, locate, AnchorPosition};
pub use threads::{
    create, create_with_anchor, delete, get, link_proposal, list, open_counts, reopen_thread, reply,
    resolve_thread, ListFilter,
};
pub use types::{Comment, CommentModel, Reply, ReplyModel, Status, AUTHOR_YOU};
