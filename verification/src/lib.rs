//! The core of a local document workshop: text, diffs, patches, artifacts,
//! comments, proposals and history, stated as contracts and proved.

pub mod api;
pub mod artifact;
pub mod comment;
pub mod config;
pub mod corpus;
pub mod diff;
pub mod disk;
pub mod error;
pub mod event;
pub mod fence;
pub mod instrumentation;
pub mod ipc;
pub mod json;
pub mod mcp;
pub mod order;
pub mod proposal;
pub mod search;
pub mod store;
pub mod table;
pub mod text;
pub mod util;
pub mod version;
pub mod watch;
pub mod words;

use vstd::prelude::*;

pub use config::Config;
pub use error::{Error, Result};

verus! {

/// The version of the core.
pub const VERSION: &'static str = "0.1.0";

} // verus!
