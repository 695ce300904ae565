//! The surface for agents.
//!
//! The tool surface is the product's API; the UI is one client among two.
//! Every tool here is a thin name-and-schema over an operation of
//! [`crate::api`], which is what stops the agent-facing surface from ever
//! drifting away from what the app itself does.

pub mod calls;
pub mod schema;
pub mod tools;
pub mod wording;

pub use calls::{find_tool, tool_caller};
pub use schema::ToolDef;
pub use tools::tools;
pub use wording::INSTRUCTIONS;
