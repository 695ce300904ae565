//! The single entry point every shell goes through.
//!
//! The UI, the local socket and the MCP bridge all use the same operation
//! names and the same shapes. That is what keeps the MCP surface honest: it
//! cannot drift from the UI, because there is only one implementation
//! underneath both.

pub mod dispatch;
pub mod docs;
pub mod edit;
pub mod index;
pub mod notices;
pub mod params;
pub mod request;
pub mod tasks;
pub mod today;
pub mod turn;
pub mod turns;
pub mod views;

pub use dispatch::dispatch;
pub use docs::DocSummary;
pub use params::Params;
pub use request::{Caller, Request};
