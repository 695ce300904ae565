//! Artifact intelligence: what a skill, a prompt, and a task list *are*, not
//! just that they are markdown.

pub mod finding;
pub mod frontmatter;
pub mod lint;
pub mod prompt;
pub mod references;
pub mod skill;
pub mod task;
pub mod tree;
pub mod validate;
pub mod yaml;

pub use crate::artifact::finding::{Finding, Severity, Validation};
pub use crate::artifact::validate::validate;
