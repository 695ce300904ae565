//! Roots, artifact typing, and path sandboxing.
//!
//! The corpus is the union of registered roots. Nothing outside a root is ever
//! read, written, watched, or snapshotted: that boundary is enforced here, in
//! the core, so no shell can talk its way around it.

pub mod glob;
pub mod roots;
pub mod sandbox;
pub mod types;
pub mod typing;

pub use crate::corpus::roots::{
    add_root, get_root, list_path_policies, list_roots, policy_for, remove_path_policy, remove_root,
    resolve, set_path_policy, set_root_policy,
};
pub use crate::corpus::sandbox::{read_text, relative_to_root, resolve_within};
pub use crate::corpus::types::{
    ArtifactType, PathPolicy, Policy, Resolved, Root, RootKind,
};
pub use crate::corpus::typing::{
    detect_type, has_skill_sibling_dirs, has_slots, is_markdown_path, is_task_line, slot_names,
};
pub use crate::util::fold;
pub use crate::fence::outside_code_fences;
pub use crate::version::history::count_docs;
