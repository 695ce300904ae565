//! Proposals: an agent edit arrives as a changeset against a recorded base,
//! waiting for human judgement.
//!
//! ```text
//! agent calls propose_edit
//!         |
//!         v
//!   +-----------+   file changed on disk since base?   +----------+
//!   |  pending  | ------------- yes ----------------->  | conflict |
//!   +-----+-----+                                       +----+-----+
//!         | review: prose diff, hunk-by-hunk                 | rebase onto
//!         v                                                  v current
//!   +-----------+     reject (with optional note)      +----------+
//!   | accepted  | <-- accept: apply to disk + snapshot  | rejected |
//!   +-----------+     note becomes agent feedback       +----------+
//! ```
//!
//! Human edits never become proposals; they save directly with a snapshot.
//! The queue is for agents.

pub mod create;
pub mod decide;
pub mod read;
pub mod types;

pub use create::{create, materialise, Change, CreateRequest, WriteOutcome};
pub use decide::{accept, rebase, reject, Decision};
pub use read::{get, list, pending_counts, proposed_content, review_diff, ListFilter};
pub use types::{Proposal, ProposalModel, Stats, Status};
