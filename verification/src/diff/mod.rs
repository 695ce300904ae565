//! Prose-aware diffing, in three levels.
//!
//! 1. **Line diff**: which lines differ (`changes`, `ranges`).
//! 2. **Paragraph grouping**: changed lines are grown to block boundaries and
//!    merged (`blocks`, `hunks`). Headings, list items and fenced blocks are
//!    their own units.
//! 3. **Word-level highlights** inside rewritten lines (`rows`, `words`).
//!
//! On top of that stand hunk-level accept and reject (`apply`), the three-way
//! merge (`merge`), and unified diffs as text (`unified`, `patch`), which apply
//! as they were written (`replay`).

pub mod apply;
pub mod blocks;
pub mod changes;
pub mod hunks;
pub mod merge;
pub mod patch;
pub mod ranges;
pub mod replay;
pub mod rows;
pub mod unified;
pub mod words;

pub use crate::diff::apply::apply_hunks;
pub use crate::diff::hunks::{diff_lines, diff_text, diff_text_with, Diff, Hunk, Options};
pub use crate::diff::merge::merge3;
pub use crate::diff::ranges::{change_ranges, Range};
pub use crate::diff::rows::{Row, RowKind};
pub use crate::diff::unified::unified;
pub use crate::diff::words::{word_spans, Span};
