//! Line-oriented differences between two texts, rendered as unified-diff hunks.
//!
//! A text is cut into line units, the two sequences of units are aligned by an
//! edit script, the changed stretches of the script are grouped with their
//! surrounding context into hunks, and the hunks are printed.  Every step has
//! a mathematical description (a `spec fn`) and an executable function that is
//! proved to compute it.
//!
//! - `lines`: line units of a text.
//! - `script`: edit operations and what makes them an edit script.
//! - `matcher`: the alignment of two sequences of lines.
//! - `rows`: an edit script written out row by row.
//! - `hunks`: hunks and the hunk builder, with `spans` and `progress` for
//!   its proof and `hunk_laws` and `mirror` for what holds of all hunks.
//! - `render`: the text of hunks.
//! - `unified`: from two texts to the text of their diff.

pub mod lines;
pub mod script;
pub mod matcher;
pub mod rows;
pub mod hunks;
pub mod spans;
pub mod progress;
pub mod hunk_laws;
pub mod mirror;
pub mod render;
pub mod unified;

pub use unified::{compute_unified_diff, diff};
