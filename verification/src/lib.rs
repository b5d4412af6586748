//! Character- and line-level authorship tracking for a version-control
//! wrapper: checkpoints of file edits are folded into per-commit
//! attestations that say, for every touched line, whether a human or a
//! named AI session wrote it.
//!
//! Text is handled as sequences of characters (`Vec<char>` in executable
//! code, `Seq<char>` in specifications); attribution intervals are
//! half-open character ranges.

pub mod attribution;
pub mod authorship_log;
pub mod checkpoint;
pub mod cli;
pub mod codec;
pub mod commit;
pub mod diff;
pub mod error;
pub mod lines;
pub mod rewrite;
pub mod stats;
pub mod text;
pub mod virtual_attribution;
pub mod working_log;
