//! Screening of a template nucleic-acid sequence for conserved oligos.
//!
//! Every window of the template (for each oligo length and position) is aligned
//! against a set of reference sequences; the matched regions are clustered into
//! variants, and optionally the window is scored against an off-target set.
//!
//! - `window`: which start positions are evaluated for an oligo length.
//! - `pairwise`: the alignment engine and the batch matcher built on it.
//! - `ambiguity`: base sets and their ambiguity codes.
//! - `analyzer`: variant consensus and the coverage threshold.
//! - `exclusivity`: the mismatch histogram against the off-target set.
//! - `screener`: one window, one length, and the whole run.
//! - `fasta`, `display`, `worklist`: reading inputs, showing sequences, and
//!   queueing runs.

pub mod types;
pub mod window;
pub mod display;
pub mod pairwise;
pub mod ambiguity;
pub mod analyzer;
pub mod exclusivity;
pub mod screener;
pub mod fasta;
pub mod worklist;
mod text;
