//! Shared data types of a screening run.

use std::collections::BTreeMap;
use vstd::prelude::*;

verus! {

/// How matched window sequences are clustered into variants.
#[derive(Clone, Copy, Debug, PartialEq, Eq, Structural)]
pub enum AnalysisMethod {
    /// Every distinct sequence is its own variant.
    NoAmbiguities,
    /// Sequences may merge into a variant holding at most this many ambiguity codes.
    FixedAmbiguities(u32),
    /// Variants are grown to cover this percentage of the remaining sequences,
    /// optionally with a cap on ambiguity codes.
    Incremental(u32, Option<u32>),
}

impl AnalysisMethod {
    /// The ambiguity budget of a fixed-ambiguity method, 1 for the other methods.
    pub fn get_fixed_ambiguities(&self) -> (r: u32)
        ensures
            r == match *self {
                AnalysisMethod::FixedAmbiguities(n) => n,
                _ => 1u32,
            },
    {
        match self {
            AnalysisMethod::FixedAmbiguities(n) => *n,
            _ => 1,
        }
    }

    /// The target percentage of an incremental method, 50 for the other methods.
    pub fn get_incremental_pct(&self) -> (r: u32)
        ensures
            r == match *self {
                AnalysisMethod::Incremental(pct, _) => pct,
                _ => 50u32,
            },
    {
        match self {
            AnalysisMethod::Incremental(pct, _) => *pct,
            _ => 50,
        }
    }

    /// The ambiguity cap of an incremental method, none for the other methods.
    pub fn get_incremental_max_amb(&self) -> (r: Option<u32>)
        ensures
            r == match *self {
                AnalysisMethod::Incremental(_, m) => m,
                _ => None::<u32>,
            },
    {
        match self {
            AnalysisMethod::Incremental(_, max_amb) => *max_amb,
            _ => None,
        }
    }
}

/// Scoring scheme and acceptance limit of the pairwise matcher.
#[derive(Clone, Copy, Debug, PartialEq, Eq, Structural)]
pub struct PairwiseParams {
    pub match_score: i32,
    pub mismatch_score: i32,
    /// Added once for every gap, on top of the extension cost of its first position.
    pub gap_open_penalty: i32,
    /// Added for every position of a gap.
    pub gap_extend_penalty: i32,
    /// A candidate whose best alignment has more mismatches than this is a no-match.
    pub max_mismatches: u32,
}

impl Default for PairwiseParams {
    fn default() -> (r: PairwiseParams)
        ensures
            r.match_score == 2,
            r.mismatch_score == -3,
            r.gap_open_penalty == -5,
            r.gap_extend_penalty == -2,
            r.max_mismatches == 3,
    {
        PairwiseParams {
            match_score: 2,
            mismatch_score: -3,
            gap_open_penalty: -5,
            gap_extend_penalty: -2,
            max_mismatches: 3,
        }
    }
}

/// Size of the worker pool.
#[derive(Clone, Copy, Debug, PartialEq, Eq, Structural)]
pub enum ThreadCount {
    /// As many workers as the hardware offers.
    Auto,
    /// A fixed number of workers.
    Fixed(usize),
}

impl ThreadCount {
    /// The requested number of workers, where 0 stands for "as many as the hardware offers".
    pub fn get_count(&self) -> (r: usize)
        ensures
            r == match *self {
                ThreadCount::Auto => 0usize,
                ThreadCount::Fixed(n) => n,
            },
    {
        match self {
            ThreadCount::Auto => 0,
            ThreadCount::Fixed(n) => *n,
        }
    }
}

/// Parameters of a screening run.
#[derive(Clone, Copy, Debug, PartialEq, Eq, Structural)]
pub struct AnalysisParams {
    pub method: AnalysisMethod,
    pub min_oligo_length: u32,
    pub max_oligo_length: u32,
    /// Distance between two consecutive window positions.
    pub resolution: u32,
    /// Target coverage, in hundredths of a percent (9500 stands for 95%).
    pub coverage_threshold: u32,
    /// Never widen a variant position to the code that stands for any base.
    pub exclude_n: bool,
    pub pairwise: PairwiseParams,
    pub thread_count: ThreadCount,
}

impl Default for AnalysisParams {
    fn default() -> (r: AnalysisParams)
        ensures
            r.method == AnalysisMethod::NoAmbiguities,
            r.min_oligo_length == 18,
            r.max_oligo_length == 25,
            r.resolution == 1,
            r.coverage_threshold == 9500,
            !r.exclude_n,
            r.pairwise.match_score == 2,
            r.pairwise.mismatch_score == -3,
            r.pairwise.gap_open_penalty == -5,
            r.pairwise.gap_extend_penalty == -2,
            r.pairwise.max_mismatches == 3,
            r.thread_count == ThreadCount::Auto,
    {
        AnalysisParams {
            method: AnalysisMethod::NoAmbiguities,
            min_oligo_length: 18,
            max_oligo_length: 25,
            resolution: 1,
            coverage_threshold: 9500,
            exclude_n: false,
            pairwise: PairwiseParams::default(),
            thread_count: ThreadCount::Auto,
        }
    }
}

/// The template: the sequence all oligo windows are taken from.
#[derive(Clone, Debug)]
pub struct TemplateData {
    pub name: String,
    pub sequence: String,
}

/// Named sequences, `names[i]` belonging to `sequences[i]`.
#[derive(Clone, Debug)]
pub struct ReferenceData {
    pub names: Vec<String>,
    pub sequences: Vec<String>,
}

impl ReferenceData {
    /// An empty set.
    pub fn new() -> (r: ReferenceData)
        ensures
            r.names@.len() == 0,
            r.sequences@.len() == 0,
    {
        ReferenceData { names: Vec::new(), sequences: Vec::new() }
    }

    /// Adds the sequences of `other` after those of `self`.
    pub fn append(&mut self, other: ReferenceData)
        ensures
            final(self).names@ == old(self).names@ + other.names@,
            final(self).sequences@ == old(self).sequences@ + other.sequences@,
    {
        let mut other = other;
        self.names.append(&mut other.names);
        self.sequences.append(&mut other.sequences);
    }

    /// Number of sequences.
    pub fn len(&self) -> (r: usize)
        ensures
            r == self.sequences@.len(),
    {
        self.sequences.len()
    }
}

/// A distinct (possibly ambiguity-coded) window sequence and how many
/// references reduce to it.
#[derive(Clone, Debug)]
pub struct Variant {
    pub sequence: Vec<u8>,
    pub count: usize,
}

/// What one window yields against the reference set.
#[derive(Clone, Debug)]
pub struct WindowAnalysisResult {
    /// All references, matched or not.
    pub total_sequences: usize,
    /// References whose alignment was accepted.
    pub sequences_analyzed: usize,
    /// References whose alignment was rejected.
    pub no_match_count: usize,
    pub skipped: bool,
    pub skip_reason: Option<String>,
    /// Variants by descending count.
    pub variants: Vec<Variant>,
    /// Length of the shortest prefix of `variants` reaching the coverage threshold,
    /// or the whole list when it is not reached.
    pub variants_for_threshold: usize,
    /// Number of references covered by that prefix.
    pub covered_at_threshold: usize,
}

/// One histogram bucket: the off-target sequences whose best alignment had
/// `mismatches` mismatches (`u32::MAX` stands for no match).
#[derive(Clone, Debug)]
pub struct MismatchBucket {
    pub mismatches: u32,
    pub count: usize,
    /// The first sequence that fell in this bucket.
    pub example_name: String,
}

/// What one window yields against the off-target set.
#[derive(Clone, Debug)]
pub struct ExclusivityResult {
    pub total_sequences: usize,
    pub no_match_count: usize,
    /// Buckets by ascending mismatch count, the no-match bucket last.
    pub mismatch_histogram: Vec<MismatchBucket>,
    pub min_mismatches: Option<u32>,
}

/// Result of one window position.
#[derive(Clone, Debug)]
pub struct PositionResult {
    pub position: usize,
    pub variants_needed: usize,
    pub analysis: WindowAnalysisResult,
    pub exclusivity: Option<ExclusivityResult>,
}

/// Results of every position of one oligo length, by position.
#[derive(Clone, Debug)]
pub struct LengthResult {
    pub oligo_length: u32,
    pub positions: Vec<PositionResult>,
}

/// Results of a whole run.
#[derive(Clone, Debug)]
pub struct ScreeningResults {
    pub params: AnalysisParams,
    pub template_length: usize,
    pub total_sequences: usize,
    pub template_sequence: String,
    pub differential_enabled: bool,
    pub exclusivity_sequence_count: Option<usize>,
    pub results_by_length: BTreeMap<u32, LengthResult>,
}

} // verus!
