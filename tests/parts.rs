use oligoscreen::display::{add_codon_spacing, effective_min_mismatches, format_sequence_for_display, reverse_complement};
use oligoscreen::exclusivity::exclusivity_histogram;
use oligoscreen::pairwise::DnaAligner;
use oligoscreen::screener::{analyze_exclusivity, analyze_window};
use oligoscreen::types::{
    AnalysisMethod, AnalysisParams, ExclusivityResult, MismatchBucket, PairwiseParams, ReferenceData, ThreadCount,
};
use oligoscreen::window::positions;

fn bucket(mismatches: u32, count: usize, name: &str) -> MismatchBucket {
    MismatchBucket { mismatches, count, example_name: name.to_string() }
}

#[test]
fn window_positions_follow_the_step() {
    assert_eq!(positions(10, 4, 3), vec![0, 3, 6]);
    assert_eq!(positions(10, 4, 1), vec![0, 1, 2, 3, 4, 5, 6]);
    assert_eq!(positions(31, 10, 1).len(), 22);
    assert_eq!(positions(10, 10, 2), vec![0]);
}

#[test]
fn window_longer_than_template_is_single_position() {
    assert_eq!(positions(5, 10, 1), vec![0]);
    assert_eq!(positions(0, 3, 4), vec![0]);
}

#[test]
fn aligner_finds_exact_region() {
    let mut a = DnaAligner::new(4, &PairwiseParams::default());
    let r = a.align(b"ACGT", b"TTACGTTT");
    assert_eq!((r.score, r.mismatches, r.start, r.end), (8, 0, 2, 6));
}

#[test]
fn aligner_scores_substitution_and_gap() {
    let p = PairwiseParams::default();
    let mut a = DnaAligner::new(8, &p);
    // one substitution: 7 matches and one mismatch
    let r = a.align(b"ACGTACGT", b"GGACGAACGTGG");
    assert_eq!((r.score, r.mismatches, r.start, r.end), (11, 1, 2, 10));
    // one base inserted in the candidate: 8 matches and a gap of one
    let r = a.align(b"AACCGGTT", b"AACCTGGTT");
    assert_eq!((r.score, r.mismatches, r.start, r.end), (16 - 7, 1, 0, 9));
    // the engine is reused: the same pair gives the same answer
    let again = a.align(b"ACGT", b"TTACGTTT");
    assert_eq!((again.score, again.mismatches, again.start, again.end), (8, 0, 2, 6));
}

#[test]
fn batch_matching_reports_regions_and_no_matches() {
    let mut a = DnaAligner::new(4, &PairwiseParams { max_mismatches: 1, ..PairwiseParams::default() });
    let cands = vec![b"GGACGTGG".to_vec(), b"CCCCCCCC".to_vec(), b"ACGA".to_vec()];
    let (matched, no_match) = a.collect_matches(b"ACGT", &cands);
    assert_eq!(matched, vec![b"ACGT".to_vec(), b"ACGA".to_vec()]);
    assert_eq!(no_match, 1);
    let counts = a.collect_mismatch_counts(b"ACGT", &cands);
    assert_eq!(counts, vec![Some(0), None, Some(1)]);
}

#[test]
fn histogram_buckets_ascend_with_first_names() {
    let outs = vec![Some(2), None, Some(0), Some(2), None, Some(1)];
    let names: Vec<String> = ["a", "b", "c", "d", "e", "f"].iter().map(|s| s.to_string()).collect();
    let r = exclusivity_histogram(&outs, &names);
    let got: Vec<(u32, usize, String)> =
        r.mismatch_histogram.iter().map(|b| (b.mismatches, b.count, b.example_name.clone())).collect();
    assert_eq!(
        got,
        vec![
            (0, 1, "c".to_string()),
            (1, 1, "f".to_string()),
            (2, 2, "a".to_string()),
            (u32::MAX, 2, "b".to_string()),
        ]
    );
    assert_eq!(r.total_sequences, 6);
    assert_eq!(r.no_match_count, 2);
    assert_eq!(r.min_mismatches, Some(0));
    let total: usize = r.mismatch_histogram.iter().map(|b| b.count).sum();
    assert_eq!(total, 6);
}

#[test]
fn histogram_of_only_no_matches() {
    let r = exclusivity_histogram(&vec![None, None], &vec!["x".to_string(), "y".to_string()]);
    assert_eq!(r.min_mismatches, None);
    assert_eq!(r.mismatch_histogram.len(), 1);
    assert_eq!(r.mismatch_histogram[0].count, 2);
    assert_eq!(r.mismatch_histogram[0].example_name, "x");
    let empty = exclusivity_histogram(&Vec::new(), &Vec::new());
    assert!(empty.mismatch_histogram.is_empty());
    assert_eq!(empty.total_sequences, 0);
}

#[test]
fn effective_min_skips_closest_sequences() {
    let excl = ExclusivityResult {
        total_sequences: 6,
        no_match_count: 1,
        mismatch_histogram: vec![bucket(0, 2, "a"), bucket(3, 1, "b"), bucket(5, 2, "c"), bucket(u32::MAX, 1, "d")],
        min_mismatches: Some(0),
    };
    assert_eq!(effective_min_mismatches(&excl, 0), Some(0));
    assert_eq!(effective_min_mismatches(&excl, 1), Some(0));
    assert_eq!(effective_min_mismatches(&excl, 2), Some(3));
    assert_eq!(effective_min_mismatches(&excl, 3), Some(5));
    assert_eq!(effective_min_mismatches(&excl, 4), Some(5));
    assert_eq!(effective_min_mismatches(&excl, 5), None);
    assert_eq!(effective_min_mismatches(&excl, 100), None);
}

#[test]
fn reverse_complement_of_codes() {
    assert_eq!(reverse_complement("ACGTN"), "NACGT");
    assert_eq!(reverse_complement("AAGR"), "YCTT");
    assert_eq!(reverse_complement("acg"), "cgt");
    assert_eq!(reverse_complement(""), "");
}

#[test]
fn codon_spacing_groups_by_three() {
    assert_eq!(add_codon_spacing("ATGCCCTAA"), "ATG CCC TAA");
    assert_eq!(add_codon_spacing("ATGCC"), "ATG CC");
    assert_eq!(add_codon_spacing("AT"), "AT");
    assert_eq!(add_codon_spacing(""), "");
}

#[test]
fn display_format_combines_options() {
    assert_eq!(format_sequence_for_display("AACGTT", false, false), "AACGTT");
    assert_eq!(format_sequence_for_display("AACGGT", true, false), "ACCGTT");
    assert_eq!(format_sequence_for_display("AACGGT", true, true), "ACC GTT");
    assert_eq!(format_sequence_for_display("AACGGTA", false, true), "AAC GGT A");
}

#[test]
fn method_parameters() {
    assert_eq!(AnalysisMethod::FixedAmbiguities(4).get_fixed_ambiguities(), 4);
    assert_eq!(AnalysisMethod::NoAmbiguities.get_fixed_ambiguities(), 1);
    assert_eq!(AnalysisMethod::Incremental(70, Some(2)).get_incremental_pct(), 70);
    assert_eq!(AnalysisMethod::FixedAmbiguities(4).get_incremental_pct(), 50);
    assert_eq!(AnalysisMethod::Incremental(70, Some(2)).get_incremental_max_amb(), Some(2));
    assert_eq!(AnalysisMethod::NoAmbiguities.get_incremental_max_amb(), None);
    assert_eq!(ThreadCount::Fixed(3).get_count(), 3);
    assert_eq!(ThreadCount::Auto.get_count(), 0);
    let r = ReferenceData::new();
    assert_eq!(r.len(), 0);
}

#[test]
fn window_and_exclusivity_on_one_position() {
    let params = AnalysisParams { min_oligo_length: 4, max_oligo_length: 4, ..Default::default() };
    let template = b"ACGTACGG".to_vec();
    let refs = vec![b"TTACGTTT".to_vec(), b"ACGA".to_vec()];
    let mut aligner = DnaAligner::new(4, &params.pairwise);
    let w = analyze_window(&template, &refs, &params, 0, 4, &mut aligner);
    assert!(!w.skipped);
    assert_eq!(w.sequences_analyzed, 2);
    assert_eq!(w.variants.len(), 2);
    let skipped = analyze_window(&template, &refs, &params, 6, 4, &mut aligner);
    assert!(skipped.skipped);
    assert_eq!(skipped.no_match_count, 2);
    let e = analyze_exclusivity(&template, &refs, &vec!["p".to_string(), "q".to_string()], 0, 4, &mut aligner);
    assert_eq!(e.min_mismatches, Some(0));
    assert_eq!(e.mismatch_histogram[0].example_name, "p");
    assert_eq!(e.mismatch_histogram[1].mismatches, 1);
}
