use oligoscreen::ambiguity::{base_mask, mask_code, try_merge};
use oligoscreen::analyzer::{
    analyze_sequences, group_sequences, incremental_merge, merge_groups, same_bytes, sort_variants,
    variants_for_threshold,
};
use oligoscreen::types::{AnalysisMethod, Variant};

fn seqs(v: &[&str]) -> Vec<Vec<u8>> {
    v.iter().map(|s| s.as_bytes().to_vec()).collect()
}

fn var(s: &str, count: usize) -> Variant {
    Variant { sequence: s.as_bytes().to_vec(), count }
}

fn shape(vs: &[Variant]) -> Vec<(String, usize)> {
    vs.iter().map(|v| (String::from_utf8(v.sequence.clone()).unwrap(), v.count)).collect()
}

#[test]
fn grouping_keeps_first_appearance_order() {
    let g = group_sequences(&seqs(&["AC", "GT", "AC", "TT", "GT", "AC"]));
    assert_eq!(shape(&g), vec![("AC".into(), 3), ("GT".into(), 2), ("TT".into(), 1)]);
}

#[test]
fn sorting_is_by_descending_count_and_stable() {
    let s = sort_variants(vec![var("A", 1), var("C", 3), var("G", 1), var("T", 3)]);
    assert_eq!(
        shape(&s),
        vec![("C".into(), 3), ("T".into(), 3), ("A".into(), 1), ("G".into(), 1)]
    );
}

#[test]
fn no_ambiguities_groups_exact_sequences() {
    let r = analyze_sequences(&seqs(&["ACGT", "ACGA", "ACGT", "ACGT"]), &AnalysisMethod::NoAmbiguities, false, 9500);
    assert_eq!(shape(&r.variants), vec![("ACGT".into(), 3), ("ACGA".into(), 1)]);
    assert_eq!(r.total_sequences, 4);
    assert_eq!(r.sequences_analyzed, 4);
    assert_eq!(r.no_match_count, 0);
    assert!(!r.skipped);
    assert_eq!(r.variants_for_threshold, 2);
    assert_eq!(r.covered_at_threshold, 4);
}

#[test]
fn threshold_reached_by_first_variant() {
    let r = analyze_sequences(&seqs(&["ACGT", "ACGA", "ACGT", "ACGT"]), &AnalysisMethod::NoAmbiguities, false, 7500);
    assert_eq!(r.variants_for_threshold, 1);
    assert_eq!(r.covered_at_threshold, 3);
}

#[test]
fn threshold_index_is_smallest_reaching_prefix() {
    let vs = vec![var("A", 5), var("C", 3), var("G", 2)];
    // 50% of 10: the first variant alone
    assert_eq!(variants_for_threshold(&vs, 10, 5000), (1, 5));
    // 80%: two variants
    assert_eq!(variants_for_threshold(&vs, 10, 8000), (2, 8));
    // 81%: all three
    assert_eq!(variants_for_threshold(&vs, 10, 8100), (3, 10));
    // rescaled against 20 references: 100% is never reached, the whole list is needed
    assert_eq!(variants_for_threshold(&vs, 20, 10000), (3, 10));
    // a threshold of zero is met by the empty prefix
    assert_eq!(variants_for_threshold(&vs, 10, 0), (0, 0));
    assert_eq!(variants_for_threshold(&Vec::new(), 10, 9500), (0, 0));
}

#[test]
fn rerunning_on_minimal_variants_is_identical() {
    let first = analyze_sequences(&seqs(&["GG", "AC", "AC", "TT", "AC", "GG"]), &AnalysisMethod::NoAmbiguities, false, 9000);
    let mut expanded: Vec<Vec<u8>> = Vec::new();
    for v in &first.variants {
        for _ in 0..v.count {
            expanded.push(v.sequence.clone());
        }
    }
    let second = analyze_sequences(&expanded, &AnalysisMethod::NoAmbiguities, false, 9000);
    assert_eq!(shape(&first.variants), shape(&second.variants));
    assert_eq!(first.variants_for_threshold, second.variants_for_threshold);
    assert_eq!(first.covered_at_threshold, second.covered_at_threshold);
}

#[test]
fn fixed_ambiguities_merge_into_codes() {
    let r = analyze_sequences(
        &seqs(&["ACGT", "ACGT", "ACGA", "TCGT"]),
        &AnalysisMethod::FixedAmbiguities(1),
        false,
        9500,
    );
    // ACGA widens ACGT to ACGW; TCGT would need a second ambiguous position
    assert_eq!(shape(&r.variants), vec![("ACGW".into(), 3), ("TCGT".into(), 1)]);
    let sum: usize = r.variants.iter().map(|v| v.count).sum();
    assert_eq!(sum, 4);
}

#[test]
fn fixed_ambiguities_with_two_codes_merge_all() {
    let r = analyze_sequences(
        &seqs(&["ACGT", "ACGT", "ACGA", "TCGT"]),
        &AnalysisMethod::FixedAmbiguities(2),
        false,
        9500,
    );
    assert_eq!(shape(&r.variants), vec![("WCGW".into(), 4)]);
    assert_eq!(r.variants_for_threshold, 1);
}

#[test]
fn exclude_n_keeps_full_ambiguity_apart() {
    let groups = vec![var("R", 2), var("Y", 1)];
    let with_n = merge_groups(&groups, Some(1), false);
    assert_eq!(shape(&with_n), vec![("N".into(), 3)]);
    let without_n = merge_groups(&groups, Some(1), true);
    assert_eq!(shape(&without_n), vec![("R".into(), 2), ("Y".into(), 1)]);
}

#[test]
fn different_lengths_never_merge() {
    let merged = merge_groups(&vec![var("ACG", 2), var("ACGT", 1)], Some(4), false);
    assert_eq!(shape(&merged), vec![("ACG".into(), 2), ("ACGT".into(), 1)]);
}

#[test]
fn incremental_stops_growing_at_target() {
    // 50% of 6: the seed ACGT (3) is already enough, and so on for each round
    let groups = vec![var("ACGT", 3), var("ACGA", 2), var("ACGC", 1)];
    let r = incremental_merge(&groups, 50, None, false);
    assert_eq!(shape(&r), vec![("ACGT".into(), 3), ("ACGA".into(), 2), ("ACGC".into(), 1)]);
}

#[test]
fn incremental_grows_until_target() {
    let groups = vec![var("ACGT", 3), var("ACGA", 2), var("ACGC", 1)];
    let r = incremental_merge(&groups, 80, None, false);
    // 3 of 6 is short of 80%, ACGA joins (5 of 6), then the goal is met
    assert_eq!(shape(&r), vec![("ACGW".into(), 5), ("ACGC".into(), 1)]);
    let r = analyze_sequences(
        &seqs(&["ACGT", "ACGT", "ACGT", "ACGA", "ACGA", "ACGC"]),
        &AnalysisMethod::Incremental(80, None),
        false,
        9500,
    );
    assert_eq!(shape(&r.variants), vec![("ACGW".into(), 5), ("ACGC".into(), 1)]);
}

#[test]
fn incremental_respects_ambiguity_cap() {
    let groups = vec![var("ACGT", 3), var("TCGA", 2), var("ACGC", 1)];
    let r = incremental_merge(&groups, 100, Some(1), false);
    // TCGA would need two codes; ACGC needs one
    assert_eq!(shape(&r), vec![("ACGY".into(), 4), ("TCGA".into(), 2)]);
}

#[test]
fn masks_and_codes() {
    assert_eq!(base_mask(b'A'), 1);
    assert_eq!(base_mask(b'c'), 2);
    assert_eq!(base_mask(b'G'), 4);
    assert_eq!(base_mask(b'U'), 8);
    assert_eq!(base_mask(b'N'), 15);
    assert_eq!(base_mask(b'-'), 0);
    assert_eq!(mask_code(1 | 4), b'R');
    assert_eq!(mask_code(2 | 8), b'Y');
    assert_eq!(mask_code(15), b'N');
    assert_eq!(mask_code(0), b'-');
}

#[test]
fn merge_rules() {
    assert_eq!(try_merge(&b"ACGT".to_vec(), &b"ACGA".to_vec(), Some(1), false), Some(b"ACGW".to_vec()));
    assert_eq!(try_merge(&b"ACGT".to_vec(), &b"TCGA".to_vec(), Some(1), false), None);
    assert_eq!(try_merge(&b"ACGT".to_vec(), &b"TCGA".to_vec(), None, false), Some(b"WCGW".to_vec()));
    assert_eq!(try_merge(&b"AC-T".to_vec(), &b"ACGT".to_vec(), None, false), None);
    assert_eq!(try_merge(&b"AC".to_vec(), &b"ACG".to_vec(), None, false), None);
    assert!(same_bytes(&b"AC".to_vec(), &b"AC".to_vec()));
    assert!(!same_bytes(&b"AC".to_vec(), &b"AG".to_vec()));
}

#[test]
fn rerunning_fixed_ambiguities_on_minimal_result_is_identical() {
    let method = AnalysisMethod::FixedAmbiguities(1);
    let first = analyze_sequences(&seqs(&["ACGT", "ACGT", "ACGA", "TCGT", "GGGG"]), &method, false, 9500);
    assert_eq!(shape(&first.variants), vec![("ACGW".into(), 3), ("TCGT".into(), 1), ("GGGG".into(), 1)]);
    let mut expanded: Vec<Vec<u8>> = Vec::new();
    for v in &first.variants {
        for _ in 0..v.count {
            expanded.push(v.sequence.clone());
        }
    }
    let second = analyze_sequences(&expanded, &method, false, 9500);
    assert_eq!(shape(&first.variants), shape(&second.variants));
    assert_eq!(first.variants_for_threshold, second.variants_for_threshold);
}

#[test]
fn variant_counts_add_up_for_every_method() {
    let input = seqs(&["ACGT", "ACGA", "TCGT", "ACGT", "GGGG", "ACGC"]);
    for method in [
        AnalysisMethod::NoAmbiguities,
        AnalysisMethod::FixedAmbiguities(1),
        AnalysisMethod::FixedAmbiguities(3),
        AnalysisMethod::Incremental(50, None),
        AnalysisMethod::Incremental(90, Some(1)),
    ] {
        let r = analyze_sequences(&input, &method, true, 9500);
        let sum: usize = r.variants.iter().map(|v| v.count).sum();
        assert_eq!(sum + r.no_match_count, r.total_sequences);
        assert!(r.variants.windows(2).all(|w| w[0].count >= w[1].count));
    }
}
