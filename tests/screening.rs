use oligoscreen::screener::run_screening;
use oligoscreen::types::{AnalysisMethod, AnalysisParams, ReferenceData, TemplateData};

fn template() -> TemplateData {
    TemplateData {
        name: "Template".to_string(),
        sequence: "TATGGTACGTCATGTTCTAGAAATGGGCTGT".to_string(),
    }
}

fn params_len10() -> AnalysisParams {
    AnalysisParams {
        method: AnalysisMethod::NoAmbiguities,
        min_oligo_length: 10,
        max_oligo_length: 10,
        resolution: 1,
        coverage_threshold: 9500,
        ..Default::default()
    }
}

#[test]
fn test_screening_example() {
    let template = template();
    let references = ReferenceData {
        names: vec![
            "Ref1".to_string(),
            "Ref2".to_string(),
            "Ref3".to_string(),
            "Ref4".to_string(),
        ],
        sequences: vec![
            "TATGGTACGTCATGTTCTAGAAATGGGCTGT".to_string(),
            "AATATGGTACGTCATGTTCTAGAAATGGGCTGT".to_string(),
            "TATGGTTCGTCATGTTCTAGAAATGGGCTGTTTT".to_string(),
            "GTATGGTACGTCATGTTCTAGAAATGGGCTGT".to_string(),
        ],
    };
    let params = params_len10();

    let results = run_screening(&template, &references, &params, None);
    assert!(results.results_by_length.contains_key(&10));

    let length_result = results.results_by_length.get(&10).unwrap();
    let first_pos = &length_result.positions[0];
    assert!(!first_pos.analysis.skipped);
    assert!(first_pos.analysis.variants.len() >= 1);
    assert!(first_pos.exclusivity.is_none());
}

#[test]
fn test_screening_with_exclusivity() {
    let template = template();
    let references = ReferenceData {
        names: vec!["Ref1".to_string()],
        sequences: vec!["TATGGTACGTCATGTTCTAGAAATGGGCTGT".to_string()],
    };
    let exclusivity = ReferenceData {
        names: vec!["Excl1".to_string(), "Excl2".to_string()],
        sequences: vec![
            "TATGGTACGTCATGTTCTAGAAATGGGCTGT".to_string(),
            "AAAAAAAAAAAAAAAAAAAAAAAAAAAAAAA".to_string(),
        ],
    };
    let params = params_len10();

    let results = run_screening(&template, &references, &params, Some(&exclusivity));
    let length_result = results.results_by_length.get(&10).unwrap();
    let first_pos = &length_result.positions[0];

    assert!(first_pos.exclusivity.is_some());
    let excl = first_pos.exclusivity.as_ref().unwrap();
    assert_eq!(excl.total_sequences, 2);
    assert!(results.differential_enabled);
    assert_eq!(results.exclusivity_sequence_count, Some(2));
}

#[test]
fn example_variants_at_first_position() {
    let template = template();
    let references = ReferenceData {
        names: vec!["Ref1".into(), "Ref2".into(), "Ref3".into(), "Ref4".into()],
        sequences: vec![
            "TATGGTACGTCATGTTCTAGAAATGGGCTGT".into(),
            "AATATGGTACGTCATGTTCTAGAAATGGGCTGT".into(),
            "TATGGTTCGTCATGTTCTAGAAATGGGCTGTTTT".into(),
            "GTATGGTACGTCATGTTCTAGAAATGGGCTGT".into(),
        ],
    };
    let results = run_screening(&template, &references, &params_len10(), None);
    let lr = results.results_by_length.get(&10).unwrap();
    assert_eq!(lr.positions.len(), 22);
    let a = &lr.positions[0].analysis;
    assert_eq!(a.total_sequences, 4);
    assert_eq!(a.sequences_analyzed, 4);
    assert_eq!(a.no_match_count, 0);
    assert_eq!(a.variants.len(), 2);
    assert_eq!(a.variants[0].sequence, b"TATGGTACGT".to_vec());
    assert_eq!(a.variants[0].count, 3);
    assert_eq!(a.variants[1].sequence, b"TATGGTTCGT".to_vec());
    assert_eq!(a.variants[1].count, 1);
    // 3 of 4 is 75%, 4 of 4 reaches 95%
    assert_eq!(a.variants_for_threshold, 2);
    assert_eq!(a.covered_at_threshold, 4);
    assert_eq!(lr.positions[0].variants_needed, 2);
    for (i, p) in lr.positions.iter().enumerate() {
        assert_eq!(p.position, i);
    }
    assert_eq!(results.template_length, 31);
    assert_eq!(results.total_sequences, 4);
    assert!(!results.differential_enabled);
    assert_eq!(results.exclusivity_sequence_count, None);
}

#[test]
fn exclusivity_has_zero_mismatch_bucket() {
    let template = template();
    let references = ReferenceData {
        names: vec!["Ref1".into()],
        sequences: vec!["TATGGTACGTCATGTTCTAGAAATGGGCTGT".into()],
    };
    let exclusivity = ReferenceData {
        names: vec!["Excl1".into(), "Excl2".into()],
        sequences: vec![
            "TATGGTACGTCATGTTCTAGAAATGGGCTGT".into(),
            "AAAAAAAAAAAAAAAAAAAAAAAAAAAAAAA".into(),
        ],
    };
    let results = run_screening(&template, &references, &params_len10(), Some(&exclusivity));
    let excl = results.results_by_length.get(&10).unwrap().positions[0]
        .exclusivity
        .as_ref()
        .unwrap();
    assert_eq!(excl.total_sequences, 2);
    assert_eq!(excl.no_match_count, 1);
    assert_eq!(excl.min_mismatches, Some(0));
    assert_eq!(excl.mismatch_histogram.len(), 2);
    assert_eq!(excl.mismatch_histogram[0].mismatches, 0);
    assert_eq!(excl.mismatch_histogram[0].count, 1);
    assert_eq!(excl.mismatch_histogram[0].example_name, "Excl1");
    assert_eq!(excl.mismatch_histogram[1].mismatches, u32::MAX);
    assert_eq!(excl.mismatch_histogram[1].count, 1);
    assert_eq!(excl.mismatch_histogram[1].example_name, "Excl2");
    let total: usize = excl.mismatch_histogram.iter().map(|b| b.count).sum();
    assert_eq!(total, excl.total_sequences);
}

#[test]
fn template_shorter_than_oligo_gives_one_skipped_position() {
    let template = TemplateData { name: "T".into(), sequence: "ACGTACG".into() };
    let references = ReferenceData { names: vec!["R".into()], sequences: vec!["ACGTACGTACGT".into()] };
    let exclusivity = ReferenceData { names: vec!["E".into()], sequences: vec!["ACGTACGTACGT".into()] };
    let results = run_screening(&template, &references, &params_len10(), Some(&exclusivity));
    let lr = results.results_by_length.get(&10).unwrap();
    assert_eq!(lr.positions.len(), 1);
    assert_eq!(lr.positions[0].position, 0);
    assert!(lr.positions[0].analysis.skipped);
    assert!(lr.positions[0].analysis.skip_reason.is_some());
    assert!(lr.positions[0].exclusivity.is_none());
}

#[test]
fn all_references_diverge_gives_skipped_window() {
    let template = template();
    let references = ReferenceData {
        names: vec!["R1".into(), "R2".into()],
        sequences: vec!["CCCCCCCCCCCCCCC".into(), "GGGGGGGGGGGGGGGG".into()],
    };
    let mut params = params_len10();
    params.pairwise.max_mismatches = 0;
    let results = run_screening(&template, &references, &params, None);
    let a = &results.results_by_length.get(&10).unwrap().positions[0].analysis;
    assert!(a.skipped);
    assert!(a.skip_reason.as_ref().unwrap().contains("No valid matches"));
    assert_eq!(a.no_match_count, 2);
    assert_eq!(a.total_sequences, 2);
    assert!(a.variants.is_empty());
}

#[test]
fn no_matches_lower_coverage() {
    let template = template();
    let references = ReferenceData {
        names: vec!["R1".into(), "R2".into(), "R3".into()],
        sequences: vec![
            "TATGGTACGTCATGTTCTAGAAATGGGCTGT".into(),
            "TATGGTACGTCATGTTCTAGAAATGGGCTGT".into(),
            "CCCCCCCCCCCCCCCCCCCCCCCCCCCCCCC".into(),
        ],
    };
    let results = run_screening(&template, &references, &params_len10(), None);
    let a = &results.results_by_length.get(&10).unwrap().positions[0].analysis;
    assert!(!a.skipped);
    assert_eq!(a.no_match_count, 1);
    assert_eq!(a.variants.len(), 1);
    assert_eq!(a.variants[0].count, 2);
    // 2 of 3 never reaches 95%: the whole list is needed
    assert_eq!(a.variants_for_threshold, 1);
    assert_eq!(a.covered_at_threshold, 2);
    let sum: usize = a.variants.iter().map(|v| v.count).sum();
    assert_eq!(sum + a.no_match_count, a.total_sequences);
}

#[test]
fn every_length_in_range_has_a_result() {
    let template = template();
    let references = ReferenceData { names: vec!["R".into()], sequences: vec![template.sequence.clone()] };
    let mut params = params_len10();
    params.min_oligo_length = 8;
    params.max_oligo_length = 12;
    params.resolution = 5;
    let results = run_screening(&template, &references, &params, None);
    let keys: Vec<u32> = results.results_by_length.keys().copied().collect();
    assert_eq!(keys, vec![8, 9, 10, 11, 12]);
    let lr = results.results_by_length.get(&12).unwrap();
    let positions: Vec<usize> = lr.positions.iter().map(|p| p.position).collect();
    assert_eq!(positions, vec![0, 5, 10, 15]);
}
