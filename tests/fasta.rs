use oligoscreen::fasta::{parse_reference_fasta, parse_template_fasta, FastaError};
use oligoscreen::types::ReferenceData;

#[test]
fn reads_records_across_lines() {
    let d = parse_reference_fasta(">seq one\nACGT\nTTGA\n\n>seq2\r\nGG CC\r\n").unwrap();
    assert_eq!(d.names, vec!["seq one".to_string(), "seq2".to_string()]);
    assert_eq!(d.sequences, vec!["ACGTTTGA".to_string(), "GGCC".to_string()]);
    assert_eq!(d.len(), 2);
}

#[test]
fn template_is_first_record() {
    let t = parse_template_fasta(">T\nACGTACGT\n>U\nGG\n").unwrap();
    assert_eq!(t.name, "T");
    assert_eq!(t.sequence, "ACGTACGT");
}

#[test]
fn fasta_errors() {
    assert_eq!(parse_reference_fasta("").unwrap_err(), FastaError::NoRecords);
    assert_eq!(parse_reference_fasta("  \n\n").unwrap_err(), FastaError::NoRecords);
    assert_eq!(parse_reference_fasta("ACGT\n>a\nAC\n").unwrap_err(), FastaError::DataBeforeHeader);
    assert_eq!(parse_reference_fasta(">a\n>b\nAC\n").unwrap_err(), FastaError::EmptySequence);
    assert_eq!(parse_reference_fasta(">a\nAC\n>b\n").unwrap_err(), FastaError::EmptySequence);
    assert_eq!(parse_template_fasta("").unwrap_err(), FastaError::NoRecords);
    assert_eq!(FastaError::NoRecords.message(), "No sequences found in FASTA input");
}

#[test]
fn greater_than_inside_a_line_is_a_letter() {
    let d = parse_reference_fasta(">a\nAC>GT\n").unwrap();
    assert_eq!(d.sequences, vec!["AC>GT".to_string()]);
}

#[test]
fn appending_sets_keeps_order() {
    let mut a = ReferenceData { names: vec!["x".into()], sequences: vec!["AC".into()] };
    a.append(ReferenceData { names: vec!["y".into(), "z".into()], sequences: vec!["GG".into(), "TT".into()] });
    assert_eq!(a.names, vec!["x".to_string(), "y".to_string(), "z".to_string()]);
    assert_eq!(a.sequences, vec!["AC".to_string(), "GG".to_string(), "TT".to_string()]);
}
