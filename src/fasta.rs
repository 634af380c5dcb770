//! FASTA text: records made of a header line starting with `>` (the name)
//! followed by sequence lines.

use vstd::prelude::*;
use crate::text::{chars_of, string_from_chars};
use crate::types::{ReferenceData, TemplateData};

verus! {

/// Why a FASTA text was refused.
#[derive(Clone, Copy, Debug, PartialEq, Eq, Structural)]
pub enum FastaError {
    /// The text holds no record.
    NoRecords,
    /// Sequence letters come before the first header line.
    DataBeforeHeader,
    /// A record has a header but no sequence letters.
    EmptySequence,
}

impl FastaError {
    /// A sentence describing the error.
    pub fn message(&self) -> (r: &'static str) {
        match self {
            FastaError::NoRecords => "No sequences found in FASTA input",
            FastaError::DataBeforeHeader => "Sequence data found before the first header line",
            FastaError::EmptySequence => "A FASTA record has no sequence",
        }
    }
}

/// Reading state after a prefix of the text.
pub struct FastaState {
    /// Records so far, as (name, sequence).
    pub records: Seq<(Seq<char>, Seq<char>)>,
    /// Inside a header line.
    pub in_header: bool,
    /// No character but blanks since the last line break (or the start).
    pub line_start: bool,
    /// Sequence letters were seen before any header.
    pub stray: bool,
}

pub open spec fn is_blank(c: char) -> bool {
    c == ' ' || c == '\t' || c == '\r'
}

pub open spec fn initial_state() -> FastaState {
    FastaState { records: Seq::empty(), in_header: false, line_start: true, stray: false }
}

/// One character read: a header collects its line but carriage returns; a
/// `>` at the start of a line opens a record; blanks and line breaks are
/// dropped; any other character is a sequence letter of the last record.
pub open spec fn read_char(st: FastaState, c: char) -> FastaState {
    let n = st.records.len();
    if st.in_header {
        if c == '\n' {
            FastaState { in_header: false, line_start: true, ..st }
        } else if c == '\r' {
            st
        } else {
            FastaState { records: st.records.update(n - 1, (st.records[n - 1].0.push(c), st.records[n - 1].1)), ..st }
        }
    } else if c == '\n' {
        FastaState { line_start: true, ..st }
    } else if c == '>' && st.line_start {
        FastaState { records: st.records.push((Seq::empty(), Seq::empty())), in_header: true, line_start: false, ..st }
    } else if is_blank(c) {
        st
    } else if n == 0 {
        FastaState { stray: true, line_start: false, ..st }
    } else {
        FastaState {
            records: st.records.update(n - 1, (st.records[n - 1].0, st.records[n - 1].1.push(c))),
            line_start: false,
            ..st
        }
    }
}

/// The state after reading all of `cs`.
pub open spec fn read_all(cs: Seq<char>) -> FastaState
    decreases cs.len(),
{
    if cs.len() == 0 {
        initial_state()
    } else {
        read_char(read_all(cs.drop_last()), cs.last())
    }
}

/// The records of a FASTA text, or why it is refused.
pub open spec fn parse_fasta_spec(cs: Seq<char>) -> Result<Seq<(Seq<char>, Seq<char>)>, FastaError> {
    let st = read_all(cs);
    if st.stray {
        Err(FastaError::DataBeforeHeader)
    } else if st.records.len() == 0 {
        Err(FastaError::NoRecords)
    } else if exists|i: int| 0 <= i < st.records.len() && (#[trigger] st.records[i]).1.len() == 0 {
        Err(FastaError::EmptySequence)
    } else {
        Ok(st.records)
    }
}

pub open spec fn pair_view(names: Seq<String>, seqs: Seq<String>) -> Seq<(Seq<char>, Seq<char>)> {
    Seq::new(names.len(), |i: int| (names[i]@, seqs[i]@))
}

/// The records of a FASTA text as names and sequences, in order.
pub fn parse_reference_fasta(content: &str) -> (r: Result<ReferenceData, FastaError>)
    ensures
        match (r, parse_fasta_spec(content@)) {
            (Ok(d), Ok(recs)) => d.names@.len() == d.sequences@.len() && pair_view(d.names@, d.sequences@) == recs,
            (Err(e), Err(e2)) => e == e2,
            _ => false,
        },
{
    let cs = chars_of(content);
    let mut names: Vec<String> = Vec::new();
    let mut seqs: Vec<String> = Vec::new();
    let mut name: Vec<char> = Vec::new();
    let mut seq: Vec<char> = Vec::new();
    let mut open = false;
    let mut in_header = false;
    let mut line_start = true;
    let mut stray = false;
    let mut empty_seen = false;
    let mut k: usize = 0;
    while k < cs.len()
        invariant
            k <= cs@.len(),
            names@.len() == seqs@.len(),
            ({
                let st = read_all(cs@.subrange(0, k as int));
                &&& st.in_header == in_header
                &&& st.line_start == line_start
                &&& st.stray == stray
                &&& in_header ==> open
                &&& if open {
                    st.records == pair_view(names@, seqs@).push((name@, seq@))
                } else {
                    st.records.len() == 0 && names@.len() == 0
                }
                &&& empty_seen == exists|i: int| 0 <= i < names@.len() && (#[trigger] seqs@[i])@.len() == 0
            }),
        decreases cs@.len() - k,
    {
        let c = cs[k];
        let ghost pre = cs@.subrange(0, k as int);
        let ghost old_names = names@;
        let ghost old_seqs = seqs@;
        let ghost old_seq = seq@;
        let ghost old_empty = empty_seen;
        proof {
            assert(cs@.subrange(0, k + 1).drop_last() == pre);
            assert(cs@.subrange(0, k + 1).last() == c);
        }
        if in_header {
            if c == '\n' {
                in_header = false;
                line_start = true;
            } else if c != '\r' {
                name.push(c);
            }
        } else if c == '\n' {
            line_start = true;
        } else if c == '>' && line_start {
            if open {
                if seq.len() == 0 {
                    empty_seen = true;
                }
                names.push(string_from_chars(&name));
                seqs.push(string_from_chars(&seq));
                proof {
                    assert(pair_view(names@, seqs@) =~= pair_view(old_names, old_seqs).push((name@, seq@)));
                }
            }
            name = Vec::new();
            seq = Vec::new();
            open = true;
            in_header = true;
            line_start = false;
        } else if c == ' ' || c == '\t' || c == '\r' {
        } else if !open {
            stray = true;
            line_start = false;
        } else {
            seq.push(c);
            line_start = false;
        }
        proof {
            let st = read_all(cs@.subrange(0, k + 1));
            if open {
                assert(st.records =~= pair_view(names@, seqs@).push((name@, seq@)));
            }
            let j = old_names.len() as int;
            if names@.len() > old_names.len() {
                assert(seqs@[j]@ == old_seq);
                assert(forall|i: int| 0 <= i < j ==> seqs@[i] == old_seqs[i]);
                if old_empty {
                    let w = choose|i: int| 0 <= i < j && (#[trigger] old_seqs[i])@.len() == 0;
                    assert(seqs@[w]@.len() == 0);
                } else if old_seq.len() == 0 {
                    assert(seqs@[j]@.len() == 0);
                } else {
                    assert forall|i: int| 0 <= i < names@.len() implies (#[trigger] seqs@[i])@.len() != 0 by {
                        if i < j {
                            assert(seqs@[i] == old_seqs[i]);
                        }
                    }
                }
            } else {
                assert(seqs@ == old_seqs);
            }
        }
        k = k + 1;
    }
    proof {
        assert(cs@.subrange(0, cs@.len() as int) =~= cs@);
    }
    if stray {
        return Err(FastaError::DataBeforeHeader);
    }
    if !open {
        return Err(FastaError::NoRecords);
    }
    let ghost recs = read_all(cs@).records;
    if empty_seen || seq.len() == 0 {
        proof {
            if empty_seen {
                let w = choose|i: int| 0 <= i < names@.len() && (#[trigger] seqs@[i])@.len() == 0;
                assert(recs[w].1.len() == 0);
            } else {
                assert(recs[names@.len() as int].1.len() == 0);
            }
        }
        return Err(FastaError::EmptySequence);
    }
    let ghost last = (name@, seq@);
    let ghost old_names = names@;
    let ghost old_seqs = seqs@;
    names.push(string_from_chars(&name));
    seqs.push(string_from_chars(&seq));
    proof {
        assert(pair_view(names@, seqs@) =~= pair_view(old_names, old_seqs).push(last));
        assert forall|i: int| 0 <= i < recs.len() implies (#[trigger] recs[i]).1.len() != 0 by {
            if i < old_names.len() {
                assert(recs[i].1 == old_seqs[i]@);
            }
        }
    }
    Ok(ReferenceData { names, sequences: seqs })
}

/// The template of a FASTA text: its first record.
pub fn parse_template_fasta(content: &str) -> (r: Result<TemplateData, FastaError>)
    ensures
        match (r, parse_fasta_spec(content@)) {
            (Ok(t), Ok(recs)) => t.name@ == recs[0].0 && t.sequence@ == recs[0].1,
            (Err(e), Err(e2)) => e == e2,
            _ => false,
        },
{
    match parse_reference_fasta(content) {
        Ok(d) => {
            let mut d = d;
            proof {
                assert(pair_view(d.names@, d.sequences@)[0] == (d.names@[0]@, d.sequences@[0]@));
            }
            let name = d.names.remove(0);
            let sequence = d.sequences.remove(0);
            Ok(TemplateData { name, sequence })
        },
        Err(e) => Err(e),
    }
}

} // verus!
