//! Helpers for showing results: reverse complement, codon grouping, and the
//! closest off-target distance once the closest few are set aside.

use vstd::prelude::*;
use vstd::string::*;
use crate::exclusivity::{buckets_view, BucketV, NO_MATCH_KEY};
use crate::text::string_from_chars;
use crate::types::ExclusivityResult;

verus! {

/// The complementary letter of a nucleotide or ambiguity code; any other
/// character stays as it is.
pub open spec fn complement_of(c: char) -> char {
    if c == 'A' { 'T' }
    else if c == 'T' || c == 'U' { 'A' }
    else if c == 'C' { 'G' }
    else if c == 'G' { 'C' }
    else if c == 'R' { 'Y' }
    else if c == 'Y' { 'R' }
    else if c == 'K' { 'M' }
    else if c == 'M' { 'K' }
    else if c == 'B' { 'V' }
    else if c == 'V' { 'B' }
    else if c == 'D' { 'H' }
    else if c == 'H' { 'D' }
    else if c == 'a' { 't' }
    else if c == 't' || c == 'u' { 'a' }
    else if c == 'c' { 'g' }
    else if c == 'g' { 'c' }
    else if c == 'r' { 'y' }
    else if c == 'y' { 'r' }
    else if c == 'k' { 'm' }
    else if c == 'm' { 'k' }
    else if c == 'b' { 'v' }
    else if c == 'v' { 'b' }
    else if c == 'd' { 'h' }
    else if c == 'h' { 'd' }
    else { c }
}

/// The reverse complement of `s`.
pub open spec fn reverse_complement_of(s: Seq<char>) -> Seq<char> {
    Seq::new(s.len(), |i: int| complement_of(s[s.len() - 1 - i]))
}

/// `s` with a space before every third character but the first.
pub open spec fn codon_spaced(s: Seq<char>) -> Seq<char>
    decreases s.len(),
{
    if s.len() == 0 {
        Seq::empty()
    } else {
        let i = s.len() - 1;
        codon_spaced(s.drop_last()) + if i > 0 && i % 3 == 0 {
            seq![' ', s.last()]
        } else {
            seq![s.last()]
        }
    }
}

fn complement(c: char) -> (r: char)
    ensures
        r == complement_of(c),
{
    match c {
        'A' => 'T',
        'T' | 'U' => 'A',
        'C' => 'G',
        'G' => 'C',
        'R' => 'Y',
        'Y' => 'R',
        'K' => 'M',
        'M' => 'K',
        'B' => 'V',
        'V' => 'B',
        'D' => 'H',
        'H' => 'D',
        'a' => 't',
        't' | 'u' => 'a',
        'c' => 'g',
        'g' => 'c',
        'r' => 'y',
        'y' => 'r',
        'k' => 'm',
        'm' => 'k',
        'b' => 'v',
        'v' => 'b',
        'd' => 'h',
        'h' => 'd',
        _ => c,
    }
}

/// The reverse complement of a nucleotide sequence.
pub fn reverse_complement(seq: &str) -> (r: String)
    ensures
        r@ == reverse_complement_of(seq@),
{
    let n = seq.unicode_len();
    let mut out: Vec<char> = Vec::new();
    let mut k: usize = 0;
    while k < n
        invariant
            n == seq@.len(),
            k <= n,
            out@ == reverse_complement_of(seq@).subrange(0, k as int),
        decreases n - k,
    {
        let c = seq.get_char(n - 1 - k);
        out.push(complement(c));
        proof {
            assert(out@ =~= reverse_complement_of(seq@).subrange(0, k + 1));
        }
        k = k + 1;
    }
    proof {
        assert(out@ =~= reverse_complement_of(seq@));
    }
    string_from_chars(&out)
}

/// Groups a sequence in codons: a space before every third character but the first.
pub fn add_codon_spacing(seq: &str) -> (r: String)
    ensures
        r@ == codon_spaced(seq@),
{
    let n = seq.unicode_len();
    let mut out: Vec<char> = Vec::new();
    let mut k: usize = 0;
    while k < n
        invariant
            n == seq@.len(),
            k <= n,
            out@ == codon_spaced(seq@.subrange(0, k as int)),
        decreases n - k,
    {
        let c = seq.get_char(k);
        let ghost before = out@;
        if k > 0 && k % 3 == 0 {
            out.push(' ');
        }
        out.push(c);
        proof {
            let s1 = seq@.subrange(0, k + 1);
            assert(s1.drop_last() =~= seq@.subrange(0, k as int));
            assert(s1.last() == c);
            assert(out@ =~= codon_spaced(s1));
        }
        k = k + 1;
    }
    proof {
        assert(seq@.subrange(0, n as int) =~= seq@);
    }
    string_from_chars(&out)
}

/// A sequence as shown: optionally reverse-complemented, then optionally
/// grouped in codons.
pub fn format_sequence_for_display(seq: &str, reverse_comp: bool, codon_spacing: bool) -> (r: String)
    ensures
        r@ == {
            let base = if reverse_comp {
                reverse_complement_of(seq@)
            } else {
                seq@
            };
            if codon_spacing {
                codon_spaced(base)
            } else {
                base
            }
        },
{
    let result = if reverse_comp {
        reverse_complement(seq)
    } else {
        seq.to_owned()
    };
    if codon_spacing {
        add_codon_spacing(result.as_str())
    } else {
        result
    }
}

/// The smallest mismatch count among the buckets of `h` from `i` on once
/// `remaining` more matched sequences, closest first, are set aside; the
/// no-match bucket is passed over.
pub open spec fn min_after_ignoring(h: Seq<BucketV>, i: int, remaining: int) -> Option<u32>
    decreases h.len() - i,
{
    if i >= h.len() || i < 0 {
        None
    } else if h[i].mismatches == NO_MATCH_KEY {
        min_after_ignoring(h, i + 1, remaining)
    } else if h[i].count <= remaining {
        min_after_ignoring(h, i + 1, remaining - h[i].count)
    } else {
        Some(h[i].mismatches)
    }
}

/// The smallest mismatch count of the off-target sequences once the
/// `ignore_count` closest ones are set aside; `None` when none is left.
pub fn effective_min_mismatches(excl: &ExclusivityResult, ignore_count: usize) -> (r: Option<u32>)
    ensures
        r == if ignore_count == 0 {
            excl.min_mismatches
        } else {
            min_after_ignoring(buckets_view(excl.mismatch_histogram@), 0, ignore_count as int)
        },
{
    if ignore_count == 0 {
        return excl.min_mismatches;
    }
    let ghost h = buckets_view(excl.mismatch_histogram@);
    let mut remaining = ignore_count;
    let mut i: usize = 0;
    while i < excl.mismatch_histogram.len()
        invariant
            h == buckets_view(excl.mismatch_histogram@),
            ignore_count > 0,
            i <= h.len(),
            min_after_ignoring(h, i as int, remaining as int) == min_after_ignoring(h, 0, ignore_count as int),
        decreases h.len() - i,
    {
        let bucket = &excl.mismatch_histogram[i];
        proof {
            assert(h[i as int] == bucket.view());
        }
        if bucket.mismatches != NO_MATCH_KEY {
            if bucket.count <= remaining {
                remaining = remaining - bucket.count;
            } else {
                return Some(bucket.mismatches);
            }
        }
        i = i + 1;
    }
    None
}

} // verus!
