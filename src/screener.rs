//! The screening sweep: every oligo length, every window position, aligned
//! against the references and, optionally, the off-target set.

use std::collections::BTreeMap;
use vstd::prelude::*;
use vstd::slice::slice_subrange;
use vstd::string::*;
use vstd::utf8::encode_utf8;
use crate::analyzer::{analyze_sequences, method_variants, prefix_count, threshold_index, total_count, variants_view};
use crate::exclusivity::{bucket_total, buckets_view, exclusivity_histogram, histogram, matched_hist, names_view, no_match_total};
use crate::pairwise::{alignable, matched_regions, mismatch_outcomes, seqs_view, DnaAligner, MAX_ALIGN_LEN};
use crate::types::{
    AnalysisParams, ExclusivityResult, LengthResult, PairwiseParams, PositionResult, ReferenceData,
    ScreeningResults, TemplateData, WindowAnalysisResult,
};
use crate::window::{positions, window_positions};

verus! {

/// The bytes of a sequence given as text.
pub open spec fn seq_bytes(s: String) -> Seq<u8> {
    encode_utf8(s@)
}

pub open spec fn all_bytes(v: Seq<String>) -> Seq<Seq<u8>> {
    v.map_values(|s: String| seq_bytes(s))
}

/// Every candidate fits an alignment with a query of `length` bases.
pub open spec fn fit_for(length: int, rs: Seq<Seq<u8>>) -> bool {
    forall|k: int| 0 <= k < rs.len() ==> length + (#[trigger] rs[k]).len() < MAX_ALIGN_LEN
}

/// The window at `position` of `length` lies within the template.
pub open spec fn window_fits(t: Seq<u8>, position: int, length: int) -> bool {
    position + length <= t.len()
}

pub open spec fn oligo(t: Seq<u8>, position: int, length: int) -> Seq<u8> {
    t.subrange(position, position + length)
}

/// `r` is the analysis of the window at `position` of `length` against the references `refs`.
pub open spec fn window_result_ok(
    r: WindowAnalysisResult,
    t: Seq<u8>,
    refs: Seq<Seq<u8>>,
    p: AnalysisParams,
    position: int,
    length: int,
) -> bool {
    let matched = matched_regions(oligo(t, position, length), refs, p.pairwise);
    &&& r.total_sequences == refs.len()
    &&& if !window_fits(t, position, length) || matched.len() == 0 {
        &&& r.skipped
        &&& r.skip_reason is Some
        &&& r.sequences_analyzed == 0
        &&& r.no_match_count == refs.len()
        &&& r.variants@.len() == 0
        &&& r.variants_for_threshold == 0
        &&& r.covered_at_threshold == 0
    } else {
        &&& !r.skipped
        &&& r.skip_reason is None
        &&& r.sequences_analyzed == matched.len()
        &&& r.no_match_count == refs.len() - matched.len()
        &&& variants_view(r.variants@) == method_variants(matched, p.method, p.exclude_n)
        &&& r.variants_for_threshold == threshold_index(
            variants_view(r.variants@),
            refs.len() as int,
            p.coverage_threshold as int,
        )
        &&& r.covered_at_threshold == prefix_count(variants_view(r.variants@), r.variants_for_threshold as int)
    }
}

/// `e` is the exclusivity result of the window at `position` of `length`
/// against the off-target sequences `excl` named `names`.
pub open spec fn exclusivity_result_ok(
    e: ExclusivityResult,
    t: Seq<u8>,
    excl: Seq<Seq<u8>>,
    names: Seq<Seq<char>>,
    pw: PairwiseParams,
    position: int,
    length: int,
) -> bool {
    let outs = mismatch_outcomes(oligo(t, position, length), excl, pw);
    &&& e.total_sequences == excl.len()
    &&& e.no_match_count == no_match_total(outs)
    &&& buckets_view(e.mismatch_histogram@) == histogram(outs, names)
    &&& e.min_mismatches == if matched_hist(outs, names).len() > 0 {
        Some(matched_hist(outs, names)[0].mismatches)
    } else {
        None
    }
}

/// `pr` is the result of the window at `position` of `length`.
pub open spec fn position_result_ok(
    pr: PositionResult,
    t: Seq<u8>,
    refs: Seq<Seq<u8>>,
    excl: Option<Seq<Seq<u8>>>,
    names: Seq<Seq<char>>,
    p: AnalysisParams,
    position: int,
    length: int,
) -> bool {
    &&& pr.position == position
    &&& pr.variants_needed == pr.analysis.variants_for_threshold
    &&& window_result_ok(pr.analysis, t, refs, p, position, length)
    &&& match excl {
        Some(x) if window_fits(t, position, length) => match pr.exclusivity {
            Some(e) => exclusivity_result_ok(e, t, x, names, p.pairwise, position, length),
            None => false,
        },
        _ => pr.exclusivity is None,
    }
}

/// `lr` holds, by position, the results of every window of `length`.
pub open spec fn length_result_ok(
    lr: LengthResult,
    t: Seq<u8>,
    refs: Seq<Seq<u8>>,
    excl: Option<Seq<Seq<u8>>>,
    names: Seq<Seq<char>>,
    p: AnalysisParams,
    length: u32,
) -> bool {
    let ps = window_positions(t.len(), length as nat, p.resolution as nat);
    &&& lr.oligo_length == length
    &&& lr.positions@.len() == ps.len()
    &&& forall|i: int|
        0 <= i < ps.len() ==> position_result_ok(
            #[trigger] lr.positions@[i],
            t,
            refs,
            excl,
            names,
            p,
            ps[i] as int,
            length as int,
        )
}

fn no_result(total: usize, reason: &str) -> (r: WindowAnalysisResult)
    ensures
        r.total_sequences == total,
        r.skipped,
        r.skip_reason is Some,
        r.sequences_analyzed == 0,
        r.no_match_count == total,
        r.variants@.len() == 0,
        r.variants_for_threshold == 0,
        r.covered_at_threshold == 0,
{
    WindowAnalysisResult {
        total_sequences: total,
        sequences_analyzed: 0,
        no_match_count: total,
        skipped: true,
        skip_reason: Some(reason.to_owned()),
        variants: Vec::new(),
        variants_for_threshold: 0,
        covered_at_threshold: 0,
    }
}

/// Analyzes the window at `position` of `length` against the references:
/// aligns it against each, clusters the matched regions into variants, and
/// finds how many variants cover the coverage threshold of all references.
pub fn analyze_window(
    template: &Vec<u8>,
    refs: &Vec<Vec<u8>>,
    params: &AnalysisParams,
    position: usize,
    length: usize,
    aligner: &mut DnaAligner,
) -> (r: WindowAnalysisResult)
    requires
        old(aligner).params_spec() == params.pairwise,
        fit_for(length as int, seqs_view(refs@)),
    ensures
        window_result_ok(r, template@, seqs_view(refs@), *params, position as int, length as int),
        final(aligner).params_spec() == old(aligner).params_spec(),
{
    if position > template.len() || length > template.len() - position {
        return no_result(refs.len(), "Template is shorter than the oligo length");
    }
    let query = slice_subrange(template.as_slice(), position, position + length);
    proof {
        assert(query@ == oligo(template@, position as int, length as int));
        assert forall|k: int| 0 <= k < refs@.len() implies query@.len() + (#[trigger] refs@[k])@.len() < MAX_ALIGN_LEN by {
            assert(seqs_view(refs@)[k] == refs@[k]@);
        }
    }
    let (matched, no_match) = aligner.collect_matches(query, refs);
    if matched.len() == 0 {
        return no_result(refs.len(), "No valid matches found in any reference sequence");
    }
    let mut result = analyze_sequences(&matched, &params.method, params.exclude_n, params.coverage_threshold);
    proof {
        crate::analyzer::lemma_variants_cover_all(seqs_view(matched@), params.method, params.exclude_n);
    }
    let (needed, covered) = crate::analyzer::variants_for_threshold(&result.variants, refs.len(), params.coverage_threshold);
    result.total_sequences = refs.len();
    result.sequences_analyzed = matched.len();
    result.no_match_count = no_match;
    result.variants_for_threshold = needed;
    result.covered_at_threshold = covered;
    result
}

/// Scores the window at `position` of `length` against the off-target
/// sequences `excl` named `names`.
pub fn analyze_exclusivity(
    template: &Vec<u8>,
    excl: &Vec<Vec<u8>>,
    names: &Vec<String>,
    position: usize,
    length: usize,
    aligner: &mut DnaAligner,
) -> (r: ExclusivityResult)
    requires
        window_fits(template@, position as int, length as int),
        names@.len() == excl@.len(),
        fit_for(length as int, seqs_view(excl@)),
    ensures
        exclusivity_result_ok(r, template@, seqs_view(excl@), names_view(names@), old(aligner).params_spec(), position as int, length as int),
        final(aligner).params_spec() == old(aligner).params_spec(),
{
    let template_len = template.len();
    proof {
        assert(position + length <= template_len);
    }
    let query = slice_subrange(template.as_slice(), position, position + length);
    proof {
        assert forall|k: int| 0 <= k < excl@.len() implies query@.len() + (#[trigger] excl@[k])@.len() < MAX_ALIGN_LEN by {
            assert(seqs_view(excl@)[k] == excl@[k]@);
        }
    }
    let outs = aligner.collect_mismatch_counts(query, excl);
    exclusivity_histogram(&outs, names)
}

/// The result of the window at `position` of `length`: its analysis against
/// the references and, when an off-target set is given and the window fits
/// the template, its exclusivity result.
pub fn analyze_position(
    template: &Vec<u8>,
    refs: &Vec<Vec<u8>>,
    excl: Option<&Vec<Vec<u8>>>,
    excl_names: &Vec<String>,
    params: &AnalysisParams,
    position: usize,
    length: usize,
    aligner: &mut DnaAligner,
) -> (r: PositionResult)
    requires
        old(aligner).params_spec() == params.pairwise,
        fit_for(length as int, seqs_view(refs@)),
        match excl {
            Some(x) => excl_names@.len() == x@.len() && fit_for(length as int, seqs_view(x@)),
            None => true,
        },
    ensures
        position_result_ok(
            r,
            template@,
            seqs_view(refs@),
            match excl {
                Some(x) => Some(seqs_view(x@)),
                None => None,
            },
            names_view(excl_names@),
            *params,
            position as int,
            length as int,
        ),
        final(aligner).params_spec() == old(aligner).params_spec(),
{
    let analysis = analyze_window(template, refs, params, position, length, aligner);
    let exclusivity = match excl {
        Some(x) => {
            if position <= template.len() && length <= template.len() - position {
                Some(analyze_exclusivity(template, x, excl_names, position, length, aligner))
            } else {
                None
            }
        },
        None => None,
    };
    PositionResult { position, variants_needed: analysis.variants_for_threshold, analysis, exclusivity }
}

/// The results of every window of `length`, by position, computed with one
/// alignment engine.
pub fn analyze_length(
    template: &Vec<u8>,
    refs: &Vec<Vec<u8>>,
    excl: Option<&Vec<Vec<u8>>>,
    excl_names: &Vec<String>,
    params: &AnalysisParams,
    length: u32,
) -> (r: LengthResult)
    requires
        length > 0,
        params.resolution > 0,
        fit_for(length as int, seqs_view(refs@)),
        match excl {
            Some(x) => excl_names@.len() == x@.len() && fit_for(length as int, seqs_view(x@)),
            None => true,
        },
    ensures
        length_result_ok(
            r,
            template@,
            seqs_view(refs@),
            match excl {
                Some(x) => Some(seqs_view(x@)),
                None => None,
            },
            names_view(excl_names@),
            *params,
            length,
        ),
{
    let ghost ex = match excl {
        Some(x) => Some(seqs_view(x@)),
        None => None,
    };
    let ps = positions(template.len(), length as usize, params.resolution as usize);
    let mut aligner = DnaAligner::new(length as usize, &params.pairwise);
    let mut results: Vec<PositionResult> = Vec::new();
    let mut i: usize = 0;
    while i < ps.len()
        invariant
            ps@ == window_positions(template@.len(), length as nat, params.resolution as nat),
            aligner.params_spec() == params.pairwise,
            fit_for(length as int, seqs_view(refs@)),
            match excl {
                Some(x) => excl_names@.len() == x@.len() && fit_for(length as int, seqs_view(x@)),
                None => true,
            },
            ex == match excl {
                Some(x) => Some(seqs_view(x@)),
                None => None::<Seq<Seq<u8>>>,
            },
            i <= ps@.len(),
            results@.len() == i,
            forall|k: int|
                0 <= k < i ==> position_result_ok(
                    #[trigger] results@[k],
                    template@,
                    seqs_view(refs@),
                    ex,
                    names_view(excl_names@),
                    *params,
                    ps@[k] as int,
                    length as int,
                ),
        decreases ps@.len() - i,
    {
        let pr = analyze_position(template, refs, excl, excl_names, params, ps[i], length as usize, &mut aligner);
        results.push(pr);
        i = i + 1;
    }
    LengthResult { oligo_length: length, positions: results }
}

fn to_bytes(s: &String) -> (r: Vec<u8>)
    ensures
        r@ == seq_bytes(*s),
{
    s.as_str().as_bytes_vec()
}

fn all_to_bytes(v: &Vec<String>) -> (r: Vec<Vec<u8>>)
    ensures
        seqs_view(r@) == all_bytes(v@),
{
    let mut out: Vec<Vec<u8>> = Vec::new();
    let mut k: usize = 0;
    while k < v.len()
        invariant
            k <= v@.len(),
            seqs_view(out@) == all_bytes(v@.subrange(0, k as int)),
        decreases v@.len() - k,
    {
        let b = to_bytes(&v[k]);
        let ghost before = seqs_view(out@);
        out.push(b);
        proof {
            assert(seqs_view(out@) =~= before.push(b@));
            assert(all_bytes(v@.subrange(0, k + 1)) =~= all_bytes(v@.subrange(0, k as int)).push(seq_bytes(v@[k as int])));
        }
        k = k + 1;
    }
    proof {
        assert(v@.subrange(0, v@.len() as int) =~= v@);
    }
    out
}

/// Every sequence of `set` fits an alignment with an oligo of the longest length of `params`.
pub open spec fn set_fits(set: ReferenceData, params: AnalysisParams) -> bool {
    fit_for(params.max_oligo_length as int, all_bytes(set.sequences@))
}

/// The whole screening run: for each oligo length from the minimum to the
/// maximum, the results of every window of that length.
pub fn run_screening(
    template: &TemplateData,
    references: &ReferenceData,
    params: &AnalysisParams,
    exclusivity: Option<&ReferenceData>,
) -> (r: ScreeningResults)
    requires
        params.min_oligo_length > 0,
        params.resolution > 0,
        set_fits(*references, *params),
        match exclusivity {
            Some(x) => x.names@.len() == x.sequences@.len() && set_fits(*x, *params),
            None => true,
        },
    ensures
        r.params == *params,
        r.template_length == seq_bytes(template.sequence).len(),
        r.template_sequence == template.sequence,
        r.total_sequences == references.sequences@.len(),
        r.differential_enabled == exclusivity is Some,
        r.exclusivity_sequence_count == match exclusivity {
            Some(x) => Some(x.sequences@.len() as usize),
            None => None,
        },
        forall|l: u32| #[trigger] r.results_by_length@.contains_key(l) <==> params.min_oligo_length <= l <= params.max_oligo_length,
        forall|l: u32|
            #[trigger] r.results_by_length@.contains_key(l) ==> length_result_ok(
                r.results_by_length@[l],
                seq_bytes(template.sequence),
                all_bytes(references.sequences@),
                match exclusivity {
                    Some(x) => Some(all_bytes(x.sequences@)),
                    None => None,
                },
                match exclusivity {
                    Some(x) => names_view(x.names@),
                    None => Seq::empty(),
                },
                *params,
                l,
            ),
{
    let tbytes = to_bytes(&template.sequence);
    let refs = all_to_bytes(&references.sequences);
    let empty_names: Vec<String> = Vec::new();
    let (excl_bytes, excl_names) = match exclusivity {
        Some(x) => (Some(all_to_bytes(&x.sequences)), &x.names),
        None => (None, &empty_names),
    };
    let ghost ex = match exclusivity {
        Some(x) => Some(all_bytes(x.sequences@)),
        None => None,
    };
    let ghost nv = match exclusivity {
        Some(x) => names_view(x.names@),
        None => Seq::empty(),
    };
    proof {
        match &excl_bytes {
            Some(x) => {
                let xs = exclusivity->0;
                assert(seqs_view(x@) == all_bytes(xs.sequences@));
                assert(seqs_view(x@).len() == x@.len());
                assert(excl_names@ == xs.names@);
                assert(ex->0 == all_bytes(xs.sequences@));
            },
            None => {},
        }
    }
    let mut by_length: BTreeMap<u32, LengthResult> = BTreeMap::new();
    let mut l: u64 = params.min_oligo_length as u64;
    while l <= params.max_oligo_length as u64
        invariant
            params.min_oligo_length > 0,
            params.resolution > 0,
            params.min_oligo_length <= l,
            seqs_view(refs@) == all_bytes(references.sequences@),
            tbytes@ == seq_bytes(template.sequence),
            set_fits(*references, *params),
            match excl_bytes {
                Some(x) => seqs_view(x@) == ex->0 && ex is Some && excl_names@.len() == x@.len()
                    && fit_for(params.max_oligo_length as int, seqs_view(x@)),
                None => ex is None,
            },
            names_view(excl_names@) == nv,
            forall|m: u32| #[trigger] by_length@.contains_key(m) <==> params.min_oligo_length <= m < l && m <= params.max_oligo_length,
            forall|m: u32|
                #[trigger] by_length@.contains_key(m) ==> length_result_ok(by_length@[m], tbytes@, seqs_view(refs@), ex, nv, *params, m),
        decreases params.max_oligo_length as u64 + 1 - l,
    {
        let length = l as u32;
        proof {
            assert forall|k: int| 0 <= k < seqs_view(refs@).len() implies length + (#[trigger] seqs_view(refs@)[k]).len() < MAX_ALIGN_LEN by {
                assert(params.max_oligo_length + all_bytes(references.sequences@)[k].len() < MAX_ALIGN_LEN);
            }
            match &excl_bytes {
                Some(x) => {
                    assert forall|k: int| 0 <= k < seqs_view(x@).len() implies length + (#[trigger] seqs_view(x@)[k]).len() < MAX_ALIGN_LEN by {
                        assert(params.max_oligo_length + seqs_view(x@)[k].len() < MAX_ALIGN_LEN);
                    }
                },
                None => {},
            }
        }
        let lr = match &excl_bytes {
            Some(x) => analyze_length(&tbytes, &refs, Some(x), excl_names, params, length),
            None => analyze_length(&tbytes, &refs, None, excl_names, params, length),
        };
        by_length.insert(length, lr);
        l = l + 1;
    }
    ScreeningResults {
        params: *params,
        template_length: tbytes.len(),
        total_sequences: references.len(),
        template_sequence: template.sequence.clone(),
        differential_enabled: exclusivity.is_some(),
        exclusivity_sequence_count: match exclusivity {
            Some(x) => Some(x.len()),
            None => None,
        },
        results_by_length: by_length,
    }
}

/// In every window result the variants and the no-matches together account
/// for each reference exactly once: the variant counts plus the no-match
/// count add up to the number of references.
pub proof fn lemma_window_accounts_for_all(
    r: WindowAnalysisResult,
    t: Seq<u8>,
    refs: Seq<Seq<u8>>,
    p: AnalysisParams,
    position: int,
    length: int,
)
    requires
        window_result_ok(r, t, refs, p, position, length),
    ensures
        total_count(variants_view(r.variants@)) + r.no_match_count == r.total_sequences,
{
    let matched = matched_regions(oligo(t, position, length), refs, p.pairwise);
    if !window_fits(t, position, length) || matched.len() == 0 {
        assert(variants_view(r.variants@) =~= Seq::empty());
    } else {
        crate::analyzer::lemma_variants_cover_all(matched, p.method, p.exclude_n);
    }
}

/// The buckets of every exclusivity result partition the off-target set:
/// their counts add up to the number of off-target sequences.
pub proof fn lemma_exclusivity_partitions(
    e: ExclusivityResult,
    t: Seq<u8>,
    excl: Seq<Seq<u8>>,
    names: Seq<Seq<char>>,
    pw: PairwiseParams,
    position: int,
    length: int,
)
    requires
        exclusivity_result_ok(e, t, excl, names, pw, position, length),
    ensures
        bucket_total(buckets_view(e.mismatch_histogram@)) == e.total_sequences,
{
    crate::exclusivity::lemma_histogram_partitions(mismatch_outcomes(oligo(t, position, length), excl, pw), names);
}

impl PositionResult {
    /// Finds again how many variants reach `threshold` (hundredths of a
    /// percent) of all references, keeping the variants; a skipped position
    /// stays as it is.
    pub fn recalculate_coverage_threshold(&mut self, threshold: u32)
        requires
            total_count(variants_view(old(self).analysis.variants@)) <= usize::MAX,
        ensures
            old(self).analysis.skipped ==> *final(self) == *old(self),
            !old(self).analysis.skipped ==> {
                let a = final(self).analysis;
                &&& final(self).position == old(self).position
                &&& final(self).exclusivity == old(self).exclusivity
                &&& a.variants == old(self).analysis.variants
                &&& a.total_sequences == old(self).analysis.total_sequences
                &&& a.sequences_analyzed == old(self).analysis.sequences_analyzed
                &&& a.no_match_count == old(self).analysis.no_match_count
                &&& a.skipped == old(self).analysis.skipped
                &&& a.skip_reason == old(self).analysis.skip_reason
                &&& a.variants_for_threshold == threshold_index(
                    variants_view(a.variants@),
                    a.total_sequences as int,
                    threshold as int,
                )
                &&& a.covered_at_threshold == prefix_count(variants_view(a.variants@), a.variants_for_threshold as int)
                &&& final(self).variants_needed == a.variants_for_threshold
            },
    {
        if self.analysis.skipped {
            return;
        }
        let (needed, covered) = crate::analyzer::variants_for_threshold(
            &self.analysis.variants,
            self.analysis.total_sequences,
            threshold,
        );
        self.analysis.variants_for_threshold = needed;
        self.analysis.covered_at_threshold = covered;
        self.variants_needed = needed;
    }
}

} // verus!
