//! Exclusivity scoring: how far the window is from each off-target sequence,
//! as a histogram of mismatch counts.

use vstd::prelude::*;
use crate::types::{ExclusivityResult, MismatchBucket};

verus! {

/// The key of the bucket that gathers the off-target sequences that did not match.
pub const NO_MATCH_KEY: u32 = 0xffff_ffff;

/// A histogram bucket as a mathematical value.
pub struct BucketV {
    pub mismatches: u32,
    pub count: int,
    pub example: Seq<char>,
}

impl MismatchBucket {
    pub open spec fn view(&self) -> BucketV {
        BucketV { mismatches: self.mismatches, count: self.count as int, example: self.example_name@ }
    }
}

pub open spec fn buckets_view(bs: Seq<MismatchBucket>) -> Seq<BucketV> {
    bs.map_values(|b: MismatchBucket| b.view())
}

/// Index of the first bucket whose key is at least `m`.
pub open spec fn bucket_pos(h: Seq<BucketV>, m: u32) -> int
    decreases h.len(),
{
    if h.len() == 0 {
        0
    } else {
        let i = bucket_pos(h.drop_last(), m);
        if i < h.len() - 1 {
            i
        } else if h.last().mismatches >= m {
            h.len() - 1
        } else {
            h.len() as int
        }
    }
}

/// `h` after one more sequence with `m` mismatches, named `name`: counted in
/// the bucket of `m`, or in a new bucket at its place by key.
pub open spec fn hist_add(h: Seq<BucketV>, m: u32, name: Seq<char>) -> Seq<BucketV> {
    let p = bucket_pos(h, m);
    if p < h.len() && h[p].mismatches == m {
        h.update(p, BucketV { mismatches: m, count: h[p].count + 1, example: h[p].example })
    } else {
        h.insert(p, BucketV { mismatches: m, count: 1, example: name })
    }
}

/// The buckets of the sequences that matched, by ascending mismatch count.
pub open spec fn matched_hist(outs: Seq<Option<u32>>, names: Seq<Seq<char>>) -> Seq<BucketV>
    decreases outs.len(),
{
    if outs.len() == 0 {
        Seq::empty()
    } else {
        let h = matched_hist(outs.drop_last(), names);
        match outs.last() {
            Some(m) => hist_add(h, m, names[outs.len() - 1]),
            None => h,
        }
    }
}

/// Number of sequences that did not match.
pub open spec fn no_match_total(outs: Seq<Option<u32>>) -> int
    decreases outs.len(),
{
    if outs.len() == 0 {
        0
    } else {
        no_match_total(outs.drop_last()) + if outs.last() is None {
            1int
        } else {
            0int
        }
    }
}

/// Index of the first sequence that did not match, or -1.
pub open spec fn first_no_match(outs: Seq<Option<u32>>) -> int
    decreases outs.len(),
{
    if outs.len() == 0 {
        -1
    } else {
        let i = first_no_match(outs.drop_last());
        if i >= 0 {
            i
        } else if outs.last() is None {
            outs.len() - 1
        } else {
            -1
        }
    }
}

/// The whole histogram: the matched buckets, then one bucket for the
/// sequences that did not match, if any.
pub open spec fn histogram(outs: Seq<Option<u32>>, names: Seq<Seq<char>>) -> Seq<BucketV> {
    if no_match_total(outs) > 0 {
        matched_hist(outs, names).push(
            BucketV { mismatches: NO_MATCH_KEY, count: no_match_total(outs), example: names[first_no_match(outs)] },
        )
    } else {
        matched_hist(outs, names)
    }
}

/// Sum of the counts of `h`.
pub open spec fn bucket_total(h: Seq<BucketV>) -> int
    decreases h.len(),
{
    if h.len() == 0 {
        0
    } else {
        bucket_total(h.drop_last()) + h.last().count
    }
}

pub open spec fn strictly_ascending(h: Seq<BucketV>) -> bool {
    forall|a: int, b: int| 0 <= a < b < h.len() ==> #[trigger] h[a].mismatches < #[trigger] h[b].mismatches
}

proof fn lemma_bucket_pos(h: Seq<BucketV>, m: u32)
    ensures
        0 <= bucket_pos(h, m) <= h.len(),
        forall|t: int| 0 <= t < bucket_pos(h, m) ==> (#[trigger] h[t]).mismatches < m,
        bucket_pos(h, m) < h.len() ==> h[bucket_pos(h, m)].mismatches >= m,
    decreases h.len(),
{
    if h.len() > 0 {
        let d = h.drop_last();
        lemma_bucket_pos(d, m);
        assert(forall|t: int| 0 <= t < d.len() ==> d[t] == h[t]);
    }
}

proof fn lemma_bucket_total_update(h: Seq<BucketV>, i: int, b: BucketV)
    requires
        0 <= i < h.len(),
    ensures
        bucket_total(h.update(i, b)) == bucket_total(h) - h[i].count + b.count,
    decreases h.len(),
{
    if i < h.len() - 1 {
        lemma_bucket_total_update(h.drop_last(), i, b);
        assert(h.update(i, b).drop_last() =~= h.drop_last().update(i, b));
    } else {
        assert(h.update(i, b).drop_last() =~= h.drop_last());
    }
}

proof fn lemma_bucket_total_insert(h: Seq<BucketV>, i: int, b: BucketV)
    requires
        0 <= i <= h.len(),
    ensures
        bucket_total(h.insert(i, b)) == bucket_total(h) + b.count,
    decreases h.len(),
{
    if i < h.len() {
        lemma_bucket_total_insert(h.drop_last(), i, b);
        assert(h.insert(i, b).drop_last() =~= h.drop_last().insert(i, b));
    } else {
        assert(h.insert(i, b).drop_last() =~= h);
    }
}

/// The matched buckets count every matched sequence once, with strictly
/// ascending keys.
pub proof fn lemma_matched_hist(outs: Seq<Option<u32>>, names: Seq<Seq<char>>)
    ensures
        bucket_total(matched_hist(outs, names)) + no_match_total(outs) == outs.len(),
        strictly_ascending(matched_hist(outs, names)),
        forall|t: int| 0 <= t < matched_hist(outs, names).len() ==> (#[trigger] matched_hist(outs, names)[t]).count >= 1,
        matched_hist(outs, names).len() <= outs.len(),
        no_match_total(outs) >= 0,
    decreases outs.len(),
{
    if outs.len() > 0 {
        let d = outs.drop_last();
        let h = matched_hist(d, names);
        lemma_matched_hist(d, names);
        match outs.last() {
            Some(m) => {
                lemma_bucket_pos(h, m);
                let p = bucket_pos(h, m);
                if p < h.len() && h[p].mismatches == m {
                    lemma_bucket_total_update(h, p, BucketV { mismatches: m, count: h[p].count + 1, example: h[p].example });
                } else {
                    let nb = BucketV { mismatches: m, count: 1, example: names[outs.len() - 1] };
                    lemma_bucket_total_insert(h, p, nb);
                    let h2 = h.insert(p, nb);
                    assert forall|a: int, b: int| 0 <= a < b < h2.len() implies #[trigger] h2[a].mismatches < #[trigger] h2[b].mismatches by {
                        if b < p {
                        } else if b == p {
                        } else if a < p {
                            assert(h2[b] == h[b - 1]);
                            assert(h[p].mismatches <= h[b - 1].mismatches || b - 1 == p);
                        } else if a == p {
                            assert(h2[b] == h[b - 1]);
                            if b - 1 > p {
                                assert(h[p].mismatches < h[b - 1].mismatches);
                            }
                        } else {
                            assert(h2[a] == h[a - 1]);
                            assert(h2[b] == h[b - 1]);
                        }
                    }
                    assert forall|t: int| 0 <= t < h2.len() implies (#[trigger] h2[t]).count >= 1 by {
                        if t > p {
                            assert(h2[t] == h[t - 1]);
                        }
                    }
                }
            },
            None => {},
        }
    }
}

/// The histogram buckets partition the off-target set: their counts add up
/// to the number of off-target sequences.
pub proof fn lemma_histogram_partitions(outs: Seq<Option<u32>>, names: Seq<Seq<char>>)
    ensures
        bucket_total(histogram(outs, names)) == outs.len(),
{
    lemma_matched_hist(outs, names);
    let h = matched_hist(outs, names);
    if no_match_total(outs) > 0 {
        let b = BucketV { mismatches: NO_MATCH_KEY, count: no_match_total(outs), example: names[first_no_match(outs)] };
        assert(h.push(b).drop_last() =~= h);
    }
}

pub open spec fn names_view(names: Seq<String>) -> Seq<Seq<char>> {
    names.map_values(|s: String| s@)
}

proof fn lemma_first_no_match(outs: Seq<Option<u32>>)
    ensures
        -1 <= first_no_match(outs) < outs.len(),
        no_match_total(outs) >= 0,
        no_match_total(outs) == 0 <==> first_no_match(outs) == -1,
    decreases outs.len(),
{
    if outs.len() > 0 {
        lemma_first_no_match(outs.drop_last());
    }
}

/// Where the bucket of `m` is, or goes, in `h`.
fn find_bucket(h: &Vec<MismatchBucket>, m: u32) -> (r: usize)
    ensures
        r == bucket_pos(buckets_view(h@), m),
{
    let ghost hv = buckets_view(h@);
    let mut t: usize = 0;
    while t < h.len() && h[t].mismatches < m
        invariant
            hv == buckets_view(h@),
            t <= h@.len(),
            forall|u: int| 0 <= u < t ==> (#[trigger] h@[u]).mismatches < m,
        decreases h@.len() - t,
    {
        t = t + 1;
    }
    proof {
        lemma_bucket_pos(hv, m);
        let p = bucket_pos(hv, m);
        if p < t {
            assert(hv[p].mismatches == h@[p].mismatches);
        }
        if p > t {
            assert(hv[t as int].mismatches == h@[t as int].mismatches);
        }
    }
    t
}

/// The exclusivity result of one window from the outcome of each off-target
/// sequence (its mismatches, or `None` for no match) and their names.
pub fn exclusivity_histogram(outs: &Vec<Option<u32>>, names: &Vec<String>) -> (r: ExclusivityResult)
    requires
        names@.len() == outs@.len(),
    ensures
        buckets_view(r.mismatch_histogram@) == histogram(outs@, names_view(names@)),
        r.total_sequences == outs@.len(),
        r.no_match_count == no_match_total(outs@),
        r.min_mismatches == if matched_hist(outs@, names_view(names@)).len() > 0 {
            Some(matched_hist(outs@, names_view(names@))[0].mismatches)
        } else {
            None
        },
{
    let ghost nv = names_view(names@);
    let mut h: Vec<MismatchBucket> = Vec::new();
    let mut nm: usize = 0;
    let mut example = String::new();
    let mut k: usize = 0;
    while k < outs.len()
        invariant
            nv == names_view(names@),
            names@.len() == outs@.len(),
            k <= outs@.len(),
            buckets_view(h@) == matched_hist(outs@.subrange(0, k as int), nv),
            nm == no_match_total(outs@.subrange(0, k as int)),
            nm > 0 ==> example@ == nv[first_no_match(outs@.subrange(0, k as int))],
        decreases outs@.len() - k,
    {
        let ghost pre = outs@.subrange(0, k as int);
        let ghost next = outs@.subrange(0, k + 1);
        proof {
            assert(next.drop_last() == pre);
            assert(next.last() == outs@[k as int]);
            lemma_matched_hist(pre, nv);
            lemma_bucket_total_nonneg(matched_hist(pre, nv));
            lemma_first_no_match(pre);
            assert(nv[k as int] == names@[k as int]@);
        }
        match outs[k] {
            Some(m) => {
                let ghost hv = buckets_view(h@);
                let p = find_bucket(&h, m);
                proof {
                    lemma_bucket_pos(hv, m);
                }
                if p < h.len() && h[p].mismatches == m {
                    proof {
                        assert(hv[p as int].count == h@[p as int].count);
                        assert(hv[p as int].count <= bucket_total(hv)) by {
                            lemma_bucket_le_total(hv, p as int);
                        }
                    }
                    let b = MismatchBucket { mismatches: m, count: h[p].count + 1, example_name: h[p].example_name.clone() };
                    h.set(p, b);
                    proof {
                        assert(buckets_view(h@) =~= hv.update(p as int, b.view()));
                    }
                } else {
                    let b = MismatchBucket { mismatches: m, count: 1, example_name: names[k].clone() };
                    h.insert(p, b);
                    proof {
                        assert(buckets_view(h@) =~= hv.insert(p as int, b.view()));
                    }
                }
                proof {
                    lemma_first_no_match(next);
                }
            },
            None => {
                if nm == 0 {
                    example = names[k].clone();
                }
                nm = nm + 1;
                proof {
                    lemma_first_no_match(next);
                }
            },
        }
        k = k + 1;
    }
    proof {
        assert(outs@.subrange(0, outs@.len() as int) == outs@);
        lemma_first_no_match(outs@);
    }
    let min_mismatches = if h.len() > 0 {
        Some(h[0].mismatches)
    } else {
        None
    };
    proof {
        if h@.len() > 0 {
            assert(buckets_view(h@)[0].mismatches == h@[0].mismatches);
        }
    }
    if nm > 0 {
        let ghost hv = buckets_view(h@);
        let b = MismatchBucket { mismatches: NO_MATCH_KEY, count: nm, example_name: example };
        h.push(b);
        proof {
            assert(buckets_view(h@) =~= hv.push(b.view()));
        }
    }
    ExclusivityResult { total_sequences: outs.len(), no_match_count: nm, mismatch_histogram: h, min_mismatches }
}

proof fn lemma_bucket_le_total(h: Seq<BucketV>, i: int)
    requires
        0 <= i < h.len(),
        forall|t: int| 0 <= t < h.len() ==> (#[trigger] h[t]).count >= 1,
    ensures
        h[i].count <= bucket_total(h),
    decreases h.len(),
{
    let d = h.drop_last();
    assert(forall|t: int| 0 <= t < d.len() ==> d[t] == h[t]);
    lemma_bucket_total_nonneg(d);
    if i < h.len() - 1 {
        lemma_bucket_le_total(d, i);
    }
}

proof fn lemma_bucket_total_nonneg(h: Seq<BucketV>)
    requires
        forall|t: int| 0 <= t < h.len() ==> (#[trigger] h[t]).count >= 1,
    ensures
        bucket_total(h) >= 0,
    decreases h.len(),
{
    if h.len() > 0 {
        let d = h.drop_last();
        assert(forall|t: int| 0 <= t < d.len() ==> d[t] == h[t]);
        lemma_bucket_total_nonneg(d);
    }
}

proof fn lemma_hist_has_observed(outs: Seq<Option<u32>>, names: Seq<Seq<char>>)
    ensures
        forall|k: int|
            0 <= k < outs.len() && (#[trigger] outs[k]) is Some ==> exists|b: int|
                0 <= b < matched_hist(outs, names).len() && matched_hist(outs, names)[b].mismatches == outs[k]->0,
    decreases outs.len(),
{
    if outs.len() > 0 {
        let d = outs.drop_last();
        let h = matched_hist(d, names);
        let h2 = matched_hist(outs, names);
        lemma_hist_has_observed(d, names);
        assert forall|k: int| 0 <= k < outs.len() && (#[trigger] outs[k]) is Some implies exists|b: int|
            0 <= b < h2.len() && h2[b].mismatches == outs[k]->0 by {
            let m = outs.last();
            if k < d.len() {
                assert(outs[k] == d[k]);
                let b = choose|b: int| 0 <= b < h.len() && h[b].mismatches == d[k]->0;
                if m is Some {
                    let mm = m->0;
                    lemma_bucket_pos(h, mm);
                    let p = bucket_pos(h, mm);
                    if p < h.len() && h[p].mismatches == mm {
                        assert(h2[b].mismatches == h[b].mismatches);
                    } else if b < p {
                        assert(h2[b] == h[b]);
                    } else {
                        assert(h2[b + 1] == h[b]);
                    }
                } else {
                    assert(h2 == h);
                }
            } else {
                let mm = m->0;
                lemma_bucket_pos(h, mm);
                let p = bucket_pos(h, mm);
                assert(h2[p].mismatches == mm);
            }
        }
    }
}

proof fn lemma_hist_keys_observed(outs: Seq<Option<u32>>, names: Seq<Seq<char>>)
    ensures
        forall|b: int|
            0 <= b < matched_hist(outs, names).len() ==> exists|k: int|
                0 <= k < outs.len() && outs[k] == Some(#[trigger] matched_hist(outs, names)[b].mismatches),
    decreases outs.len(),
{
    if outs.len() > 0 {
        let d = outs.drop_last();
        let h = matched_hist(d, names);
        let h2 = matched_hist(outs, names);
        lemma_hist_keys_observed(d, names);
        assert forall|b: int| 0 <= b < h2.len() implies exists|k: int|
            0 <= k < outs.len() && outs[k] == Some(#[trigger] h2[b].mismatches) by {
            let m = outs.last();
            if m is Some {
                let mm = m->0;
                lemma_bucket_pos(h, mm);
                let p = bucket_pos(h, mm);
                if p < h.len() && h[p].mismatches == mm {
                    assert(h2[b].mismatches == h[b].mismatches);
                    let k = choose|k: int| 0 <= k < d.len() && d[k] == Some(h[b].mismatches);
                    assert(outs[k] == d[k]);
                } else if b == p {
                    assert(outs[outs.len() - 1] == Some(mm));
                } else {
                    let hb = if b < p { b } else { b - 1 };
                    assert(h2[b] == h[hb]);
                    let k = choose|k: int| 0 <= k < d.len() && d[k] == Some(h[hb].mismatches);
                    assert(outs[k] == d[k]);
                }
            } else {
                assert(h2 == h);
                let k = choose|k: int| 0 <= k < d.len() && d[k] == Some(h[b].mismatches);
                assert(outs[k] == d[k]);
            }
        }
    }
}

/// The first matched bucket holds the smallest mismatch count observed: some
/// off-target sequence has exactly that many mismatches and every matched one
/// has at least as many; and there is a matched bucket exactly when some
/// off-target sequence matched.
pub proof fn lemma_min_mismatches(outs: Seq<Option<u32>>, names: Seq<Seq<char>>)
    ensures
        matched_hist(outs, names).len() > 0 <==> exists|k: int| 0 <= k < outs.len() && (#[trigger] outs[k]) is Some,
        matched_hist(outs, names).len() > 0 ==> {
            let m = matched_hist(outs, names)[0].mismatches;
            &&& exists|k: int| 0 <= k < outs.len() && #[trigger] outs[k] == Some(m)
            &&& forall|k: int| 0 <= k < outs.len() && (#[trigger] outs[k]) is Some ==> m <= outs[k]->0
        },
{
    lemma_hist_has_observed(outs, names);
    lemma_hist_keys_observed(outs, names);
    lemma_matched_hist(outs, names);
    let h = matched_hist(outs, names);
    if h.len() > 0 {
        let k0 = choose|k: int| 0 <= k < outs.len() && outs[k] == Some(h[0].mismatches);
        assert(outs[k0] is Some);
        assert forall|k: int| 0 <= k < outs.len() && (#[trigger] outs[k]) is Some implies h[0].mismatches <= outs[k]->0 by {
            let b = choose|b: int| 0 <= b < h.len() && h[b].mismatches == outs[k]->0;
            if b > 0 {
                assert(h[0].mismatches < h[b].mismatches);
            }
        }
    } else {
        assert forall|k: int| 0 <= k < outs.len() implies !((#[trigger] outs[k]) is Some) by {
            if outs[k] is Some {
                let b = choose|b: int| 0 <= b < h.len() && h[b].mismatches == outs[k]->0;
            }
        }
    }
}

} // verus!
