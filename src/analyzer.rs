//! Variant consensus: turns the matched window sequences of one position into
//! a list of variants by descending count, and finds how many of them reach
//! the coverage threshold.

use vstd::prelude::*;
use crate::ambiguity::{compatible, try_merge};
use crate::types::{AnalysisMethod, Variant, WindowAnalysisResult};

verus! {

/// A variant as a mathematical value.
pub struct VariantV {
    pub sequence: Seq<u8>,
    pub count: int,
}

impl Variant {
    pub open spec fn view(&self) -> VariantV {
        VariantV { sequence: self.sequence@, count: self.count as int }
    }
}

pub open spec fn variants_view(vs: Seq<Variant>) -> Seq<VariantV> {
    vs.map_values(|v: Variant| v.view())
}

/// Sum of the counts of `vs`.
pub open spec fn total_count(vs: Seq<VariantV>) -> int
    decreases vs.len(),
{
    if vs.len() == 0 {
        0
    } else {
        total_count(vs.drop_last()) + vs.last().count
    }
}

/// Sum of the counts of the first `k` variants.
pub open spec fn prefix_count(vs: Seq<VariantV>, k: int) -> int {
    total_count(vs.subrange(0, k))
}

/// Index of the first variant whose sequence is `s`, or -1.
pub open spec fn index_of(vs: Seq<VariantV>, s: Seq<u8>) -> int
    decreases vs.len(),
{
    if vs.len() == 0 {
        -1
    } else {
        let i = index_of(vs.drop_last(), s);
        if i >= 0 {
            i
        } else if vs.last().sequence == s {
            vs.len() - 1
        } else {
            -1
        }
    }
}

/// The distinct sequences of `seqs` in order of first appearance, each with
/// the number of times it occurs.
pub open spec fn group_exact(seqs: Seq<Seq<u8>>) -> Seq<VariantV>
    decreases seqs.len(),
{
    if seqs.len() == 0 {
        Seq::empty()
    } else {
        let g = group_exact(seqs.drop_last());
        let i = index_of(g, seqs.last());
        if i >= 0 {
            g.update(i, VariantV { sequence: seqs.last(), count: g[i].count + 1 })
        } else {
            g.push(VariantV { sequence: seqs.last(), count: 1 })
        }
    }
}

/// Where a variant of count `c` goes in a list by descending count: before
/// the first variant of a smaller count.
pub open spec fn insert_pos(vs: Seq<VariantV>, c: int) -> int
    decreases vs.len(),
{
    if vs.len() == 0 {
        0
    } else {
        let i = insert_pos(vs.drop_last(), c);
        if i < vs.len() - 1 {
            i
        } else if vs.last().count < c {
            vs.len() - 1
        } else {
            vs.len() as int
        }
    }
}

/// `vs` ordered by descending count, variants of equal count in their order in `vs`.
pub open spec fn sort_desc(vs: Seq<VariantV>) -> Seq<VariantV>
    decreases vs.len(),
{
    if vs.len() == 0 {
        Seq::empty()
    } else {
        let s = sort_desc(vs.drop_last());
        s.insert(insert_pos(s, vs.last().count), vs.last())
    }
}

proof fn lemma_index_of(vs: Seq<VariantV>, s: Seq<u8>)
    ensures
        -1 <= index_of(vs, s) < vs.len(),
        index_of(vs, s) == -1 ==> forall|t: int| 0 <= t < vs.len() ==> vs[t].sequence != s,
        index_of(vs, s) >= 0 ==> vs[index_of(vs, s)].sequence == s && forall|t: int|
            0 <= t < index_of(vs, s) ==> vs[t].sequence != s,
    decreases vs.len(),
{
    if vs.len() > 0 {
        let d = vs.drop_last();
        lemma_index_of(d, s);
        assert(forall|t: int| 0 <= t < d.len() ==> d[t] == vs[t]);
    }
}

proof fn lemma_insert_pos(vs: Seq<VariantV>, c: int)
    ensures
        0 <= insert_pos(vs, c) <= vs.len(),
        forall|t: int| 0 <= t < insert_pos(vs, c) ==> vs[t].count >= c,
        insert_pos(vs, c) < vs.len() ==> vs[insert_pos(vs, c)].count < c,
    decreases vs.len(),
{
    if vs.len() > 0 {
        let d = vs.drop_last();
        lemma_insert_pos(d, c);
        assert(forall|t: int| 0 <= t < d.len() ==> d[t] == vs[t]);
    }
}

proof fn lemma_total_push(vs: Seq<VariantV>, v: VariantV)
    ensures
        total_count(vs.push(v)) == total_count(vs) + v.count,
{
    assert(vs.push(v).drop_last() =~= vs);
}

proof fn lemma_total_update(vs: Seq<VariantV>, i: int, v: VariantV)
    requires
        0 <= i < vs.len(),
    ensures
        total_count(vs.update(i, v)) == total_count(vs) - vs[i].count + v.count,
    decreases vs.len(),
{
    if i < vs.len() - 1 {
        lemma_total_update(vs.drop_last(), i, v);
        assert(vs.update(i, v).drop_last() =~= vs.drop_last().update(i, v));
    } else {
        assert(vs.update(i, v).drop_last() =~= vs.drop_last());
    }
}

proof fn lemma_total_insert(vs: Seq<VariantV>, i: int, v: VariantV)
    requires
        0 <= i <= vs.len(),
    ensures
        total_count(vs.insert(i, v)) == total_count(vs) + v.count,
    decreases vs.len(),
{
    if i < vs.len() {
        lemma_total_insert(vs.drop_last(), i, v);
        assert(vs.insert(i, v).drop_last() =~= vs.drop_last().insert(i, v));
    } else {
        assert(vs.insert(i, v).drop_last() =~= vs);
    }
}

/// Sorting keeps the total count.
pub proof fn lemma_sort_total(vs: Seq<VariantV>)
    ensures
        total_count(sort_desc(vs)) == total_count(vs),
        sort_desc(vs).len() == vs.len(),
    decreases vs.len(),
{
    if vs.len() > 0 {
        let s = sort_desc(vs.drop_last());
        lemma_sort_total(vs.drop_last());
        lemma_insert_pos(s, vs.last().count);
        lemma_total_insert(s, insert_pos(s, vs.last().count), vs.last());
    }
}

/// Grouping counts every sequence exactly once, and every group is non-empty.
pub proof fn lemma_group_total(seqs: Seq<Seq<u8>>)
    ensures
        total_count(group_exact(seqs)) == seqs.len(),
        group_exact(seqs).len() <= seqs.len(),
        forall|t: int| 0 <= t < group_exact(seqs).len() ==> 1 <= #[trigger] group_exact(seqs)[t].count <= seqs.len(),
    decreases seqs.len(),
{
    if seqs.len() > 0 {
        let g = group_exact(seqs.drop_last());
        lemma_group_total(seqs.drop_last());
        lemma_index_of(g, seqs.last());
        let i = index_of(g, seqs.last());
        if i >= 0 {
            lemma_total_update(g, i, VariantV { sequence: seqs.last(), count: g[i].count + 1 });
        } else {
            lemma_total_push(g, VariantV { sequence: seqs.last(), count: 1 });
        }
    }
}

/// The two byte strings are equal.
pub fn same_bytes(a: &Vec<u8>, b: &Vec<u8>) -> (r: bool)
    ensures
        r == (a@ == b@),
{
    if a.len() != b.len() {
        return false;
    }
    let mut k: usize = 0;
    while k < a.len()
        invariant
            a@.len() == b@.len(),
            k <= a@.len(),
            forall|t: int| 0 <= t < k ==> a@[t] == b@[t],
        decreases a@.len() - k,
    {
        if a[k] != b[k] {
            return false;
        }
        k = k + 1;
    }
    proof {
        assert(a@ =~= b@);
    }
    true
}

/// Index of the first variant whose sequence is `s`, if any.
fn find_variant(vs: &Vec<Variant>, s: &Vec<u8>) -> (r: Option<usize>)
    ensures
        match r {
            Some(i) => i < vs@.len() && index_of(variants_view(vs@), s@) == i,
            None => index_of(variants_view(vs@), s@) == -1,
        },
{
    proof {
        lemma_index_of(variants_view(vs@), s@);
    }
    let mut k: usize = 0;
    while k < vs.len()
        invariant
            k <= vs@.len(),
            forall|t: int| 0 <= t < k ==> (#[trigger] vs@[t]).sequence@ != s@,
        decreases vs@.len() - k,
    {
        if same_bytes(&vs[k].sequence, s) {
            proof {
                let vv = variants_view(vs@);
                lemma_index_of(vv, s@);
                assert(vv[k as int].sequence == s@);
                assert forall|t: int| 0 <= t < k implies vv[t].sequence != s@ by {
                    assert(vv[t].sequence == vs@[t].sequence@);
                }
                let i = index_of(vv, s@);
                if i == -1 {
                    assert(vv[k as int].sequence != s@);
                }
                if 0 <= i < k {
                    assert(vv[i].sequence != s@);
                }
                if i > k {
                    assert(vv[k as int].sequence != s@);
                }
            }
            return Some(k);
        }
        k = k + 1;
    }
    proof {
        let vv = variants_view(vs@);
        assert forall|t: int| 0 <= t < vv.len() implies vv[t].sequence != s@ by {
            assert(vv[t].sequence == vs@[t].sequence@);
        }
    }
    None
}

/// The distinct sequences of `seqs` in order of first appearance, with their
/// number of occurrences.
pub fn group_sequences(seqs: &Vec<Vec<u8>>) -> (r: Vec<Variant>)
    ensures
        variants_view(r@) == group_exact(crate::pairwise::seqs_view(seqs@)),
{
    let ghost all = crate::pairwise::seqs_view(seqs@);
    let mut groups: Vec<Variant> = Vec::new();
    let mut k: usize = 0;
    while k < seqs.len()
        invariant
            all == crate::pairwise::seqs_view(seqs@),
            k <= seqs@.len(),
            variants_view(groups@) == group_exact(all.subrange(0, k as int)),
        decreases seqs@.len() - k,
    {
        proof {
            assert(all.subrange(0, k + 1).drop_last() == all.subrange(0, k as int));
            lemma_group_total(all.subrange(0, k as int));
        }
        let s = &seqs[k];
        match find_variant(&groups, s) {
            Some(i) => {
                proof {
                    assert(variants_view(groups@)[i as int].count == groups@[i as int].count);
                }
                let c = groups[i].count;
                let v = Variant { sequence: s.clone(), count: c + 1 };
                groups.set(i, v);
                proof {
                    assert(variants_view(groups@) =~= group_exact(all.subrange(0, k + 1)));
                }
            },
            None => {
                groups.push(Variant { sequence: s.clone(), count: 1 });
                proof {
                    assert(variants_view(groups@) =~= group_exact(all.subrange(0, k + 1)));
                }
            },
        }
        k = k + 1;
    }
    proof {
        assert(all.subrange(0, seqs@.len() as int) == all);
    }
    groups
}

/// The first `k` variants cover at least `threshold` hundredths of a percent of `denominator`.
pub open spec fn reaches(vs: Seq<VariantV>, k: int, denominator: int, threshold: int) -> bool {
    prefix_count(vs, k) * 10000 >= threshold * denominator
}

/// The smallest `k >= from` at which the first `k` variants reach the
/// threshold, or the number of variants when none does.
pub open spec fn first_reaching(vs: Seq<VariantV>, denominator: int, threshold: int, from: int) -> int
    decreases vs.len() - from,
{
    if from >= vs.len() {
        vs.len() as int
    } else if reaches(vs, from, denominator, threshold) {
        from
    } else {
        first_reaching(vs, denominator, threshold, from + 1)
    }
}

/// How many variants, taken in order, are needed to reach the threshold.
pub open spec fn threshold_index(vs: Seq<VariantV>, denominator: int, threshold: int) -> int {
    first_reaching(vs, denominator, threshold, 0)
}

proof fn lemma_first_reaching(vs: Seq<VariantV>, denominator: int, threshold: int, from: int)
    requires
        0 <= from <= vs.len(),
    ensures
        from <= first_reaching(vs, denominator, threshold, from) <= vs.len(),
        first_reaching(vs, denominator, threshold, from) == vs.len() || reaches(
            vs,
            first_reaching(vs, denominator, threshold, from),
            denominator,
            threshold,
        ),
        forall|k: int|
            from <= k < first_reaching(vs, denominator, threshold, from) ==> !#[trigger] reaches(
                vs,
                k,
                denominator,
                threshold,
            ),
    decreases vs.len() - from,
{
    if from < vs.len() && !reaches(vs, from, denominator, threshold) {
        lemma_first_reaching(vs, denominator, threshold, from + 1);
    }
}

/// The number of variants needed for a threshold is the smallest `k` whose
/// first `k` variants reach it, or all of them when no prefix does.
pub proof fn lemma_threshold_index_minimal(vs: Seq<VariantV>, denominator: int, threshold: int)
    ensures
        0 <= threshold_index(vs, denominator, threshold) <= vs.len(),
        threshold_index(vs, denominator, threshold) == vs.len() || reaches(
            vs,
            threshold_index(vs, denominator, threshold),
            denominator,
            threshold,
        ),
        forall|k: int|
            0 <= k < threshold_index(vs, denominator, threshold) ==> !#[trigger] reaches(
                vs,
                k,
                denominator,
                threshold,
            ),
{
    lemma_first_reaching(vs, denominator, threshold, 0);
}

proof fn lemma_prefix_step(vs: Seq<VariantV>, k: int)
    requires
        0 <= k < vs.len(),
    ensures
        prefix_count(vs, k + 1) == prefix_count(vs, k) + vs[k].count,
{
    assert(vs.subrange(0, k + 1).drop_last() =~= vs.subrange(0, k));
}

proof fn lemma_prefix_le_total(vs: Seq<VariantV>, k: int)
    requires
        0 <= k <= vs.len(),
        forall|t: int| 0 <= t < vs.len() ==> (#[trigger] vs[t]).count >= 0,
    ensures
        0 <= prefix_count(vs, k) <= total_count(vs),
    decreases vs.len() - k,
{
    let sub = vs.subrange(0, k);
    assert(forall|t: int| 0 <= t < sub.len() ==> sub[t] == vs[t]);
    lemma_total_nonneg(sub);
    if k < vs.len() {
        lemma_prefix_step(vs, k);
        lemma_prefix_le_total(vs, k + 1);
    } else {
        assert(vs.subrange(0, k) =~= vs);
        lemma_total_nonneg(vs);
    }
}

proof fn lemma_total_nonneg(vs: Seq<VariantV>)
    requires
        forall|t: int| 0 <= t < vs.len() ==> (#[trigger] vs[t]).count >= 0,
    ensures
        total_count(vs) >= 0,
    decreases vs.len(),
{
    if vs.len() > 0 {
        let d = vs.drop_last();
        assert(forall|t: int| 0 <= t < d.len() ==> d[t] == vs[t]);
        lemma_total_nonneg(d);
    }
}

/// How many of `vs`, taken in order, reach `threshold` hundredths of a
/// percent of `denominator`, and how many sequences those cover.
pub fn variants_for_threshold(vs: &Vec<Variant>, denominator: usize, threshold: u32) -> (r: (usize, usize))
    requires
        total_count(variants_view(vs@)) <= usize::MAX,
    ensures
        r.0 == threshold_index(variants_view(vs@), denominator as int, threshold as int),
        r.1 == prefix_count(variants_view(vs@), r.0 as int),
{
    let ghost vv = variants_view(vs@);
    proof {
        lemma_first_reaching(vv, denominator as int, threshold as int, 0);
    }
    let mut k: usize = 0;
    let mut cum: usize = 0;
    proof {
        let (a, b) = (threshold as int, denominator as int);
        assert(a * b <= 0xffff_ffff * 0xffff_ffff_ffff_ffff) by (nonlinear_arith)
            requires 0 <= a <= 0xffff_ffff, 0 <= b <= 0xffff_ffff_ffff_ffff;
    }
    let goal: u128 = threshold as u128 * denominator as u128;
    while k < vs.len()
        invariant
            vv == variants_view(vs@),
            total_count(vv) <= usize::MAX,
            goal == threshold as int * denominator as int,
            k <= vs@.len(),
            cum == prefix_count(vv, k as int),
            first_reaching(vv, denominator as int, threshold as int, k as int) == threshold_index(
                vv,
                denominator as int,
                threshold as int,
            ),
        decreases vs@.len() - k,
    {
        if cum as u128 * 10000 >= goal {
            return (k, cum);
        }
        proof {
            lemma_prefix_step(vv, k as int);
            assert forall|t: int| 0 <= t < vv.len() implies (#[trigger] vv[t]).count >= 0 by {
                assert(vv[t].count == vs@[t].count);
            }
            lemma_prefix_le_total(vv, k + 1);
            assert(vv[k as int].count == vs@[k as int].count);
        }
        cum = cum + vs[k].count;
        k = k + 1;
    }
    (k, cum)
}

/// Moves `v` into `out`, a list by descending count, after every variant of
/// at least its count.
fn insert_sorted(out: &mut Vec<Variant>, v: Variant)
    ensures
        variants_view(final(out)@) == variants_view(old(out)@).insert(
            insert_pos(variants_view(old(out)@), v.count as int),
            v.view(),
        ),
{
    let ghost ov = variants_view(out@);
    proof {
        lemma_insert_pos(ov, v.count as int);
    }
    let mut t: usize = 0;
    while t < out.len() && out[t].count >= v.count
        invariant
            ov == variants_view(out@),
            t <= out@.len(),
            forall|u: int| 0 <= u < t ==> (#[trigger] out@[u]).count >= v.count,
        decreases out@.len() - t,
    {
        t = t + 1;
    }
    proof {
        let ip = insert_pos(ov, v.count as int);
        lemma_insert_pos(ov, v.count as int);
        if ip < t {
            assert(ov[ip].count == out@[ip].count);
        }
        if ip > t {
            assert(ov[t as int].count == out@[t as int].count);
        }
    }
    out.insert(t, v);
    proof {
        assert(variants_view(out@) =~= ov.insert(t as int, v.view()));
    }
}

/// `vs` by descending count, variants of equal count in their order in `vs`.
pub fn sort_variants(vs: Vec<Variant>) -> (r: Vec<Variant>)
    ensures
        variants_view(r@) == sort_desc(variants_view(vs@)),
{
    let ghost vv = variants_view(vs@);
    let mut out: Vec<Variant> = Vec::new();
    let mut k: usize = 0;
    while k < vs.len()
        invariant
            vv == variants_view(vs@),
            k <= vs@.len(),
            variants_view(out@) == sort_desc(vv.subrange(0, k as int)),
        decreases vs@.len() - k,
    {
        let v = Variant { sequence: vs[k].sequence.clone(), count: vs[k].count };
        proof {
            assert(vv.subrange(0, k + 1).drop_last() == vv.subrange(0, k as int));
            assert(v.view() == vv[k as int]);
        }
        insert_sorted(&mut out, v);
        k = k + 1;
    }
    proof {
        assert(vv.subrange(0, vs@.len() as int) == vv);
    }
    out
}

/// Index of the first variant of `vs` that `s` merges into, or -1.
pub open spec fn first_compatible(vs: Seq<VariantV>, s: Seq<u8>, limit: Option<u32>, exclude_n: bool) -> int
    decreases vs.len(),
{
    if vs.len() == 0 {
        -1
    } else {
        let i = first_compatible(vs.drop_last(), s, limit, exclude_n);
        if i >= 0 {
            i
        } else if compatible(vs.last().sequence, s, limit, exclude_n) is Some {
            vs.len() - 1
        } else {
            -1
        }
    }
}

/// `g` merged into the first variant of `vs` that takes it, or added at the end.
pub open spec fn absorb(vs: Seq<VariantV>, g: VariantV, limit: Option<u32>, exclude_n: bool) -> Seq<VariantV> {
    let i = first_compatible(vs, g.sequence, limit, exclude_n);
    if i >= 0 {
        vs.update(
            i,
            VariantV {
                sequence: compatible(vs[i].sequence, g.sequence, limit, exclude_n)->0,
                count: vs[i].count + g.count,
            },
        )
    } else {
        vs.push(g)
    }
}

/// The groups `gs`, in order, each merged into the first earlier variant that takes it.
pub open spec fn merge_fold(gs: Seq<VariantV>, limit: Option<u32>, exclude_n: bool) -> Seq<VariantV>
    decreases gs.len(),
{
    if gs.len() == 0 {
        Seq::empty()
    } else {
        absorb(merge_fold(gs.drop_last(), limit, exclude_n), gs.last(), limit, exclude_n)
    }
}

proof fn lemma_first_compatible(vs: Seq<VariantV>, s: Seq<u8>, limit: Option<u32>, exclude_n: bool)
    ensures
        -1 <= first_compatible(vs, s, limit, exclude_n) < vs.len(),
        first_compatible(vs, s, limit, exclude_n) == -1 ==> forall|t: int|
            0 <= t < vs.len() ==> compatible(#[trigger] vs[t].sequence, s, limit, exclude_n) is None,
        first_compatible(vs, s, limit, exclude_n) >= 0 ==> compatible(
            vs[first_compatible(vs, s, limit, exclude_n)].sequence,
            s,
            limit,
            exclude_n,
        ) is Some && forall|t: int|
            0 <= t < first_compatible(vs, s, limit, exclude_n) ==> compatible(
                #[trigger] vs[t].sequence,
                s,
                limit,
                exclude_n,
            ) is None,
    decreases vs.len(),
{
    if vs.len() > 0 {
        let d = vs.drop_last();
        lemma_first_compatible(d, s, limit, exclude_n);
        assert(forall|t: int| 0 <= t < d.len() ==> d[t] == vs[t]);
    }
}

proof fn lemma_view_nonneg(vs: Seq<Variant>)
    ensures
        forall|t: int| 0 <= t < vs.len() ==> (#[trigger] variants_view(vs)[t]).count >= 0,
{
    assert forall|t: int| 0 <= t < vs.len() implies (#[trigger] variants_view(vs)[t]).count >= 0 by {
        assert(variants_view(vs)[t].count == vs[t].count);
    }
}

proof fn lemma_count_le_total(vs: Seq<VariantV>, i: int)
    requires
        0 <= i < vs.len(),
        forall|t: int| 0 <= t < vs.len() ==> (#[trigger] vs[t]).count >= 0,
    ensures
        vs[i].count <= total_count(vs),
    decreases vs.len(),
{
    let d = vs.drop_last();
    assert(forall|t: int| 0 <= t < d.len() ==> d[t] == vs[t]);
    lemma_total_nonneg(d);
    if i < vs.len() - 1 {
        lemma_count_le_total(d, i);
    }
}

/// Merging keeps the total count.
pub proof fn lemma_merge_fold_total(gs: Seq<VariantV>, limit: Option<u32>, exclude_n: bool)
    ensures
        total_count(merge_fold(gs, limit, exclude_n)) == total_count(gs),
    decreases gs.len(),
{
    if gs.len() > 0 {
        let vs = merge_fold(gs.drop_last(), limit, exclude_n);
        lemma_merge_fold_total(gs.drop_last(), limit, exclude_n);
        lemma_first_compatible(vs, gs.last().sequence, limit, exclude_n);
        let i = first_compatible(vs, gs.last().sequence, limit, exclude_n);
        if i >= 0 {
            lemma_total_update(
                vs,
                i,
                VariantV {
                    sequence: compatible(vs[i].sequence, gs.last().sequence, limit, exclude_n)->0,
                    count: vs[i].count + gs.last().count,
                },
            );
        } else {
            lemma_total_push(vs, gs.last());
        }
    }
}

fn copy_variant(v: &Variant) -> (r: Variant)
    ensures
        r.view() == v.view(),
{
    Variant { sequence: v.sequence.clone(), count: v.count }
}

/// `groups`, in order, each merged into the first earlier variant that takes
/// it under the ambiguity limit and the `exclude_n` rule.
pub fn merge_groups(groups: &Vec<Variant>, limit: Option<u32>, exclude_n: bool) -> (r: Vec<Variant>)
    requires
        total_count(variants_view(groups@)) <= usize::MAX,
    ensures
        variants_view(r@) == merge_fold(variants_view(groups@), limit, exclude_n),
{
    let ghost gv = variants_view(groups@);
    let mut out: Vec<Variant> = Vec::new();
    let mut k: usize = 0;
    while k < groups.len()
        invariant
            gv == variants_view(groups@),
            total_count(gv) <= usize::MAX,
            k <= groups@.len(),
            variants_view(out@) == merge_fold(gv.subrange(0, k as int), limit, exclude_n),
        decreases groups@.len() - k,
    {
        let ghost ov = variants_view(out@);
        let g = &groups[k];
        proof {
            assert(gv.subrange(0, k + 1).drop_last() == gv.subrange(0, k as int));
            assert(gv.subrange(0, k + 1).last() == gv[k as int]);
            assert(gv[k as int] == g.view());
            lemma_merge_fold_total(gv.subrange(0, k as int), limit, exclude_n);
            lemma_view_nonneg(groups@);
            lemma_prefix_le_total(gv, k as int);
            lemma_prefix_step(gv, k as int);
            lemma_prefix_le_total(gv, k + 1);
            lemma_first_compatible(ov, g.sequence@, limit, exclude_n);
        }
        let mut i: usize = 0;
        let mut found: Option<(usize, Vec<u8>)> = None;
        while found.is_none() && i < out.len()
            invariant
                ov == variants_view(out@),
                i <= out@.len(),
                found is None ==> forall|t: int| 0 <= t < i ==> compatible(#[trigger] ov[t].sequence, g.sequence@, limit, exclude_n) is None,
                match found {
                    Some((j, m)) => j == i && j < out@.len() && compatible(ov[j as int].sequence, g.sequence@, limit, exclude_n) == Some(m@)
                        && forall|t: int| 0 <= t < j ==> compatible(#[trigger] ov[t].sequence, g.sequence@, limit, exclude_n) is None,
                    None => true,
                },
            decreases out@.len() - i + if found is None { 1int } else { 0int },
        {
            proof {
                assert(ov[i as int].sequence == out@[i as int].sequence@);
            }
            match try_merge(&out[i].sequence, &g.sequence, limit, exclude_n) {
                Some(m) => {
                    found = Some((i, m));
                },
                None => {
                    i = i + 1;
                },
            }
        }
        match found {
            Some((j, m)) => {
                proof {
                    let fc = first_compatible(ov, g.sequence@, limit, exclude_n);
                    if fc == -1 {
                        assert(compatible(ov[j as int].sequence, g.sequence@, limit, exclude_n) is None);
                    }
                    if 0 <= fc < j {
                        assert(compatible(ov[fc].sequence, g.sequence@, limit, exclude_n) is None);
                    }
                    if fc > j {
                        assert(compatible(ov[j as int].sequence, g.sequence@, limit, exclude_n) is None);
                    }
                    lemma_view_nonneg(out@);
                    lemma_count_le_total(ov, j as int);
                    assert(ov[j as int].count == out@[j as int].count);
                }
                let c = out[j].count + g.count;
                out.set(j, Variant { sequence: m, count: c });
                proof {
                    assert(variants_view(out@) =~= merge_fold(gv.subrange(0, k + 1), limit, exclude_n));
                }
            },
            None => {
                proof {
                    let fc = first_compatible(ov, g.sequence@, limit, exclude_n);
                    if fc >= 0 {
                        assert(compatible(ov[fc].sequence, g.sequence@, limit, exclude_n) is None);
                    }
                }
                out.push(copy_variant(g));
                proof {
                    assert(variants_view(out@) =~= merge_fold(gv.subrange(0, k + 1), limit, exclude_n));
                }
            },
        }
        k = k + 1;
    }
    proof {
        assert(gv.subrange(0, groups@.len() as int) == gv);
    }
    out
}

/// The coverage goal: `covered` sequences are at least `target` percent of `total`.
pub open spec fn goal_met(covered: int, total: int, target: u32) -> bool {
    covered * 100 >= target * total
}

/// One incremental variant grown from position `k` of `rs` on: while the
/// goal is not met, each group merges into the variant `v` if it can, and is
/// otherwise left for later (`rest`). Once the goal is met the remaining
/// groups are left for later as they are.
pub open spec fn grow(
    rs: Seq<VariantV>,
    k: int,
    v: Seq<u8>,
    covered: int,
    total: int,
    rest: Seq<VariantV>,
    target: u32,
    limit: Option<u32>,
    exclude_n: bool,
) -> (VariantV, Seq<VariantV>)
    decreases rs.len() - k,
{
    if k >= rs.len() {
        (VariantV { sequence: v, count: covered }, rest)
    } else if goal_met(covered, total, target) {
        (VariantV { sequence: v, count: covered }, rest + rs.subrange(k, rs.len() as int))
    } else {
        match compatible(v, rs[k].sequence, limit, exclude_n) {
            Some(m) => grow(rs, k + 1, m, covered + rs[k].count, total, rest, target, limit, exclude_n),
            None => grow(rs, k + 1, v, covered, total, rest.push(rs[k]), target, limit, exclude_n),
        }
    }
}

/// One incremental round: the variant seeded by the first group of `rs`,
/// grown towards `target` percent of the sequences of `rs`, and the groups it left.
pub open spec fn incremental_step(rs: Seq<VariantV>, target: u32, limit: Option<u32>, exclude_n: bool) -> (
    VariantV,
    Seq<VariantV>,
) {
    grow(rs, 1, rs[0].sequence, rs[0].count, total_count(rs), Seq::empty(), target, limit, exclude_n)
}

/// Incremental rounds on `rs` until no group is left (at most `rounds` rounds).
pub open spec fn incremental_fold(rs: Seq<VariantV>, rounds: nat, target: u32, limit: Option<u32>, exclude_n: bool) -> Seq<VariantV>
    decreases rounds,
{
    if rounds == 0 || rs.len() == 0 {
        Seq::empty()
    } else {
        let st = incremental_step(rs, target, limit, exclude_n);
        seq![st.0] + incremental_fold(st.1, (rounds - 1) as nat, target, limit, exclude_n)
    }
}

proof fn lemma_total_concat(a: Seq<VariantV>, b: Seq<VariantV>)
    ensures
        total_count(a + b) == total_count(a) + total_count(b),
    decreases b.len(),
{
    if b.len() == 0 {
        assert(a + b =~= a);
    } else {
        lemma_total_concat(a, b.drop_last());
        assert((a + b).drop_last() =~= a + b.drop_last());
    }
}

proof fn lemma_total_single(v: VariantV)
    ensures
        total_count(seq![v]) == v.count,
{
    assert(seq![v].drop_last() =~= Seq::<VariantV>::empty());
    assert(total_count(Seq::<VariantV>::empty()) == 0);
}

proof fn lemma_total_front(rs: Seq<VariantV>, k: int)
    requires
        0 <= k < rs.len(),
    ensures
        total_count(rs.subrange(k, rs.len() as int)) == rs[k].count + total_count(rs.subrange(k + 1, rs.len() as int)),
{
    assert(rs.subrange(k, rs.len() as int) =~= seq![rs[k]] + rs.subrange(k + 1, rs.len() as int));
    lemma_total_concat(seq![rs[k]], rs.subrange(k + 1, rs.len() as int));
    lemma_total_single(rs[k]);
}

proof fn lemma_grow(
    rs: Seq<VariantV>,
    k: int,
    v: Seq<u8>,
    covered: int,
    total: int,
    rest: Seq<VariantV>,
    target: u32,
    limit: Option<u32>,
    exclude_n: bool,
)
    requires
        0 <= k <= rs.len(),
    ensures
        grow(rs, k, v, covered, total, rest, target, limit, exclude_n).0.count + total_count(
            grow(rs, k, v, covered, total, rest, target, limit, exclude_n).1,
        ) == covered + total_count(rest) + total_count(rs.subrange(k, rs.len() as int)),
        grow(rs, k, v, covered, total, rest, target, limit, exclude_n).1.len() <= rest.len() + rs.len() - k,
    decreases rs.len() - k,
{
    if k >= rs.len() {
        assert(rs.subrange(k, rs.len() as int) =~= Seq::<VariantV>::empty());
    } else if goal_met(covered, total, target) {
        lemma_total_concat(rest, rs.subrange(k, rs.len() as int));
    } else {
        lemma_total_front(rs, k);
        match compatible(v, rs[k].sequence, limit, exclude_n) {
            Some(m) => {
                lemma_grow(rs, k + 1, m, covered + rs[k].count, total, rest, target, limit, exclude_n);
            },
            None => {
                lemma_grow(rs, k + 1, v, covered, total, rest.push(rs[k]), target, limit, exclude_n);
                lemma_total_push(rest, rs[k]);
            },
        }
    }
}

/// Incremental rounds, given enough of them, account for every sequence.
pub proof fn lemma_incremental_total(rs: Seq<VariantV>, rounds: nat, target: u32, limit: Option<u32>, exclude_n: bool)
    requires
        rounds >= rs.len(),
    ensures
        total_count(incremental_fold(rs, rounds, target, limit, exclude_n)) == total_count(rs),
    decreases rounds,
{
    if rounds > 0 && rs.len() > 0 {
        let st = incremental_step(rs, target, limit, exclude_n);
        lemma_grow(rs, 1, rs[0].sequence, rs[0].count, total_count(rs), Seq::empty(), target, limit, exclude_n);
        lemma_total_front(rs, 0);
        assert(rs.subrange(0, rs.len() as int) =~= rs);
        assert(total_count(Seq::<VariantV>::empty()) == 0);
        lemma_incremental_total(st.1, (rounds - 1) as nat, target, limit, exclude_n);
        let tail = incremental_fold(st.1, (rounds - 1) as nat, target, limit, exclude_n);
        lemma_total_concat(seq![st.0], tail);
        lemma_total_single(st.0);
    } else if rs.len() > 0 {
        assert(false);
    }
}

proof fn lemma_round_total(rv: Seq<VariantV>, target: u32, limit: Option<u32>, exclude_n: bool)
    requires
        rv.len() > 0,
    ensures
        incremental_step(rv, target, limit, exclude_n).0.count + total_count(incremental_step(rv, target, limit, exclude_n).1)
            == total_count(rv),
{
    lemma_grow(rv, 1, rv[0].sequence, rv[0].count, total_count(rv), Seq::empty(), target, limit, exclude_n);
    lemma_total_front(rv, 0);
    assert(rv.subrange(0, rv.len() as int) =~= rv);
    assert(total_count(Seq::<VariantV>::empty()) == 0);
}

fn sum_counts(vs: &Vec<Variant>) -> (r: usize)
    requires
        total_count(variants_view(vs@)) <= usize::MAX,
    ensures
        r == total_count(variants_view(vs@)),
{
    let ghost vv = variants_view(vs@);
    let mut k: usize = 0;
    let mut sum: usize = 0;
    while k < vs.len()
        invariant
            vv == variants_view(vs@),
            total_count(vv) <= usize::MAX,
            k <= vs@.len(),
            sum == prefix_count(vv, k as int),
        decreases vs@.len() - k,
    {
        proof {
            lemma_prefix_step(vv, k as int);
            lemma_view_nonneg(vs@);
            lemma_prefix_le_total(vv, k + 1);
            assert(vv[k as int].count == vs@[k as int].count);
        }
        sum = sum + vs[k].count;
        k = k + 1;
    }
    proof {
        assert(vv.subrange(0, vs@.len() as int) =~= vv);
    }
    sum
}

fn incremental_round(rs: &Vec<Variant>, target: u32, limit: Option<u32>, exclude_n: bool) -> (r: (Variant, Vec<Variant>))
    requires
        rs@.len() > 0,
        total_count(variants_view(rs@)) <= usize::MAX,
    ensures
        (r.0.view(), variants_view(r.1@)) == incremental_step(variants_view(rs@), target, limit, exclude_n),
{
    let ghost rv = variants_view(rs@);
    let total = sum_counts(rs);
    let ghost result = incremental_step(rv, target, limit, exclude_n);
    let mut v: Vec<u8> = rs[0].sequence.clone();
    let mut covered: usize = rs[0].count;
    let mut rest: Vec<Variant> = Vec::new();
    let mut k: usize = 1;
    proof {
        assert(rv[0].count == rs@[0].count);
        lemma_total_front(rv, 0);
        assert(rv.subrange(0, rv.len() as int) =~= rv);
        lemma_view_nonneg(rs@);
        let sub = rv.subrange(1, rv.len() as int);
        assert forall|t: int| 0 <= t < sub.len() implies (#[trigger] sub[t]).count >= 0 by {
            assert(sub[t] == rv[1 + t]);
        }
        lemma_total_nonneg(sub);
        assert(total_count(Seq::<VariantV>::empty()) == 0);
        assert(variants_view(rest@) =~= Seq::<VariantV>::empty());
    }
    proof {
        let (a, b) = (target as int, total as int);
        assert(a * b <= 0xffff_ffff * 0xffff_ffff_ffff_ffff) by (nonlinear_arith)
            requires 0 <= a <= 0xffff_ffff, 0 <= b <= 0xffff_ffff_ffff_ffff;
    }
    let goal: u128 = target as u128 * total as u128;
    while k < rs.len()
        invariant
            rv == variants_view(rs@),
            total == total_count(rv),
            total <= usize::MAX,
            goal == target as int * total as int,
            1 <= k <= rs@.len(),
            covered + total_count(variants_view(rest@)) + total_count(rv.subrange(k as int, rv.len() as int)) == total,
            total_count(variants_view(rest@)) >= 0,
            grow(rv, k as int, v@, covered as int, total as int, variants_view(rest@), target, limit, exclude_n) == result,
            result == incremental_step(rv, target, limit, exclude_n),
        decreases rs@.len() - k,
    {
        proof {
            lemma_view_nonneg(rs@);
            lemma_total_front(rv, k as int);
            let sub = rv.subrange(k + 1, rv.len() as int);
            assert forall|t: int| 0 <= t < sub.len() implies (#[trigger] sub[t]).count >= 0 by {
                assert(sub[t] == rv[k + 1 + t]);
            }
            lemma_total_nonneg(sub);
            assert(rv[k as int].count == rs@[k as int].count);
            assert(rv[k as int].sequence == rs@[k as int].sequence@);
        }
        if covered as u128 * 100 >= goal {
            let ghost k0 = k;
            let ghost rest0 = variants_view(rest@);
            proof {
                assert(goal_met(covered as int, total as int, target));
                assert(result == (VariantV { sequence: v@, count: covered as int }, rest0 + rv.subrange(k0 as int, rv.len() as int)));
            }
            while k < rs.len()
                invariant
                    rv == variants_view(rs@),
                    result == incremental_step(rv, target, limit, exclude_n),
                    result == (VariantV { sequence: v@, count: covered as int }, rest0 + rv.subrange(k0 as int, rv.len() as int)),
                    k0 <= k <= rs@.len(),
                    variants_view(rest@) == rest0 + rv.subrange(k0 as int, k as int),
                decreases rs@.len() - k,
            {
                let ghost before = variants_view(rest@);
                rest.push(copy_variant(&rs[k]));
                proof {
                    assert(variants_view(rest@) =~= before.push(rv[k as int]));
                    assert(rv.subrange(k0 as int, k + 1) =~= rv.subrange(k0 as int, k as int).push(rv[k as int]));
                    assert(variants_view(rest@) =~= rest0 + rv.subrange(k0 as int, k + 1));
                }
                k = k + 1;
            }
            proof {
                assert(k == rv.len());
                assert(rv.subrange(k0 as int, rv.len() as int) == rv.subrange(k0 as int, k as int));
                assert(variants_view(rest@) == result.1);
                assert(result == incremental_step(variants_view(rs@), target, limit, exclude_n));
            }
            return (Variant { sequence: v, count: covered }, rest);
        }
        match try_merge(&v, &rs[k].sequence, limit, exclude_n) {
            Some(m) => {
                v = m;
                covered = covered + rs[k].count;
            },
            None => {
                let ghost before = variants_view(rest@);
                rest.push(copy_variant(&rs[k]));
                proof {
                    assert(variants_view(rest@) =~= before.push(rv[k as int]));
                    lemma_total_push(before, rv[k as int]);
                }
            },
        }
        k = k + 1;
    }
    (Variant { sequence: v, count: covered }, rest)
}

/// Incremental rounds on `groups` until every group belongs to a variant.
pub fn incremental_merge(groups: &Vec<Variant>, target: u32, limit: Option<u32>, exclude_n: bool) -> (r: Vec<Variant>)
    requires
        total_count(variants_view(groups@)) <= usize::MAX,
    ensures
        variants_view(r@) == incremental_fold(variants_view(groups@), groups@.len() as nat, target, limit, exclude_n),
{
    let ghost gv = variants_view(groups@);
    let mut remaining: Vec<Variant> = Vec::new();
    let mut k: usize = 0;
    while k < groups.len()
        invariant
            gv == variants_view(groups@),
            k <= groups@.len(),
            variants_view(remaining@) == gv.subrange(0, k as int),
        decreases groups@.len() - k,
    {
        let ghost before = variants_view(remaining@);
        remaining.push(copy_variant(&groups[k]));
        proof {
            assert(gv[k as int] == groups@[k as int].view());
            assert(variants_view(remaining@) =~= before.push(gv[k as int]));
            assert(variants_view(remaining@) =~= gv.subrange(0, k + 1));
        }
        k = k + 1;
    }
    proof {
        assert(gv.subrange(0, groups@.len() as int) =~= gv);
    }
    let mut out: Vec<Variant> = Vec::new();
    let mut rounds: usize = groups.len();
    proof {
        assert(variants_view(out@) + incremental_fold(gv, rounds as nat, target, limit, exclude_n) =~= incremental_fold(gv, rounds as nat, target, limit, exclude_n));
    }
    while rounds > 0 && remaining.len() > 0
        invariant
            total_count(variants_view(remaining@)) <= usize::MAX,
            variants_view(out@) + incremental_fold(variants_view(remaining@), rounds as nat, target, limit, exclude_n)
                == incremental_fold(gv, groups@.len() as nat, target, limit, exclude_n),
        decreases rounds,
    {
        let ghost rv = variants_view(remaining@);
        let ghost ov = variants_view(out@);
        let (v, rest) = incremental_round(&remaining, target, limit, exclude_n);
        proof {
            lemma_round_total(rv, target, limit, exclude_n);
            lemma_view_nonneg(rest@);
            lemma_total_nonneg(variants_view(rest@));
            let tail = incremental_fold(variants_view(rest@), (rounds - 1) as nat, target, limit, exclude_n);
            assert(incremental_fold(rv, rounds as nat, target, limit, exclude_n) == seq![v.view()] + tail);
            assert(ov.push(v.view()) + tail =~= ov + (seq![v.view()] + tail));
        }
        out.push(v);
        remaining = rest;
        rounds = rounds - 1;
        proof {
            assert(variants_view(out@) =~= ov.push(v.view()));
        }
    }
    proof {
        assert(incremental_fold(variants_view(remaining@), rounds as nat, target, limit, exclude_n) =~= Seq::<VariantV>::empty());
        assert(variants_view(out@) + Seq::<VariantV>::empty() =~= variants_view(out@));
    }
    out
}

/// The variants of `seqs` under `method`, by descending count.
pub open spec fn method_variants(seqs: Seq<Seq<u8>>, method: AnalysisMethod, exclude_n: bool) -> Seq<VariantV> {
    let groups = sort_desc(group_exact(seqs));
    match method {
        AnalysisMethod::NoAmbiguities => groups,
        AnalysisMethod::FixedAmbiguities(n) => sort_desc(merge_fold(groups, Some(n), exclude_n)),
        AnalysisMethod::Incremental(pct, max_amb) => sort_desc(
            incremental_fold(groups, groups.len(), pct, max_amb, exclude_n),
        ),
    }
}

/// Whatever the method, the variants account for every matched sequence once.
pub proof fn lemma_variants_cover_all(seqs: Seq<Seq<u8>>, method: AnalysisMethod, exclude_n: bool)
    ensures
        total_count(method_variants(seqs, method, exclude_n)) == seqs.len(),
{
    let groups = sort_desc(group_exact(seqs));
    lemma_group_total(seqs);
    lemma_sort_total(group_exact(seqs));
    match method {
        AnalysisMethod::NoAmbiguities => {},
        AnalysisMethod::FixedAmbiguities(n) => {
            lemma_merge_fold_total(groups, Some(n), exclude_n);
            lemma_sort_total(merge_fold(groups, Some(n), exclude_n));
        },
        AnalysisMethod::Incremental(pct, max_amb) => {
            lemma_incremental_total(groups, groups.len(), pct, max_amb, exclude_n);
            lemma_sort_total(incremental_fold(groups, groups.len(), pct, max_amb, exclude_n));
        },
    }
}

/// Clusters the matched window sequences `seqs` into variants under
/// `method`, and finds how many of them reach `coverage_threshold`
/// (hundredths of a percent) of the matched sequences.
pub fn analyze_sequences(seqs: &Vec<Vec<u8>>, method: &AnalysisMethod, exclude_n: bool, coverage_threshold: u32) -> (r: WindowAnalysisResult)
    ensures
        variants_view(r.variants@) == method_variants(crate::pairwise::seqs_view(seqs@), *method, exclude_n),
        r.total_sequences == seqs@.len(),
        r.sequences_analyzed == seqs@.len(),
        r.no_match_count == 0,
        !r.skipped,
        r.skip_reason is None,
        r.variants_for_threshold == threshold_index(variants_view(r.variants@), seqs@.len() as int, coverage_threshold as int),
        r.covered_at_threshold == prefix_count(variants_view(r.variants@), r.variants_for_threshold as int),
{
    let ghost sv = crate::pairwise::seqs_view(seqs@);
    proof {
        lemma_group_total(sv);
        lemma_sort_total(group_exact(sv));
        lemma_variants_cover_all(sv, *method, exclude_n);
    }
    let n_seqs = seqs.len();
    let groups = sort_variants(group_sequences(seqs));
    proof {
        assert(sv.len() == seqs@.len());
        assert(total_count(variants_view(groups@)) == seqs@.len());
    }
    let variants = match method {
        AnalysisMethod::NoAmbiguities => groups,
        AnalysisMethod::FixedAmbiguities(n) => sort_variants(merge_groups(&groups, Some(*n), exclude_n)),
        AnalysisMethod::Incremental(pct, max_amb) => sort_variants(incremental_merge(&groups, *pct, *max_amb, exclude_n)),
    };
    let (needed, covered) = variants_for_threshold(&variants, seqs.len(), coverage_threshold);
    WindowAnalysisResult {
        total_sequences: seqs.len(),
        sequences_analyzed: seqs.len(),
        no_match_count: 0,
        skipped: false,
        skip_reason: None,
        variants,
        variants_for_threshold: needed,
        covered_at_threshold: covered,
    }
}

/// `count` copies of `s`.
pub open spec fn copies(s: Seq<u8>, count: int) -> Seq<Seq<u8>> {
    Seq::new(if count > 0 { count as nat } else { 0 }, |i: int| s)
}

/// The sequences that the variants `vs` stand for: each variant's sequence
/// as many times as its count, variant after variant.
pub open spec fn expand(vs: Seq<VariantV>) -> Seq<Seq<u8>>
    decreases vs.len(),
{
    if vs.len() == 0 {
        Seq::empty()
    } else {
        expand(vs.drop_last()) + copies(vs.last().sequence, vs.last().count)
    }
}

pub open spec fn distinct_seqs(vs: Seq<VariantV>) -> bool {
    forall|a: int, b: int|
        0 <= a < vs.len() && 0 <= b < vs.len() && a != b ==> #[trigger] vs[a].sequence != #[trigger] vs[b].sequence
}

pub open spec fn non_increasing(vs: Seq<VariantV>) -> bool {
    forall|a: int, b: int| 0 <= a < b < vs.len() ==> #[trigger] vs[a].count >= #[trigger] vs[b].count
}

pub open spec fn all_positive(vs: Seq<VariantV>) -> bool {
    forall|i: int| 0 <= i < vs.len() ==> (#[trigger] vs[i]).count >= 1
}

pub open spec fn drawn_from(s: Seq<VariantV>, vs: Seq<VariantV>) -> bool {
    forall|i: int| 0 <= i < s.len() ==> exists|j: int| 0 <= j < vs.len() && #[trigger] s[i] == vs[j]
}

proof fn lemma_group_distinct(seqs: Seq<Seq<u8>>)
    ensures
        distinct_seqs(group_exact(seqs)),
    decreases seqs.len(),
{
    if seqs.len() > 0 {
        let g = group_exact(seqs.drop_last());
        lemma_group_distinct(seqs.drop_last());
        lemma_index_of(g, seqs.last());
        let g2 = group_exact(seqs);
        let i = index_of(g, seqs.last());
        assert forall|a: int, b: int|
            0 <= a < g2.len() && 0 <= b < g2.len() && a != b implies #[trigger] g2[a].sequence != #[trigger] g2[b].sequence by {
            if i >= 0 {
                assert(g2[a].sequence == g[a].sequence);
                assert(g2[b].sequence == g[b].sequence);
            } else {
                if a < g.len() && b < g.len() {
                    assert(g2[a] == g[a] && g2[b] == g[b]);
                } else if a < g.len() {
                    assert(g2[a] == g[a]);
                } else {
                    assert(g2[b] == g[b]);
                }
            }
        }
    }
}

proof fn lemma_sort_props(vs: Seq<VariantV>)
    ensures
        sort_desc(vs).len() == vs.len(),
        non_increasing(sort_desc(vs)),
        drawn_from(sort_desc(vs), vs),
        distinct_seqs(vs) ==> distinct_seqs(sort_desc(vs)),
        all_positive(vs) ==> all_positive(sort_desc(vs)),
    decreases vs.len(),
{
    if vs.len() > 0 {
        let d = vs.drop_last();
        let v = vs.last();
        let s = sort_desc(d);
        lemma_sort_props(d);
        lemma_insert_pos(s, v.count);
        let p = insert_pos(s, v.count);
        let t = s.insert(p, v);
        assert(t == sort_desc(vs));
        assert forall|a: int, b: int| 0 <= a < b < t.len() implies #[trigger] t[a].count >= #[trigger] t[b].count by {
            if b < p {
                assert(t[a] == s[a] && t[b] == s[b]);
            } else if b == p {
                assert(t[a] == s[a]);
            } else if a < p {
                assert(t[a] == s[a] && t[b] == s[b - 1]);
                assert(s[a].count >= s[p].count || b - 1 == p || s[a].count >= s[b - 1].count);
            } else if a == p {
                assert(t[b] == s[b - 1]);
                assert(s[p].count >= s[b - 1].count || b - 1 == p);
            } else {
                assert(t[a] == s[a - 1] && t[b] == s[b - 1]);
            }
        }
        assert forall|i: int| 0 <= i < t.len() implies exists|j: int| 0 <= j < vs.len() && #[trigger] t[i] == vs[j] by {
            if i < p {
                assert(t[i] == s[i]);
                let j = choose|j: int| 0 <= j < d.len() && s[i] == d[j];
                assert(vs[j] == d[j]);
            } else if i == p {
                assert(t[i] == vs[vs.len() - 1]);
            } else {
                assert(t[i] == s[i - 1]);
                let j = choose|j: int| 0 <= j < d.len() && s[i - 1] == d[j];
                assert(vs[j] == d[j]);
            }
        }
        if distinct_seqs(vs) {
            assert(distinct_seqs(d)) by {
                assert forall|a: int, b: int|
                    0 <= a < d.len() && 0 <= b < d.len() && a != b implies #[trigger] d[a].sequence != #[trigger] d[b].sequence by {
                    assert(d[a] == vs[a] && d[b] == vs[b]);
                }
            }
            assert forall|i: int| 0 <= i < s.len() implies #[trigger] s[i].sequence != v.sequence by {
                let j = choose|j: int| 0 <= j < d.len() && s[i] == d[j];
                assert(d[j] == vs[j]);
                assert(vs[j].sequence != vs[vs.len() - 1].sequence);
            }
            assert forall|a: int, b: int|
                0 <= a < t.len() && 0 <= b < t.len() && a != b implies #[trigger] t[a].sequence != #[trigger] t[b].sequence by {
                let sa = if a < p { a } else { a - 1 };
                let sb = if b < p { b } else { b - 1 };
                if a == p {
                    assert(t[b] == s[sb]);
                } else if b == p {
                    assert(t[a] == s[sa]);
                } else {
                    assert(t[a] == s[sa] && t[b] == s[sb]);
                }
            }
        }
        if all_positive(vs) {
            assert forall|i: int| 0 <= i < t.len() implies (#[trigger] t[i]).count >= 1 by {
                let j = choose|j: int| 0 <= j < vs.len() && t[i] == vs[j];
            }
        }
    }
}

proof fn lemma_sorted_fixed(vs: Seq<VariantV>)
    requires
        non_increasing(vs),
    ensures
        sort_desc(vs) == vs,
    decreases vs.len(),
{
    if vs.len() > 0 {
        let d = vs.drop_last();
        let v = vs.last();
        assert(non_increasing(d)) by {
            assert forall|a: int, b: int| 0 <= a < b < d.len() implies #[trigger] d[a].count >= #[trigger] d[b].count by {
                assert(d[a] == vs[a] && d[b] == vs[b]);
            }
        }
        lemma_sorted_fixed(d);
        lemma_insert_pos(d, v.count);
        let p = insert_pos(d, v.count);
        if p < d.len() {
            assert(d[p] == vs[p]);
            assert(vs[p].count >= vs[vs.len() - 1].count);
        }
        assert(d.insert(p, v) =~= vs);
    }
}

proof fn lemma_group_copies(e: Seq<Seq<u8>>, s: Seq<u8>, c: int)
    requires
        c >= 0,
        index_of(group_exact(e), s) == -1,
    ensures
        c > 0 ==> group_exact(e + copies(s, c)) == group_exact(e).push(VariantV { sequence: s, count: c }),
        c == 0 ==> group_exact(e + copies(s, c)) == group_exact(e),
    decreases c,
{
    let g = group_exact(e);
    if c == 0 {
        assert(e + copies(s, c) =~= e);
    } else {
        lemma_group_copies(e, s, c - 1);
        let x = e + copies(s, c);
        assert(x.drop_last() =~= e + copies(s, c - 1));
        assert(x.last() == s);
        if c == 1 {
        } else {
            let g1 = g.push(VariantV { sequence: s, count: c - 1 });
            lemma_index_of(g, s);
            lemma_index_of(g1, s);
            let i = index_of(g1, s);
            if 0 <= i < g.len() {
                assert(g1[i] == g[i]);
            }
            assert(i == g.len());
            assert(g1.update(i, VariantV { sequence: s, count: g1[i].count + 1 }) =~= g.push(
                VariantV { sequence: s, count: c },
            ));
        }
    }
}

proof fn lemma_group_expand(vs: Seq<VariantV>)
    requires
        distinct_seqs(vs),
        all_positive(vs),
    ensures
        group_exact(expand(vs)) == vs,
    decreases vs.len(),
{
    if vs.len() > 0 {
        let d = vs.drop_last();
        let v = vs.last();
        assert(distinct_seqs(d)) by {
            assert forall|a: int, b: int|
                0 <= a < d.len() && 0 <= b < d.len() && a != b implies #[trigger] d[a].sequence != #[trigger] d[b].sequence by {
                assert(d[a] == vs[a] && d[b] == vs[b]);
            }
        }
        assert(all_positive(d)) by {
            assert forall|i: int| 0 <= i < d.len() implies (#[trigger] d[i]).count >= 1 by {
                assert(d[i] == vs[i]);
            }
        }
        lemma_group_expand(d);
        lemma_index_of(d, v.sequence);
        if index_of(d, v.sequence) >= 0 {
            let i = index_of(d, v.sequence);
            assert(d[i] == vs[i]);
            assert(vs[i].sequence != vs[vs.len() - 1].sequence);
        }
        lemma_group_copies(expand(d), v.sequence, v.count);
        assert(d.push(v) =~= vs);
    }
}

/// Exact-match consensus is idempotent: running it again on the sequences
/// that its own variants stand for gives the same variants.
pub proof fn lemma_no_ambiguities_idempotent(seqs: Seq<Seq<u8>>, exclude_n: bool)
    ensures
        method_variants(
            expand(method_variants(seqs, AnalysisMethod::NoAmbiguities, exclude_n)),
            AnalysisMethod::NoAmbiguities,
            exclude_n,
        ) == method_variants(seqs, AnalysisMethod::NoAmbiguities, exclude_n),
{
    let g = group_exact(seqs);
    let r = sort_desc(g);
    lemma_group_distinct(seqs);
    lemma_group_total(seqs);
    assert(all_positive(g));
    lemma_sort_props(g);
    lemma_group_expand(r);
    lemma_sorted_fixed(r);
}

/// Whatever the method, the variants come by descending count.
pub proof fn lemma_variants_sorted(seqs: Seq<Seq<u8>>, method: AnalysisMethod, exclude_n: bool)
    ensures
        non_increasing(method_variants(seqs, method, exclude_n)),
{
    let groups = sort_desc(group_exact(seqs));
    lemma_sort_props(group_exact(seqs));
    match method {
        AnalysisMethod::NoAmbiguities => {},
        AnalysisMethod::FixedAmbiguities(n) => {
            lemma_sort_props(merge_fold(groups, Some(n), exclude_n));
        },
        AnalysisMethod::Incremental(pct, max_amb) => {
            lemma_sort_props(incremental_fold(groups, groups.len(), pct, max_amb, exclude_n));
        },
    }
}

/// No variant of `vs` merges into an earlier one.
pub open spec fn merge_free(vs: Seq<VariantV>, limit: Option<u32>, exclude_n: bool) -> bool {
    forall|i: int, j: int|
        0 <= j < i < vs.len() ==> compatible(#[trigger] vs[j].sequence, #[trigger] vs[i].sequence, limit, exclude_n) is None
}

/// The ambiguity limit a method merges under (exact matching allows none).
pub open spec fn method_limit(method: AnalysisMethod) -> Option<u32> {
    match method {
        AnalysisMethod::NoAmbiguities => Some(0),
        AnalysisMethod::FixedAmbiguities(n) => Some(n),
        AnalysisMethod::Incremental(_, max_amb) => max_amb,
    }
}

/// `vs` is already minimal for `method`: distinct sequences, and (for the
/// merging methods) no variant merges into an earlier one.
pub open spec fn already_minimal(vs: Seq<VariantV>, method: AnalysisMethod, exclude_n: bool) -> bool {
    match method {
        AnalysisMethod::NoAmbiguities => true,
        _ => distinct_seqs(vs) && merge_free(vs, method_limit(method), exclude_n),
    }
}

proof fn lemma_merge_fold_positive(gs: Seq<VariantV>, limit: Option<u32>, exclude_n: bool)
    requires
        all_positive(gs),
    ensures
        all_positive(merge_fold(gs, limit, exclude_n)),
    decreases gs.len(),
{
    if gs.len() > 0 {
        let d = gs.drop_last();
        assert(all_positive(d)) by {
            assert forall|i: int| 0 <= i < d.len() implies (#[trigger] d[i]).count >= 1 by {
                assert(d[i] == gs[i]);
            }
        }
        lemma_merge_fold_positive(d, limit, exclude_n);
        let vs = merge_fold(d, limit, exclude_n);
        lemma_first_compatible(vs, gs.last().sequence, limit, exclude_n);
    }
}

proof fn lemma_merge_fold_free(vs: Seq<VariantV>, limit: Option<u32>, exclude_n: bool)
    requires
        merge_free(vs, limit, exclude_n),
    ensures
        merge_fold(vs, limit, exclude_n) == vs,
    decreases vs.len(),
{
    if vs.len() > 0 {
        let d = vs.drop_last();
        assert(merge_free(d, limit, exclude_n)) by {
            assert forall|i: int, j: int| 0 <= j < i < d.len() implies compatible(
                #[trigger] d[j].sequence,
                #[trigger] d[i].sequence,
                limit,
                exclude_n,
            ) is None by {
                assert(d[i] == vs[i] && d[j] == vs[j]);
            }
        }
        lemma_merge_fold_free(d, limit, exclude_n);
        lemma_first_compatible(d, vs.last().sequence, limit, exclude_n);
        let i = first_compatible(d, vs.last().sequence, limit, exclude_n);
        if i >= 0 {
            assert(d[i] == vs[i]);
            assert(compatible(vs[i].sequence, vs[vs.len() - 1].sequence, limit, exclude_n) is None);
        }
        assert(d.push(vs.last()) =~= vs);
    }
}

proof fn lemma_grow_positive(
    rs: Seq<VariantV>,
    k: int,
    v: Seq<u8>,
    covered: int,
    total: int,
    rest: Seq<VariantV>,
    target: u32,
    limit: Option<u32>,
    exclude_n: bool,
)
    requires
        0 <= k <= rs.len(),
        all_positive(rs),
        all_positive(rest),
        covered >= 1,
    ensures
        grow(rs, k, v, covered, total, rest, target, limit, exclude_n).0.count >= 1,
        all_positive(grow(rs, k, v, covered, total, rest, target, limit, exclude_n).1),
    decreases rs.len() - k,
{
    if k >= rs.len() {
    } else if goal_met(covered, total, target) {
        let t = rest + rs.subrange(k, rs.len() as int);
        assert forall|i: int| 0 <= i < t.len() implies (#[trigger] t[i]).count >= 1 by {
            if i < rest.len() {
                assert(t[i] == rest[i]);
            } else {
                assert(t[i] == rs[k + i - rest.len()]);
            }
        }
    } else {
        match compatible(v, rs[k].sequence, limit, exclude_n) {
            Some(m) => {
                lemma_grow_positive(rs, k + 1, m, covered + rs[k].count, total, rest, target, limit, exclude_n);
            },
            None => {
                let r2 = rest.push(rs[k]);
                assert(all_positive(r2)) by {
                    assert forall|i: int| 0 <= i < r2.len() implies (#[trigger] r2[i]).count >= 1 by {
                        if i < rest.len() {
                            assert(r2[i] == rest[i]);
                        }
                    }
                }
                lemma_grow_positive(rs, k + 1, v, covered, total, r2, target, limit, exclude_n);
            },
        }
    }
}

proof fn lemma_incremental_positive(rs: Seq<VariantV>, rounds: nat, target: u32, limit: Option<u32>, exclude_n: bool)
    requires
        all_positive(rs),
    ensures
        all_positive(incremental_fold(rs, rounds, target, limit, exclude_n)),
    decreases rounds,
{
    if rounds > 0 && rs.len() > 0 {
        let st = incremental_step(rs, target, limit, exclude_n);
        lemma_grow_positive(rs, 1, rs[0].sequence, rs[0].count, total_count(rs), Seq::empty(), target, limit, exclude_n);
        lemma_incremental_positive(st.1, (rounds - 1) as nat, target, limit, exclude_n);
        let tail = incremental_fold(st.1, (rounds - 1) as nat, target, limit, exclude_n);
        let t = seq![st.0] + tail;
        assert forall|i: int| 0 <= i < t.len() implies (#[trigger] t[i]).count >= 1 by {
            if i > 0 {
                assert(t[i] == tail[i - 1]);
            }
        }
    }
}

proof fn lemma_grow_free(
    rs: Seq<VariantV>,
    k: int,
    v: Seq<u8>,
    covered: int,
    total: int,
    rest: Seq<VariantV>,
    target: u32,
    limit: Option<u32>,
    exclude_n: bool,
)
    requires
        0 <= k <= rs.len(),
        forall|t: int| k <= t < rs.len() ==> compatible(v, #[trigger] rs[t].sequence, limit, exclude_n) is None,
    ensures
        grow(rs, k, v, covered, total, rest, target, limit, exclude_n) == (
            VariantV { sequence: v, count: covered },
            rest + rs.subrange(k, rs.len() as int),
        ),
    decreases rs.len() - k,
{
    if k >= rs.len() {
        assert(rest + rs.subrange(k, rs.len() as int) =~= rest);
    } else if !goal_met(covered, total, target) {
        lemma_grow_free(rs, k + 1, v, covered, total, rest.push(rs[k]), target, limit, exclude_n);
        assert(rest.push(rs[k]) + rs.subrange(k + 1, rs.len() as int) =~= rest + rs.subrange(k, rs.len() as int));
    }
}

proof fn lemma_incremental_free(rs: Seq<VariantV>, rounds: nat, target: u32, limit: Option<u32>, exclude_n: bool)
    requires
        merge_free(rs, limit, exclude_n),
        rounds >= rs.len(),
    ensures
        incremental_fold(rs, rounds, target, limit, exclude_n) == rs,
    decreases rounds,
{
    if rs.len() == 0 {
        assert(incremental_fold(rs, rounds, target, limit, exclude_n) =~= rs);
    } else {
        assert forall|t: int| 1 <= t < rs.len() implies compatible(rs[0].sequence, #[trigger] rs[t].sequence, limit, exclude_n) is None by {
            assert(compatible(rs[0].sequence, rs[t].sequence, limit, exclude_n) is None);
        }
        lemma_grow_free(rs, 1, rs[0].sequence, rs[0].count, total_count(rs), Seq::empty(), target, limit, exclude_n);
        let tail = rs.subrange(1, rs.len() as int);
        assert(Seq::<VariantV>::empty() + tail =~= tail);
        assert(merge_free(tail, limit, exclude_n)) by {
            assert forall|i: int, j: int| 0 <= j < i < tail.len() implies compatible(
                #[trigger] tail[j].sequence,
                #[trigger] tail[i].sequence,
                limit,
                exclude_n,
            ) is None by {
                assert(tail[i] == rs[i + 1] && tail[j] == rs[j + 1]);
            }
        }
        lemma_incremental_free(tail, (rounds - 1) as nat, target, limit, exclude_n);
        assert(seq![rs[0]] + tail =~= rs);
    }
}

/// Variant consensus is idempotent on an already-minimal result: running the
/// same method again on the sequences that its variants stand for gives the
/// same variants. For exact matching every result is minimal; for the merging
/// methods, minimal means distinct sequences of which none merges into an
/// earlier one.
pub proof fn lemma_consensus_idempotent(seqs: Seq<Seq<u8>>, method: AnalysisMethod, exclude_n: bool)
    requires
        already_minimal(method_variants(seqs, method, exclude_n), method, exclude_n),
    ensures
        method_variants(expand(method_variants(seqs, method, exclude_n)), method, exclude_n) == method_variants(
            seqs,
            method,
            exclude_n,
        ),
{
    let r = method_variants(seqs, method, exclude_n);
    let g = group_exact(seqs);
    let groups = sort_desc(g);
    lemma_group_total(seqs);
    assert(all_positive(g));
    lemma_sort_props(g);
    lemma_variants_sorted(seqs, method, exclude_n);
    match method {
        AnalysisMethod::NoAmbiguities => {
            lemma_no_ambiguities_idempotent(seqs, exclude_n);
        },
        AnalysisMethod::FixedAmbiguities(n) => {
            let mf = merge_fold(groups, Some(n), exclude_n);
            lemma_merge_fold_positive(groups, Some(n), exclude_n);
            lemma_sort_props(mf);
            lemma_group_expand(r);
            lemma_sorted_fixed(r);
            lemma_merge_fold_free(r, Some(n), exclude_n);
        },
        AnalysisMethod::Incremental(pct, max_amb) => {
            let f = incremental_fold(groups, groups.len(), pct, max_amb, exclude_n);
            lemma_incremental_positive(groups, groups.len(), pct, max_amb, exclude_n);
            lemma_sort_props(f);
            lemma_group_expand(r);
            lemma_sorted_fixed(r);
            lemma_incremental_free(r, r.len(), pct, max_amb, exclude_n);
        },
    }
}

} // verus!
