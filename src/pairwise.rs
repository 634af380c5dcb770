//! Pairwise matcher: semi-global alignment of a short query against a longer
//! candidate with affine gap costs.
//!
//! The query must be aligned in full; the candidate may start and end anywhere
//! at no cost. Each state of the alignment is scored by the recurrence of
//! `dp`, whose three components are the best alignment ending in any column
//! (`h`), ending in a gap of the query (`e`, a candidate base against no query
//! base) and ending in a gap of the candidate (`f`). Among alignments of equal
//! score the one with fewer mismatches is kept; each mismatched pair and each
//! gap position counts as one mismatch.

use vstd::prelude::*;
use crate::types::PairwiseParams;
use vstd::slice::{slice_subrange, slice_to_vec};

verus! {

/// Upper bound on query length plus candidate length, so that every score fits in an `i64`.
pub const MAX_ALIGN_LEN: usize = 0x1000_0000;

/// One alignment state: its score, its mismatches and the candidate
/// position where it starts.
pub struct CellV {
    pub score: int,
    pub mm: int,
    pub start: int,
}

/// The three states of one cell of the alignment table.
pub struct DpV {
    pub h: CellV,
    pub e: CellV,
    pub f: CellV,
}

/// `a` is preferred over `b`: a higher score, or the same score with fewer mismatches.
pub open spec fn better(a: CellV, b: CellV) -> bool {
    a.score > b.score || (a.score == b.score && a.mm < b.mm)
}

/// The preferred of two states, `a` on a tie.
pub open spec fn pick(a: CellV, b: CellV) -> CellV {
    if better(b, a) {
        b
    } else {
        a
    }
}

pub open spec fn open_gap(c: CellV, p: PairwiseParams) -> CellV {
    CellV {
        score: c.score + p.gap_open_penalty + p.gap_extend_penalty,
        mm: c.mm + 1,
        start: c.start,
    }
}

pub open spec fn extend_gap(c: CellV, p: PairwiseParams) -> CellV {
    CellV { score: c.score + p.gap_extend_penalty, mm: c.mm + 1, start: c.start }
}

pub open spec fn pair(c: CellV, p: PairwiseParams, a: u8, b: u8) -> CellV {
    CellV {
        score: c.score + if a == b {
            p.match_score as int
        } else {
            p.mismatch_score as int
        },
        mm: c.mm + if a == b {
            0int
        } else {
            1int
        },
        start: c.start,
    }
}

/// The alignment table at query prefix `i` and candidate prefix `j`.
pub open spec fn dp(q: Seq<u8>, r: Seq<u8>, p: PairwiseParams, i: nat, j: nat) -> DpV
    decreases i + j,
{
    if i == 0 {
        let h = CellV { score: 0, mm: 0, start: j as int };
        DpV { h, e: h, f: h }
    } else {
        let f = if i == 1 {
            open_gap(dp(q, r, p, 0, j).h, p)
        } else {
            pick(open_gap(dp(q, r, p, (i - 1) as nat, j).h, p), extend_gap(dp(q, r, p, (i - 1) as nat, j).f, p))
        };
        if j == 0 {
            DpV { h: f, e: f, f }
        } else {
            let e = if j == 1 {
                open_gap(dp(q, r, p, i, 0).h, p)
            } else {
                pick(open_gap(dp(q, r, p, i, (j - 1) as nat).h, p), extend_gap(dp(q, r, p, i, (j - 1) as nat).e, p))
            };
            let d = pair(dp(q, r, p, (i - 1) as nat, (j - 1) as nat).h, p, q[i - 1], r[j - 1]);
            DpV { h: pick(pick(d, e), f), e, f }
        }
    }
}

/// The preferred full-query alignment ending at a candidate position `<= k`
/// (the earliest such end on a tie), with that end.
pub open spec fn best_end(q: Seq<u8>, r: Seq<u8>, p: PairwiseParams, k: nat) -> (CellV, nat)
    decreases k,
{
    if k == 0 {
        (dp(q, r, p, q.len(), 0).h, 0)
    } else {
        let prev = best_end(q, r, p, (k - 1) as nat);
        let c = dp(q, r, p, q.len(), k).h;
        if better(c, prev.0) {
            (c, k)
        } else {
            prev
        }
    }
}

/// The preferred alignment of the whole query against the candidate.
pub open spec fn best_alignment(q: Seq<u8>, r: Seq<u8>, p: PairwiseParams) -> (CellV, nat) {
    best_end(q, r, p, r.len())
}

/// Sum of the magnitudes of the scoring parameters: no single step of an
/// alignment changes its score by more.
pub open spec fn weight(p: PairwiseParams) -> int {
    abs(p.match_score as int) + abs(p.mismatch_score as int) + abs(p.gap_open_penalty as int)
        + abs(p.gap_extend_penalty as int)
}

pub open spec fn abs(x: int) -> int {
    if x < 0 {
        -x
    } else {
        x
    }
}

/// `k * w`, unfolded one step at a time.
pub open spec fn bound(k: nat, w: int) -> int
    decreases k,
{
    if k == 0 {
        0
    } else {
        bound((k - 1) as nat, w) + w
    }
}

proof fn lemma_bound_nonneg(k: nat, w: int)
    requires
        w >= 0,
    ensures
        0 <= bound(k, w),
    decreases k,
{
    if k > 0 {
        lemma_bound_nonneg((k - 1) as nat, w);
    }
}

proof fn lemma_bound_mono(a: nat, b: nat, w: int)
    requires
        a <= b,
        w >= 0,
    ensures
        0 <= bound(a, w) <= bound(b, w),
    decreases b,
{
    lemma_bound_nonneg(a, w);
    if a < b {
        lemma_bound_mono(a, (b - 1) as nat, w);
    }
}

proof fn lemma_bound_mul(k: nat, w: int)
    ensures
        bound(k, w) == k * w,
    decreases k,
{
    if k > 0 {
        let km = (k - 1) as nat;
        lemma_bound_mul(km, w);
        assert(km * w + w == k * w) by (nonlinear_arith)
            requires km + 1 == k;
    } else {
        assert(k * w == 0) by (nonlinear_arith)
            requires k == 0;
    }
}

/// `c` is within what `k` steps of an alignment reach, starting at or before `j`.
pub open spec fn cell_bounded(c: CellV, p: PairwiseParams, k: nat, j: nat) -> bool {
    &&& -bound(k, weight(p)) <= c.score <= bound(k, weight(p))
    &&& 0 <= c.mm <= k
    &&& 0 <= c.start <= j
}

proof fn lemma_bounded_weaken(c: CellV, p: PairwiseParams, k: nat, j: nat, k2: nat, j2: nat)
    requires
        cell_bounded(c, p, k, j),
        k <= k2,
        j <= j2,
    ensures
        cell_bounded(c, p, k2, j2),
{
    lemma_bound_mono(k, k2, weight(p));
}

proof fn lemma_bounded_step(c: CellV, p: PairwiseParams, k: nat, j: nat, a: u8, b: u8)
    requires
        cell_bounded(c, p, k, j),
    ensures
        cell_bounded(open_gap(c, p), p, k + 1, j),
        cell_bounded(extend_gap(c, p), p, k + 1, j),
        cell_bounded(pair(c, p, a, b), p, k + 1, j),
{
    assert(bound(k + 1, weight(p)) == bound(k, weight(p)) + weight(p));
}

/// Every state of the table stays within the bounds that one step per query
/// and candidate position allows.
pub proof fn lemma_dp_bounded(q: Seq<u8>, r: Seq<u8>, p: PairwiseParams, i: nat, j: nat)
    ensures
        cell_bounded(dp(q, r, p, i, j).h, p, i + j, j),
        cell_bounded(dp(q, r, p, i, j).e, p, i + j, j),
        cell_bounded(dp(q, r, p, i, j).f, p, i + j, j),
    decreases i + j,
{
    lemma_bound_nonneg(i + j, weight(p));
    if i > 0 {
        let up = dp(q, r, p, (i - 1) as nat, j);
        lemma_dp_bounded(q, r, p, (i - 1) as nat, j);
        lemma_bounded_step(up.h, p, (i - 1 + j) as nat, j, 0, 0);
        lemma_bounded_step(up.f, p, (i - 1 + j) as nat, j, 0, 0);
        if j > 0 {
            let left = dp(q, r, p, i, (j - 1) as nat);
            let diag = dp(q, r, p, (i - 1) as nat, (j - 1) as nat);
            let first = dp(q, r, p, i, 0);
            lemma_dp_bounded(q, r, p, i, (j - 1) as nat);
            lemma_dp_bounded(q, r, p, (i - 1) as nat, (j - 1) as nat);
            lemma_dp_bounded(q, r, p, i, 0);
            lemma_bounded_step(left.h, p, (i + j - 1) as nat, (j - 1) as nat, 0, 0);
            lemma_bounded_step(left.e, p, (i + j - 1) as nat, (j - 1) as nat, 0, 0);
            lemma_bounded_step(first.h, p, i, 0, 0, 0);
            lemma_bounded_step(diag.h, p, (i + j - 2) as nat, (j - 1) as nat, q[i - 1], r[j - 1]);
            lemma_bounded_weaken(open_gap(left.h, p), p, i + j, (j - 1) as nat, i + j, j);
            lemma_bounded_weaken(extend_gap(left.e, p), p, i + j, (j - 1) as nat, i + j, j);
            lemma_bounded_weaken(open_gap(first.h, p), p, i + 1, 0, i + j, j);
            lemma_bounded_weaken(pair(diag.h, p, q[i - 1], r[j - 1]), p, (i + j - 1) as nat, (j - 1) as nat, i + j, j);
            if i == 1 {
                lemma_dp_bounded(q, r, p, 0, j);
            }
        }
    }
}

spec fn small_v(c: CellV) -> bool {
    -0x2000_0000_0000_0000 <= c.score <= 0x2000_0000_0000_0000 && c.mm < 0x1000_0000
}

proof fn lemma_dp_small(q: Seq<u8>, r: Seq<u8>, p: PairwiseParams, i: nat, j: nat)
    requires
        i + j < MAX_ALIGN_LEN,
        small_params(p),
    ensures
        small_v(dp(q, r, p, i, j).h),
        small_v(dp(q, r, p, i, j).e),
        small_v(dp(q, r, p, i, j).f),
{
    lemma_dp_bounded(q, r, p, i, j);
    let w = weight(p);
    let k = (i + j) as int;
    lemma_bound_mul(i + j, w);
    assert(k * w <= 0x1000_0000 * 0x2_0000_0000) by (nonlinear_arith)
        requires 0 <= k <= 0x1000_0000, 0 <= w <= 0x2_0000_0000;
}

/// The preferred end lies within the candidate, with its start at or before it.
pub proof fn lemma_best_end_bounded(q: Seq<u8>, r: Seq<u8>, p: PairwiseParams, k: nat)
    ensures
        best_end(q, r, p, k).1 <= k,
        cell_bounded(best_end(q, r, p, k).0, p, q.len() + best_end(q, r, p, k).1, best_end(q, r, p, k).1),
    decreases k,
{
    lemma_dp_bounded(q, r, p, q.len(), k);
    if k > 0 {
        lemma_best_end_bounded(q, r, p, (k - 1) as nat);
    }
}

/// An alignment state in machine integers.
#[derive(Clone, Copy, Debug)]
pub struct Cell {
    pub score: i64,
    pub mismatches: usize,
    pub start: usize,
}

impl Cell {
    pub open spec fn view(self) -> CellV {
        CellV { score: self.score as int, mm: self.mismatches as int, start: self.start as int }
    }
}

#[derive(Clone, Copy, Debug)]
struct DpCell {
    h: Cell,
    e: Cell,
    f: Cell,
}

impl DpCell {
    spec fn matches(self, d: DpV) -> bool {
        self.h.view() == d.h && self.e.view() == d.e && self.f.view() == d.f
    }
}

/// The outcome of one alignment.
#[derive(Clone, Copy, Debug)]
pub struct Alignment {
    pub score: i64,
    pub mismatches: usize,
    /// The aligned region of the candidate is `start..end`.
    pub start: usize,
    pub end: usize,
}

impl Alignment {
    pub open spec fn matches(self, q: Seq<u8>, r: Seq<u8>, p: PairwiseParams) -> bool {
        let b = best_alignment(q, r, p);
        &&& self.score == b.0.score
        &&& self.mismatches == b.0.mm
        &&& self.start == b.0.start
        &&& self.end == b.1
    }
}

fn better_exec(a: Cell, b: Cell) -> (r: bool)
    ensures
        r == better(a.view(), b.view()),
{
    a.score > b.score || (a.score == b.score && a.mismatches < b.mismatches)
}

fn pick_exec(a: Cell, b: Cell) -> (r: Cell)
    ensures
        r.view() == pick(a.view(), b.view()),
{
    if better_exec(b, a) {
        b
    } else {
        a
    }
}

spec fn small(c: Cell) -> bool {
    -0x2000_0000_0000_0000 <= c.score <= 0x2000_0000_0000_0000 && c.mismatches < 0x1000_0000
}

spec fn small_params(p: PairwiseParams) -> bool {
    weight(p) <= 0x2_0000_0000
}

fn open_exec(c: Cell, p: PairwiseParams) -> (r: Cell)
    requires
        small(c),
    ensures
        r.view() == open_gap(c.view(), p),
{
    Cell {
        score: c.score + p.gap_open_penalty as i64 + p.gap_extend_penalty as i64,
        mismatches: c.mismatches + 1,
        start: c.start,
    }
}

fn extend_exec(c: Cell, p: PairwiseParams) -> (r: Cell)
    requires
        small(c),
    ensures
        r.view() == extend_gap(c.view(), p),
{
    Cell { score: c.score + p.gap_extend_penalty as i64, mismatches: c.mismatches + 1, start: c.start }
}

fn pair_exec(c: Cell, p: PairwiseParams, a: u8, b: u8) -> (r: Cell)
    requires
        small(c),
    ensures
        r.view() == pair(c.view(), p, a, b),
{
    if a == b {
        Cell { score: c.score + p.match_score as i64, mismatches: c.mismatches, start: c.start }
    } else {
        Cell { score: c.score + p.mismatch_score as i64, mismatches: c.mismatches + 1, start: c.start }
    }
}

/// The state ending in a gap: a new gap opened after `h`, or (unless `first`)
/// the gap ending in `gap` grown by one, whichever is preferred.
fn gap_exec(h: Cell, gap: Cell, first: bool, p: PairwiseParams) -> (r: Cell)
    requires
        small(h),
        small(gap),
    ensures
        r.view() == if first {
            open_gap(h.view(), p)
        } else {
            pick(open_gap(h.view(), p), extend_gap(gap.view(), p))
        },
{
    let o = open_exec(h, p);
    if first {
        o
    } else {
        pick_exec(o, extend_exec(gap, p))
    }
}

/// An alignment engine: the scratch columns of the table, kept between calls
/// so that aligning many pairs allocates only when a longer query comes.
pub struct DnaAligner {
    prev: Vec<DpCell>,
    cur: Vec<DpCell>,
    params: PairwiseParams,
}

impl DnaAligner {
    /// The scoring scheme this engine aligns with.
    pub closed spec fn params_spec(&self) -> PairwiseParams {
        self.params
    }

    /// An engine for queries of about `query_len` bases under `params`.
    pub fn new(query_len: usize, params: &PairwiseParams) -> (r: DnaAligner)
        ensures
            r.params_spec() == *params,
    {
        DnaAligner {
            prev: Vec::with_capacity(query_len),
            cur: Vec::with_capacity(query_len),
            params: *params,
        }
    }

    /// Aligns the whole of `query` against a region of `candidate`.
    pub fn align(&mut self, query: &[u8], candidate: &[u8]) -> (r: Alignment)
        requires
            query@.len() + candidate@.len() < MAX_ALIGN_LEN,
        ensures
            r.matches(query@, candidate@, old(self).params_spec()),
            final(self).params_spec() == old(self).params_spec(),
    {
        let ghost q = query@;
        let ghost c = candidate@;
        let p = self.params;
        let m = query.len();
        let n = candidate.len();
        let ghost w = weight(p);
        proof {
            assert(w <= 0x2_0000_0000);
        }
        self.prev.clear();
        self.cur.clear();
        let zero = Cell { score: 0, mismatches: 0, start: 0 };
        let z = DpCell { h: zero, e: zero, f: zero };
        self.prev.push(z);
        self.cur.push(z);
        let mut i: usize = 1;
        while i <= m
            invariant
                1 <= i <= m + 1,
                q == query@,
                c == candidate@,
                m == q.len(),
                n == c.len(),
                m + n < MAX_ALIGN_LEN,
                w == weight(p),
                w <= 0x2_0000_0000,
                self.params == p,
                self.prev@.len() == i,
                self.cur@.len() == i,
                forall|k: int| 0 <= k < i ==> (#[trigger] self.prev@[k]).matches(dp(q, c, p, k as nat, 0)),
            decreases m + 1 - i,
        {
            let below = self.prev[i - 1];
            proof {
                lemma_dp_small(q, c, p, (i - 1) as nat, 0);
            }
            let f = gap_exec(below.h, below.f, i == 1, p);
            self.prev.push(DpCell { h: f, e: f, f });
            self.cur.push(z);
            i = i + 1;
        }
        proof {
            lemma_dp_bounded(q, c, p, m as nat, 0);
        }
        let mut best = self.prev[m].h;
        let mut best_j: usize = 0;
        let mut j: usize = 1;
        while j <= n
            invariant
                1 <= j <= n + 1,
                q == query@,
                c == candidate@,
                m == q.len(),
                n == c.len(),
                m + n < MAX_ALIGN_LEN,
                w == weight(p),
                w <= 0x2_0000_0000,
                self.params == p,
                self.prev@.len() == m + 1,
                self.cur@.len() == m + 1,
                forall|k: int| 0 <= k <= m ==> (#[trigger] self.prev@[k]).matches(dp(q, c, p, k as nat, (j - 1) as nat)),
                best.view() == best_end(q, c, p, (j - 1) as nat).0,
                best_j == best_end(q, c, p, (j - 1) as nat).1,
            decreases n + 1 - j,
        {
            let top = Cell { score: 0, mismatches: 0, start: j };
            self.cur.set(0, DpCell { h: top, e: top, f: top });
            let mut i: usize = 1;
            while i <= m
                invariant
                    1 <= i <= m + 1,
                    1 <= j <= n,
                    q == query@,
                    c == candidate@,
                    m == q.len(),
                    n == c.len(),
                    m + n < MAX_ALIGN_LEN,
                    w == weight(p),
                    w <= 0x2_0000_0000,
                    self.params == p,
                    self.prev@.len() == m + 1,
                    self.cur@.len() == m + 1,
                    forall|k: int| 0 <= k <= m ==> (#[trigger] self.prev@[k]).matches(dp(q, c, p, k as nat, (j - 1) as nat)),
                    forall|k: int| 0 <= k < i ==> (#[trigger] self.cur@[k]).matches(dp(q, c, p, k as nat, j as nat)),
                decreases m + 1 - i,
            {
                let left = self.prev[i];
                let diag = self.prev[i - 1];
                let up = self.cur[i - 1];
                proof {
                    lemma_dp_small(q, c, p, i as nat, (j - 1) as nat);
                    lemma_dp_small(q, c, p, (i - 1) as nat, (j - 1) as nat);
                    lemma_dp_small(q, c, p, (i - 1) as nat, j as nat);
                }
                let e = gap_exec(left.h, left.e, j == 1, p);
                let f = gap_exec(up.h, up.f, i == 1, p);
                let d = pair_exec(diag.h, p, query[i - 1], candidate[j - 1]);
                let h = pick_exec(pick_exec(d, e), f);
                self.cur.set(i, DpCell { h, e, f });
                i = i + 1;
            }
            std::mem::swap(&mut self.prev, &mut self.cur);
            let last = self.prev[m].h;
            if better_exec(last, best) {
                best = last;
                best_j = j;
            }
            j = j + 1;
        }
        proof {
            lemma_best_end_bounded(q, c, p, n as nat);
        }
        Alignment { score: best.score, mismatches: best.mismatches, start: best.start, end: best_j }
    }
}

/// The sequences held by a list of byte vectors.
pub open spec fn seqs_view(v: Seq<Vec<u8>>) -> Seq<Seq<u8>> {
    v.map_values(|x: Vec<u8>| x@)
}

/// The candidate matches the query: its preferred alignment has at most
/// `max_mismatches` mismatches.
pub open spec fn accepted(q: Seq<u8>, r: Seq<u8>, p: PairwiseParams) -> bool {
    best_alignment(q, r, p).0.mm <= p.max_mismatches
}

/// The region of the candidate that the preferred alignment covers.
pub open spec fn aligned_region(q: Seq<u8>, r: Seq<u8>, p: PairwiseParams) -> Seq<u8> {
    r.subrange(best_alignment(q, r, p).0.start, best_alignment(q, r, p).1 as int)
}

/// The aligned regions of the candidates that match, in candidate order.
pub open spec fn matched_regions(q: Seq<u8>, rs: Seq<Seq<u8>>, p: PairwiseParams) -> Seq<Seq<u8>>
    decreases rs.len(),
{
    if rs.len() == 0 {
        Seq::empty()
    } else {
        let prev = matched_regions(q, rs.drop_last(), p);
        if accepted(q, rs.last(), p) {
            prev.push(aligned_region(q, rs.last(), p))
        } else {
            prev
        }
    }
}

/// For each candidate, the mismatches of its alignment when it matches.
pub open spec fn mismatch_outcomes(q: Seq<u8>, rs: Seq<Seq<u8>>, p: PairwiseParams) -> Seq<Option<u32>> {
    Seq::new(
        rs.len(),
        |k: int|
            if accepted(q, rs[k], p) {
                Some(best_alignment(q, rs[k], p).0.mm as u32)
            } else {
                None
            },
    )
}

/// Every candidate fits an alignment with the query.
pub open spec fn alignable(q: Seq<u8>, rs: Seq<Vec<u8>>) -> bool {
    forall|k: int| 0 <= k < rs.len() ==> q.len() + (#[trigger] rs[k])@.len() < MAX_ALIGN_LEN
}

impl DnaAligner {
    /// Aligns `query` against each candidate: the aligned regions of those
    /// that match, in order, and how many did not match.
    pub fn collect_matches(&mut self, query: &[u8], candidates: &Vec<Vec<u8>>) -> (r: (Vec<Vec<u8>>, usize))
        requires
            alignable(query@, candidates@),
        ensures
            seqs_view(r.0@) == matched_regions(query@, seqs_view(candidates@), old(self).params_spec()),
            r.1 == candidates@.len() - r.0@.len(),
            final(self).params_spec() == old(self).params_spec(),
    {
        let ghost p = self.params;
        let ghost rs = seqs_view(candidates@);
        let mut matched: Vec<Vec<u8>> = Vec::new();
        let mut no_match: usize = 0;
        let mut k: usize = 0;
        while k < candidates.len()
            invariant
                self.params == p,
                rs == seqs_view(candidates@),
                alignable(query@, candidates@),
                k <= candidates@.len(),
                seqs_view(matched@) == matched_regions(query@, rs.subrange(0, k as int), p),
                no_match + matched@.len() == k,
            decreases candidates@.len() - k,
        {
            let cand = candidates[k].as_slice();
            let a = self.align(query, cand);
            proof {
                assert(rs.subrange(0, k + 1).drop_last() == rs.subrange(0, k as int));
                assert(rs.subrange(0, k + 1).last() == cand@);
                lemma_best_end_bounded(query@, cand@, p, cand@.len());
            }
            if a.mismatches as u64 <= self.params.max_mismatches as u64 {
                let region = slice_to_vec(slice_subrange(cand, a.start, a.end));
                matched.push(region);
                proof {
                    assert(seqs_view(matched@) =~= seqs_view(matched@.drop_last()).push(region@));
                }
            } else {
                no_match = no_match + 1;
            }
            k = k + 1;
        }
        proof {
            assert(rs.subrange(0, candidates@.len() as int) == rs);
        }
        (matched, no_match)
    }

    /// Aligns `query` against each candidate: for each, the mismatches of its
    /// alignment when it matches, `None` when it does not.
    pub fn collect_mismatch_counts(&mut self, query: &[u8], candidates: &Vec<Vec<u8>>) -> (r: Vec<Option<u32>>)
        requires
            alignable(query@, candidates@),
        ensures
            r@ == mismatch_outcomes(query@, seqs_view(candidates@), old(self).params_spec()),
            final(self).params_spec() == old(self).params_spec(),
    {
        let ghost p = self.params;
        let ghost rs = seqs_view(candidates@);
        let mut out: Vec<Option<u32>> = Vec::new();
        let mut k: usize = 0;
        while k < candidates.len()
            invariant
                self.params == p,
                rs == seqs_view(candidates@),
                alignable(query@, candidates@),
                k <= candidates@.len(),
                out@ == mismatch_outcomes(query@, rs, p).subrange(0, k as int),
            decreases candidates@.len() - k,
        {
            let cand = candidates[k].as_slice();
            let a = self.align(query, cand);
            if a.mismatches as u64 <= self.params.max_mismatches as u64 {
                out.push(Some(a.mismatches as u32));
            } else {
                out.push(None);
            }
            proof {
                assert(out@ =~= mismatch_outcomes(query@, rs, p).subrange(0, k + 1));
            }
            k = k + 1;
        }
        proof {
            assert(out@ =~= mismatch_outcomes(query@, rs, p));
        }
        out
    }
}

/// One column of an alignment.
pub enum Step {
    /// A query base against a candidate base.
    Pair,
    /// A candidate base against a gap in the query.
    QueryGap,
    /// A query base against a gap in the candidate.
    CandidateGap,
}

/// Query bases that `ops` use.
pub open spec fn query_used(ops: Seq<Step>) -> int
    decreases ops.len(),
{
    if ops.len() == 0 {
        0
    } else {
        query_used(ops.drop_last()) + if ops.last() is QueryGap {
            0int
        } else {
            1int
        }
    }
}

/// Candidate bases that `ops` use.
pub open spec fn candidate_used(ops: Seq<Step>) -> int
    decreases ops.len(),
{
    if ops.len() == 0 {
        0
    } else {
        candidate_used(ops.drop_last()) + if ops.last() is CandidateGap {
            0int
        } else {
            1int
        }
    }
}

/// The score of the alignment `ops` of the query prefix of length `i`
/// against the candidate up to position `j`: match or mismatch score for
/// each pair, and for each gap the extension cost per position plus the
/// opening cost once.
pub open spec fn path_score(ops: Seq<Step>, q: Seq<u8>, r: Seq<u8>, p: PairwiseParams, i: int, j: int) -> int
    decreases ops.len(),
{
    if ops.len() == 0 {
        0
    } else {
        let prev = ops.drop_last();
        match ops.last() {
            Step::Pair => path_score(prev, q, r, p, i - 1, j - 1) + if q[i - 1] == r[j - 1] {
                p.match_score as int
            } else {
                p.mismatch_score as int
            },
            Step::QueryGap => path_score(prev, q, r, p, i, j - 1) + p.gap_extend_penalty + if prev.len() > 0
                && prev.last() is QueryGap {
                0int
            } else {
                p.gap_open_penalty as int
            },
            Step::CandidateGap => path_score(prev, q, r, p, i - 1, j) + p.gap_extend_penalty + if prev.len() > 0
                && prev.last() is CandidateGap {
                0int
            } else {
                p.gap_open_penalty as int
            },
        }
    }
}

/// `ops` align the query prefix of length `i` with the candidate region `s..j`.
pub open spec fn aligns(ops: Seq<Step>, i: int, s: int, j: int) -> bool {
    query_used(ops) == i && candidate_used(ops) == j - s && 0 <= s
}

/// Gaps never pay: the scoring contract's signs for gap costs.
pub open spec fn gaps_cost(p: PairwiseParams) -> bool {
    p.gap_open_penalty <= 0 && p.gap_extend_penalty <= 0
}

proof fn lemma_used_nonneg(ops: Seq<Step>)
    ensures
        query_used(ops) >= 0,
        candidate_used(ops) >= 0,
        ops.len() > 0 && ops.last() is QueryGap ==> candidate_used(ops) >= 1,
        ops.len() > 0 && ops.last() is CandidateGap ==> query_used(ops) >= 1,
        ops.len() > 0 && ops.last() is Pair ==> query_used(ops) >= 1 && candidate_used(ops) >= 1,
    decreases ops.len(),
{
    if ops.len() > 0 {
        lemma_used_nonneg(ops.drop_last());
    }
}

proof fn lemma_pick_ge(a: CellV, b: CellV)
    ensures
        pick(a, b).score >= a.score,
        pick(a, b).score >= b.score,
{
}

/// No alignment ending at `(i, j)` scores above the table: above `h` in
/// any case, above `e` when it ends in a query gap, above `f` when it ends
/// in a candidate gap.
pub proof fn lemma_dp_optimal(ops: Seq<Step>, q: Seq<u8>, r: Seq<u8>, p: PairwiseParams, i: int, s: int, j: int)
    requires
        gaps_cost(p),
        aligns(ops, i, s, j),
        i <= q.len(),
        j <= r.len(),
    ensures
        path_score(ops, q, r, p, i, j) <= dp(q, r, p, i as nat, j as nat).h.score,
        ops.len() > 0 && ops.last() is QueryGap ==> path_score(ops, q, r, p, i, j) <= dp(q, r, p, i as nat, j as nat).e.score,
        ops.len() > 0 && ops.last() is CandidateGap ==> path_score(ops, q, r, p, i, j) <= dp(q, r, p, i as nat, j as nat).f.score,
    decreases ops.len(),
{
    lemma_used_nonneg(ops);
    if ops.len() > 0 {
        let prev = ops.drop_last();
        lemma_used_nonneg(prev);
        let d = dp(q, r, p, i as nat, j as nat);
        match ops.last() {
            Step::Pair => {
                lemma_dp_optimal(prev, q, r, p, i - 1, s, j - 1);
                let dg = pair(dp(q, r, p, (i - 1) as nat, (j - 1) as nat).h, p, q[i - 1], r[j - 1]);
                lemma_pick_ge(dg, d.e);
                lemma_pick_ge(pick(dg, d.e), d.f);
            },
            Step::QueryGap => {
                lemma_dp_optimal(prev, q, r, p, i, s, j - 1);
                let left = dp(q, r, p, i as nat, (j - 1) as nat);
                if i == 0 {
                    assert(left.h.score == 0 && left.e.score == 0 && d.h.score == 0);
                } else {
                    if j >= 2 {
                        lemma_pick_ge(open_gap(left.h, p), extend_gap(left.e, p));
                    }
                    let dg = pair(dp(q, r, p, (i - 1) as nat, (j - 1) as nat).h, p, q[i - 1], r[j - 1]);
                    lemma_pick_ge(dg, d.e);
                    lemma_pick_ge(pick(dg, d.e), d.f);
                }
            },
            Step::CandidateGap => {
                lemma_dp_optimal(prev, q, r, p, i - 1, s, j);
                let up = dp(q, r, p, (i - 1) as nat, j as nat);
                if i >= 2 {
                    lemma_pick_ge(open_gap(up.h, p), extend_gap(up.f, p));
                }
                if j >= 1 {
                    let dg = pair(dp(q, r, p, (i - 1) as nat, (j - 1) as nat).h, p, q[i - 1], r[j - 1]);
                    lemma_pick_ge(dg, d.e);
                    lemma_pick_ge(pick(dg, d.e), d.f);
                }
            },
        }
    }
}

proof fn lemma_best_end_ge(q: Seq<u8>, r: Seq<u8>, p: PairwiseParams, k: nat, j: nat)
    requires
        j <= k,
    ensures
        best_end(q, r, p, k).0.score >= dp(q, r, p, q.len(), j).h.score,
    decreases k,
{
    if k > j {
        lemma_best_end_ge(q, r, p, (k - 1) as nat, j);
    } else if k > 0 {
        lemma_best_end_ge(q, r, p, (k - 1) as nat, (k - 1) as nat);
    }
}

/// The reported alignment is optimal: no alignment of the whole query
/// against any region of the candidate scores higher.
pub proof fn lemma_alignment_optimal(ops: Seq<Step>, q: Seq<u8>, r: Seq<u8>, p: PairwiseParams, s: int, j: int)
    requires
        gaps_cost(p),
        aligns(ops, q.len() as int, s, j),
        j <= r.len(),
    ensures
        path_score(ops, q, r, p, q.len() as int, j) <= best_alignment(q, r, p).0.score,
{
    lemma_used_nonneg(ops);
    lemma_dp_optimal(ops, q, r, p, q.len() as int, s, j);
    lemma_best_end_ge(q, r, p, r.len(), j as nat);
}

/// Mismatches of the alignment `ops` ending at `(i, j)`: mismatched pairs and gap positions.
pub open spec fn path_mismatches(ops: Seq<Step>, q: Seq<u8>, r: Seq<u8>, i: int, j: int) -> int
    decreases ops.len(),
{
    if ops.len() == 0 {
        0
    } else {
        let prev = ops.drop_last();
        match ops.last() {
            Step::Pair => path_mismatches(prev, q, r, i - 1, j - 1) + if q[i - 1] == r[j - 1] {
                0int
            } else {
                1int
            },
            Step::QueryGap => path_mismatches(prev, q, r, i, j - 1) + 1,
            Step::CandidateGap => path_mismatches(prev, q, r, i - 1, j) + 1,
        }
    }
}

/// A component of a table cell: `h`, `e` or `f`.
pub enum Part {
    H,
    E,
    F,
}

pub open spec fn part_of(d: DpV, c: Part) -> CellV {
    match c {
        Part::H => d.h,
        Part::E => d.e,
        Part::F => d.f,
    }
}

pub open spec fn part_rank(c: Part) -> int {
    match c {
        Part::H => 2,
        Part::E => 1,
        Part::F => 0,
    }
}

/// The alignment behind a component of the table, followed back through the
/// choices of the recurrence.
pub open spec fn traceback(q: Seq<u8>, r: Seq<u8>, p: PairwiseParams, i: nat, j: nat, c: Part) -> Seq<Step>
    decreases i + j, part_rank(c),
{
    if i == 0 {
        Seq::empty()
    } else {
        match c {
            Part::F => {
                if i == 1 {
                    seq![Step::CandidateGap]
                } else {
                    let up = dp(q, r, p, (i - 1) as nat, j);
                    if better(extend_gap(up.f, p), open_gap(up.h, p)) {
                        traceback(q, r, p, (i - 1) as nat, j, Part::F).push(Step::CandidateGap)
                    } else {
                        traceback(q, r, p, (i - 1) as nat, j, Part::H).push(Step::CandidateGap)
                    }
                }
            },
            Part::E => {
                if j == 0 {
                    traceback(q, r, p, i, 0, Part::F)
                } else if j == 1 {
                    traceback(q, r, p, i, 0, Part::H).push(Step::QueryGap)
                } else {
                    let left = dp(q, r, p, i, (j - 1) as nat);
                    if better(extend_gap(left.e, p), open_gap(left.h, p)) {
                        traceback(q, r, p, i, (j - 1) as nat, Part::E).push(Step::QueryGap)
                    } else {
                        traceback(q, r, p, i, (j - 1) as nat, Part::H).push(Step::QueryGap)
                    }
                }
            },
            Part::H => {
                if j == 0 {
                    traceback(q, r, p, i, 0, Part::F)
                } else {
                    let d = dp(q, r, p, i, j);
                    let dg = pair(dp(q, r, p, (i - 1) as nat, (j - 1) as nat).h, p, q[i - 1], r[j - 1]);
                    if better(d.f, pick(dg, d.e)) {
                        traceback(q, r, p, i, j, Part::F)
                    } else if better(d.e, dg) {
                        traceback(q, r, p, i, j, Part::E)
                    } else {
                        traceback(q, r, p, (i - 1) as nat, (j - 1) as nat, Part::H).push(Step::Pair)
                    }
                }
            },
        }
    }
}

proof fn lemma_push_last(ops: Seq<Step>, x: Step)
    ensures
        ops.push(x).drop_last() == ops,
        ops.push(x).last() == x,
        ops.push(x).len() > 0,
{
    assert(ops.push(x).drop_last() =~= ops);
}

/// What one more column adds to an alignment ending at `(i, j)` before it.
proof fn lemma_push_step(ops: Seq<Step>, x: Step, q: Seq<u8>, r: Seq<u8>, p: PairwiseParams, i: int, j: int)
    ensures
        ({
            let o = ops.push(x);
            let gap_cont = ops.len() > 0 && ops.last() == x;
            match x {
                Step::Pair => {
                    &&& query_used(o) == query_used(ops) + 1
                    &&& candidate_used(o) == candidate_used(ops) + 1
                    &&& path_score(o, q, r, p, i + 1, j + 1) == path_score(ops, q, r, p, i, j) + if q[i] == r[j] {
                        p.match_score as int
                    } else {
                        p.mismatch_score as int
                    }
                    &&& path_mismatches(o, q, r, i + 1, j + 1) == path_mismatches(ops, q, r, i, j) + if q[i] == r[j] {
                        0int
                    } else {
                        1int
                    }
                },
                Step::QueryGap => {
                    &&& query_used(o) == query_used(ops)
                    &&& candidate_used(o) == candidate_used(ops) + 1
                    &&& path_score(o, q, r, p, i, j + 1) == path_score(ops, q, r, p, i, j) + p.gap_extend_penalty + if gap_cont {
                        0int
                    } else {
                        p.gap_open_penalty as int
                    }
                    &&& path_mismatches(o, q, r, i, j + 1) == path_mismatches(ops, q, r, i, j) + 1
                },
                Step::CandidateGap => {
                    &&& query_used(o) == query_used(ops) + 1
                    &&& candidate_used(o) == candidate_used(ops)
                    &&& path_score(o, q, r, p, i + 1, j) == path_score(ops, q, r, p, i, j) + p.gap_extend_penalty + if gap_cont {
                        0int
                    } else {
                        p.gap_open_penalty as int
                    }
                    &&& path_mismatches(o, q, r, i + 1, j) == path_mismatches(ops, q, r, i, j) + 1
                },
            }
        }),
{
    lemma_push_last(ops, x);
}

/// Each component of the table is the score, mismatches and start of a real
/// alignment: its traceback. A query gap component's traceback ends in a
/// query gap, a candidate gap component's in a candidate gap, and a traceback
/// that ends in a gap belongs to a cell whose `h` is that gap's component.
pub proof fn lemma_traceback(q: Seq<u8>, r: Seq<u8>, p: PairwiseParams, i: nat, j: nat, c: Part)
    requires
        gaps_cost(p),
        i <= q.len(),
        j <= r.len(),
    ensures
        ({
            let ops = traceback(q, r, p, i, j, c);
            let cell = part_of(dp(q, r, p, i, j), c);
            &&& aligns(ops, i as int, cell.start, j as int)
            &&& path_score(ops, q, r, p, i as int, j as int) == cell.score
            &&& path_mismatches(ops, q, r, i as int, j as int) == cell.mm
            &&& (i > 0 && j > 0 && c is E) ==> ops.len() > 0 && ops.last() is QueryGap
            &&& (i > 0 && c is F) ==> ops.len() > 0 && ops.last() is CandidateGap
            &&& (c is H && ops.len() > 0 && ops.last() is QueryGap) ==> dp(q, r, p, i, j).h == dp(q, r, p, i, j).e
            &&& (c is H && ops.len() > 0 && ops.last() is CandidateGap) ==> dp(q, r, p, i, j).h == dp(q, r, p, i, j).f
        }),
    decreases i + j, part_rank(c),
{
    lemma_dp_bounded(q, r, p, i, j);
    if i > 0 {
        match c {
            Part::F => {
                if i == 1 {
                    lemma_push_step(Seq::empty(), Step::CandidateGap, q, r, p, 0, j as int);
                    assert(seq![Step::CandidateGap] =~= Seq::<Step>::empty().push(Step::CandidateGap));
                } else {
                    let up = dp(q, r, p, (i - 1) as nat, j);
                    lemma_traceback(q, r, p, (i - 1) as nat, j, Part::F);
                    lemma_traceback(q, r, p, (i - 1) as nat, j, Part::H);
                    let tf = traceback(q, r, p, (i - 1) as nat, j, Part::F);
                    let th = traceback(q, r, p, (i - 1) as nat, j, Part::H);
                    lemma_push_step(tf, Step::CandidateGap, q, r, p, i - 1, j as int);
                    lemma_push_step(th, Step::CandidateGap, q, r, p, i - 1, j as int);
                }
            },
            Part::E => {
                if j == 0 {
                    lemma_traceback(q, r, p, i, 0, Part::F);
                } else if j == 1 {
                    lemma_traceback(q, r, p, i, 0, Part::H);
                    lemma_traceback(q, r, p, i, 0, Part::F);
                    let th = traceback(q, r, p, i, 0, Part::H);
                    lemma_push_step(th, Step::QueryGap, q, r, p, i as int, 0);
                } else {
                    lemma_traceback(q, r, p, i, (j - 1) as nat, Part::E);
                    lemma_traceback(q, r, p, i, (j - 1) as nat, Part::H);
                    let te = traceback(q, r, p, i, (j - 1) as nat, Part::E);
                    let th = traceback(q, r, p, i, (j - 1) as nat, Part::H);
                    lemma_push_step(te, Step::QueryGap, q, r, p, i as int, j - 1);
                    lemma_push_step(th, Step::QueryGap, q, r, p, i as int, j - 1);
                }
            },
            Part::H => {
                if j == 0 {
                    lemma_traceback(q, r, p, i, 0, Part::F);
                } else {
                    lemma_traceback(q, r, p, i, j, Part::F);
                    lemma_traceback(q, r, p, i, j, Part::E);
                    lemma_traceback(q, r, p, (i - 1) as nat, (j - 1) as nat, Part::H);
                    let td = traceback(q, r, p, (i - 1) as nat, (j - 1) as nat, Part::H);
                    lemma_push_step(td, Step::Pair, q, r, p, i - 1, j - 1);
                }
            },
        }
    }
}

/// The reported alignment is real: some alignment of the whole query against
/// the candidate region `start..end` has the reported score and mismatches.
pub proof fn lemma_alignment_witness(q: Seq<u8>, r: Seq<u8>, p: PairwiseParams)
    requires
        gaps_cost(p),
    ensures
        ({
            let b = best_alignment(q, r, p);
            let ops = traceback(q, r, p, q.len(), b.1, Part::H);
            &&& aligns(ops, q.len() as int, b.0.start, b.1 as int)
            &&& path_score(ops, q, r, p, q.len() as int, b.1 as int) == b.0.score
            &&& path_mismatches(ops, q, r, q.len() as int, b.1 as int) == b.0.mm
        }),
{
    lemma_best_end_bounded(q, r, p, r.len());
    lemma_best_end_is_cell(q, r, p, r.len());
    lemma_traceback(q, r, p, q.len(), best_alignment(q, r, p).1, Part::H);
}

proof fn lemma_best_end_is_cell(q: Seq<u8>, r: Seq<u8>, p: PairwiseParams, k: nat)
    ensures
        best_end(q, r, p, k).0 == dp(q, r, p, q.len(), best_end(q, r, p, k).1).h,
    decreases k,
{
    if k > 0 {
        lemma_best_end_is_cell(q, r, p, (k - 1) as nat);
    }
}

} // verus!
