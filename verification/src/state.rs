//! A candidate-row representation by segment spans: each candidate is the
//! ordered list of `(start, end)` half-open spans of its Filled runs.
//!
//! The enumerator here produces every placement of a clue in a line of a
//! given length in that representation.

use vstd::prelude::*;

pub use crate::solution::CellState;
pub use crate::state_grid::StateGrid;
pub use crate::state_row::StateRow;

use crate::clues::{clue_fits, ints_of, isum};
use crate::solution::{common_spec, forced_at, row_compatible};

verus! {

/// Product of the integers from `lo` through `hi`.
pub open spec fn range_product(lo: int, hi: int) -> int
    decreases hi - lo + 1,
{
    if lo > hi {
        1
    } else {
        hi * range_product(lo, hi - 1)
    }
}

pub proof fn lemma_range_product_pos(lo: int, k: int)
    requires
        1 <= lo,
    ensures
        range_product(lo, k) >= 1,
    decreases k - lo + 1,
{
    if k >= lo {
        lemma_range_product_pos(lo, k - 1);
        assert(range_product(lo, k) == k * range_product(lo, k - 1));
        assert(k * range_product(lo, k - 1) >= 1) by (nonlinear_arith)
            requires
                k >= 1,
                range_product(lo, k - 1) >= 1,
        ;
    }
}

pub proof fn lemma_range_product_mono(lo: int, k: int, hi: int)
    requires
        1 <= lo,
        lo - 1 <= k <= hi,
    ensures
        1 <= range_product(lo, k) <= range_product(lo, hi),
    decreases hi - k,
{
    lemma_range_product_pos(lo, k);
    if k < hi {
        lemma_range_product_mono(lo, k, hi - 1);
        lemma_range_product_pos(lo, hi - 1);
        assert(range_product(lo, hi) == hi * range_product(lo, hi - 1));
        assert(hi * range_product(lo, hi - 1) >= range_product(lo, hi - 1)) by (nonlinear_arith)
            requires
                hi >= 1,
                range_product(lo, hi - 1) >= 1,
        ;
    }
}

/// A nonempty rising product is at least its largest factor.
proof fn lemma_range_product_lower(lo: int, hi: int)
    requires
        1 <= lo <= hi,
    ensures
        range_product(lo, hi) >= hi,
{
    lemma_range_product_pos(lo, hi - 1);
    assert(range_product(lo, hi) == hi * range_product(lo, hi - 1));
    assert(hi * range_product(lo, hi - 1) >= hi) by (nonlinear_arith)
        requires
            hi >= 1,
            range_product(lo, hi - 1) >= 1,
    ;
}

/// The number of ways `segments` nonnegative gaps can sum to `available`:
/// the binomial coefficient computed as a falling product over a factorial.
pub fn total_possible_rows(available: usize, segments: usize) -> (r: usize)
    requires
        range_product(available as int + 1, available as int + segments as int) <= usize::MAX,
    ensures
        r == range_product(available as int + 1, available as int + segments as int)
            / range_product(1, segments as int),
{
    let ghost lo = available as int + 1;
    let ghost hi = available as int + segments as int;
    let mut dividend: usize = 1;
    let mut k: usize = 0;
    while k < segments
        invariant
            k <= segments,
            lo == available as int + 1,
            hi == available as int + segments as int,
            range_product(lo, hi) <= usize::MAX,
            dividend == range_product(lo, available as int + k as int),
        decreases segments - k,
    {
        proof {
            lemma_range_product_mono(lo, available as int + k as int + 1, hi);
            lemma_range_product_lower(lo, hi);
            assert(range_product(lo, available as int + k as int + 1) == (available as int + k
                + 1) * range_product(lo, available as int + k as int));
            assert(available as int + k + 1 <= hi);
            assert(dividend as int * (available as int + k as int + 1) == range_product(
                lo,
                available as int + k as int + 1,
            )) by (nonlinear_arith)
                requires
                    dividend as int == range_product(lo, available as int + k as int),
                    range_product(lo, available as int + k as int + 1) == (available as int
                        + k as int + 1) * range_product(lo, available as int + k as int),
            ;
        }
        dividend = dividend * (available + k + 1);
        k = k + 1;
    }
    let mut divisor: usize = 1;
    let mut m: usize = 0;
    proof {
        if segments > 0 {
            lemma_divisor_le_dividend(available as int, segments as int);
        }
    }
    while m < segments
        invariant
            m <= segments,
            range_product(1, segments as int) <= usize::MAX,
            divisor == range_product(1, m as int),
        decreases segments - m,
    {
        proof {
            lemma_range_product_mono(1, m as int + 1, segments as int);
            assert(range_product(1, m as int + 1) == (m + 1) * range_product(1, m as int));
            assert(divisor as int * (m as int + 1) == range_product(1, m as int + 1))
                by (nonlinear_arith)
                requires
                    divisor as int == range_product(1, m as int),
                    range_product(1, m as int + 1) == (m as int + 1) * range_product(
                        1,
                        m as int,
                    ),
            ;
        }
        divisor = divisor * (m + 1);
        m = m + 1;
    }
    proof {
        lemma_range_product_pos(1, segments as int);
    }
    dividend / divisor
}

/// Term by term, `1..=s` is dominated by `a+1..=a+s`.
proof fn lemma_divisor_le_dividend(a: int, s: int)
    requires
        a >= 0,
        s >= 0,
    ensures
        range_product(1, s) <= range_product(a + 1, a + s),
    decreases s,
{
    if s > 0 {
        lemma_divisor_le_dividend(a, s - 1);
        lemma_range_product_pos(1, s - 1);
        lemma_range_product_pos(a + 1, a + s - 1);
        assert(range_product(1, s) == s * range_product(1, s - 1));
        assert(range_product(a + 1, a + s) == (a + s) * range_product(a + 1, a + s - 1));
        assert(s * range_product(1, s - 1) <= (a + s) * range_product(a + 1, a + s - 1))
            by (nonlinear_arith)
            requires
                s >= 1,
                a >= 0,
                1 <= range_product(1, s - 1) <= range_product(a + 1, a + s - 1),
        ;
    }
}

/// End position of segment `i` when the segments are laid out with the
/// given gaps in front of each of them.
pub open spec fn span_end(segs: Seq<int>, sps: Seq<int>, i: int) -> int
    decreases i + 1,
{
    if i < 0 {
        0
    } else {
        span_end(segs, sps, i - 1) + sps[i] + segs[i]
    }
}

/// Turns a clue and a vector of gap widths into concrete `(start, end)`
/// spans: each segment starts its own gap after the previous segment's end.
pub fn space_width_to_row_segments(segments: &[usize], spaces: &[usize]) -> (r: Vec<
    (usize, usize),
>)
    requires
        spaces@.len() >= segments@.len(),
        span_end(ints_of(segments@), ints_of(spaces@), segments@.len() - 1) <= usize::MAX,
    ensures
        r@.len() == segments@.len(),
        forall|i: int|
            0 <= i < r@.len() ==> (#[trigger] r@[i]).0 == span_end(
                ints_of(segments@),
                ints_of(spaces@),
                i - 1,
            ) + spaces@[i] && r@[i].1 == span_end(ints_of(segments@), ints_of(spaces@), i),
{
    let ghost segv = ints_of(segments@);
    let ghost spsv = ints_of(spaces@);
    let mut row_segs: Vec<(usize, usize)> = Vec::new();
    let mut i: usize = 0;
    let mut prev_end: usize = 0;
    while i < segments.len()
        invariant
            i <= segments@.len(),
            spaces@.len() >= segments@.len(),
            segv == ints_of(segments@),
            spsv == ints_of(spaces@),
            span_end(segv, spsv, segments@.len() - 1) <= usize::MAX,
            prev_end == span_end(segv, spsv, i as int - 1),
            row_segs@.len() == i,
            forall|k: int|
                0 <= k < i ==> (#[trigger] row_segs@[k]).0 == span_end(segv, spsv, k - 1)
                    + spaces@[k] && row_segs@[k].1 == span_end(segv, spsv, k),
        decreases segments@.len() - i,
    {
        proof {
            lemma_span_end_mono(segv, spsv, i as int, segments@.len() - 1);
            lemma_span_end_nonneg(segv, spsv, i as int - 1);
        }
        let start = prev_end + spaces[i];
        let seg_end = start + segments[i];
        row_segs.push((start, seg_end));
        prev_end = seg_end;
        i = i + 1;
    }
    row_segs
}

proof fn lemma_span_end_nonneg(segs: Seq<int>, sps: Seq<int>, i: int)
    requires
        forall|k: int| 0 <= k < segs.len() ==> segs[k] >= 0,
        forall|k: int| 0 <= k < sps.len() ==> sps[k] >= 0,
        i < segs.len(),
        i < sps.len(),
    ensures
        span_end(segs, sps, i) >= 0,
    decreases i + 1,
{
    if i >= 0 {
        lemma_span_end_nonneg(segs, sps, i - 1);
    }
}

proof fn lemma_span_end_mono(segs: Seq<int>, sps: Seq<int>, i: int, j: int)
    requires
        forall|k: int| 0 <= k < segs.len() ==> segs[k] >= 0,
        forall|k: int| 0 <= k < sps.len() ==> sps[k] >= 0,
        -1 <= i <= j < segs.len(),
        j < sps.len(),
    ensures
        span_end(segs, sps, i) <= span_end(segs, sps, j),
    decreases j - i,
{
    if i < j {
        lemma_span_end_mono(segs, sps, i, j - 1);
    }
}

/// A list of spans placing the clue segments from `k` on, each span exactly
/// its segment's length, in order, separated by at least one empty cell,
/// starting no earlier than `start` and ending within `size`.
pub open spec fn placement_ok(
    p: Seq<(usize, usize)>,
    clue: Seq<int>,
    k: int,
    start: int,
    size: int,
) -> bool {
    &&& p.len() == clue.len() - k
    &&& forall|t: int| 0 <= t < p.len() ==> (#[trigger] p[t]).1 == p[t].0 + clue[k + t]
    &&& p.len() > 0 ==> p[0].0 >= start
    &&& forall|t: int| 1 <= t < p.len() ==> (#[trigger] p[t]).0 >= p[t - 1].1 + 1
    &&& p.len() > 0 ==> p.last().1 <= size
}

/// A candidate placement of the whole clue in a line of length `size`.
pub open spec fn candidate_ok(p: Seq<(usize, usize)>, clue: Seq<int>, size: int) -> bool {
    placement_ok(p, clue, 0, 0, size)
}

/// The first span of a placement sits early enough that everything behind
/// it still fits.
proof fn lemma_placement_start_bound(
    p: Seq<(usize, usize)>,
    clue: Seq<int>,
    k: int,
    start: int,
    size: int,
)
    requires
        0 <= k < clue.len(),
        placement_ok(p, clue, k, start, size),
        forall|t: int| 0 <= t < clue.len() ==> clue[t] >= 1,
    ensures
        p[0].0 + isum(clue.skip(k)) + (clue.len() - k - 1) <= size,
    decreases p.len(),
{
    crate::clues::lemma_isum_skip(clue, k);
    if p.len() == 1 {
        assert(clue.skip(k + 1) =~= Seq::<int>::empty());
        assert(p.last() == p[0]);
    } else {
        let q = p.drop_first();
        assert(placement_ok(q, clue, k + 1, p[1].0 as int, size)) by {
            assert(forall|t: int| 0 <= t < q.len() ==> q[t] == p[t + 1]);
            assert(q.last() == p.last());
        }
        lemma_placement_start_bound(q, clue, k + 1, p[1].0 as int, size);
        assert(q[0] == p[1]);
        assert(p[1].0 >= p[0].1 + 1);
        assert(p[0].1 == p[0].0 + clue[k]);
    }
}

/// Each sub-placement with one extra span `(s, s + n)` put in front.
fn prefix_span(s: usize, n: usize, subs: &Vec<Vec<(usize, usize)>>) -> (r: Vec<
    Vec<(usize, usize)>,
>)
    requires
        s + n <= usize::MAX,
    ensures
        r@.len() == subs@.len(),
        forall|i: int|
            0 <= i < r@.len() ==> (#[trigger] r@[i])@ == seq![(s, ((s + n) as usize))]
                + subs@[i]@,
{
    let mut r: Vec<Vec<(usize, usize)>> = Vec::new();
    let mut u: usize = 0;
    while u < subs.len()
        invariant
            s + n <= usize::MAX,
            u <= subs@.len(),
            r@.len() == u,
            forall|i: int|
                0 <= i < u ==> (#[trigger] r@[i])@ == seq![(s, ((s + n) as usize))] + subs@[i]@,
        decreases subs@.len() - u,
    {
        let sub = &subs[u];
        let mut p: Vec<(usize, usize)> = Vec::new();
        p.push((s, s + n));
        let mut w: usize = 0;
        while w < sub.len()
            invariant
                w <= sub@.len(),
                s + n <= usize::MAX,
                p@ =~= seq![(s, ((s + n) as usize))] + sub@.take(w as int),
            decreases sub@.len() - w,
        {
            p.push(sub[w]);
            proof {
                assert(p@ =~= seq![(s, ((s + n) as usize))] + sub@.take(w as int + 1));
            }
            w = w + 1;
        }
        proof {
            assert(sub@.take(sub@.len() as int) =~= sub@);
        }
        r.push(p);
        u = u + 1;
    }
    r
}

/// Every placement of the clue segments from `k` on in the cells
/// `start..size`: sound, duplicate-free and complete.
#[verifier::rlimit(100)]
fn place_from(clue: &[usize], k: usize, start: usize, size: usize) -> (r: Vec<
    Vec<(usize, usize)>,
>)
    requires
        clue_fits(ints_of(clue@), size as int),
        k <= clue@.len(),
        k < clue@.len() ==> start + isum(ints_of(clue@).skip(k as int)) + (clue@.len() - k - 1)
            <= size,
    ensures
        forall|i: int|
            0 <= i < r@.len() ==> placement_ok(
                (#[trigger] r@[i])@,
                ints_of(clue@),
                k as int,
                start as int,
                size as int,
            ),
        forall|i: int, j: int| 0 <= i < j < r@.len() ==> r@[i]@ != r@[j]@,
        forall|p: Seq<(usize, usize)>|
            #[trigger] placement_ok(p, ints_of(clue@), k as int, start as int, size as int)
                ==> exists|i: int| 0 <= i < r@.len() && (#[trigger] r@[i])@ == p,
    decreases clue@.len() - k,
{
    let cluev = Ghost(ints_of(clue@));
    let mut r: Vec<Vec<(usize, usize)>> = Vec::new();
    if k == clue.len() {
        r.push(Vec::new());
        proof {
            assert(r@[0]@ =~= Seq::<(usize, usize)>::empty());
            assert forall|p: Seq<(usize, usize)>|
                #[trigger] placement_ok(p, cluev@, k as int, start as int, size as int) implies
                exists|i: int| 0 <= i < r@.len() && (#[trigger] r@[i])@ == p by {
                assert(p.len() == 0);
                assert(p =~= r@[0]@);
            }
        }
        return r;
    }
    let n = clue[k];
    // the furthest the next segment can start while everything behind it
    // still fits
    let mut rest_needed: usize = 0;
    let mut t: usize = k;
    proof {
        crate::clues::lemma_skip_pos(cluev@, k as int);
        crate::clues::lemma_isum_lower(cluev@.skip(k as int));
        crate::clues::lemma_clue_footprint(cluev@, k as int, size as int);
        assert(cluev@.skip(k as int).len() == cluev@.len() - k);
    }
    while t < clue.len()
        invariant
            k <= t <= clue@.len(),
            k < clue@.len(),
            cluev@ == ints_of(clue@),
            clue_fits(cluev@, size as int),
            rest_needed + isum(cluev@.skip(t as int)) == isum(cluev@.skip(k as int)),
            rest_needed <= isum(cluev@.skip(k as int)),
            isum(cluev@.skip(k as int)) + (cluev@.len() - k) <= size + 1,
        decreases clue@.len() - t,
    {
        proof {
            crate::clues::lemma_isum_skip(cluev@, t as int);
            crate::clues::lemma_skip_pos(cluev@, t as int + 1);
            crate::clues::lemma_isum_lower(cluev@.skip(t as int + 1));
            assert(cluev@.skip(t as int + 1).len() == cluev@.len() - t - 1);
            assert(cluev@[t as int] == clue@[t as int] as int);
        }
        rest_needed = rest_needed + clue[t];
        t = t + 1;
    }
    proof {
        assert(cluev@.skip(clue@.len() as int) =~= Seq::<int>::empty());
        assert(rest_needed == isum(cluev@.skip(k as int)));
    }
    let len = clue.len();
    let gaps = len - k - 1;
    let max_start = size - rest_needed - gaps;
    let mut s: usize = start;
    proof {
        assert(start <= max_start + 1);
    }
    while s <= max_start
        invariant
            k < clue@.len(),
            len == clue@.len(),
            cluev@ == ints_of(clue@),
            clue_fits(cluev@, size as int),
            n == clue@[k as int],
            rest_needed == isum(cluev@.skip(k as int)),
            gaps == clue@.len() - k - 1,
            max_start == size - rest_needed - gaps,
            start <= s <= max_start + 1,
            start + rest_needed + gaps <= size,
            forall|i: int|
                0 <= i < r@.len() ==> placement_ok(
                    (#[trigger] r@[i])@,
                    cluev@,
                    k as int,
                    start as int,
                    size as int,
                ),
            forall|i: int|
                0 <= i < r@.len() ==> (#[trigger] r@[i])@.len() > 0 && r@[i]@[0].0 < s,
            forall|i: int, j: int| 0 <= i < j < r@.len() ==> r@[i]@ != r@[j]@,
            forall|p: Seq<(usize, usize)>|
                #[trigger] placement_ok(p, cluev@, k as int, start as int, size as int) && p[0].0
                    < s ==> exists|i: int| 0 <= i < r@.len() && (#[trigger] r@[i])@ == p,
        decreases max_start + 1 - s,
    {
        let ghost batch_start = r@.len() as int;
        let ghost r_head = r@;
        proof {
            crate::clues::lemma_isum_skip(cluev@, k as int);
            crate::clues::lemma_skip_pos(cluev@, k as int);
            crate::clues::lemma_isum_lower(cluev@.skip(k as int + 1));
            assert(cluev@.skip(k as int + 1).len() == cluev@.len() - k - 1);
        }
        if k + 1 == len {
            let mut p: Vec<(usize, usize)> = Vec::new();
            p.push((s, s + n));
            let ghost pv = p@;
            r.push(p);
            proof {
                assert(pv.len() == 1 && pv[0] == (s, ((s + n) as usize)));
                assert(placement_ok(pv, cluev@, k as int, start as int, size as int)) by {
                    assert(pv.last() == pv[0]);
                    assert(cluev@[k as int] == n as int);
                }
                assert(r@[r@.len() - 1]@ == pv);
                assert forall|p2: Seq<(usize, usize)>|
                    #[trigger] placement_ok(p2, cluev@, k as int, start as int, size as int)
                        && p2[0].0 < s + 1 implies exists|i: int|
                    0 <= i < r@.len() && (#[trigger] r@[i])@ == p2 by {
                    if p2[0].0 == s {
                        assert(p2.len() == 1);
                        assert(p2[0].1 == p2[0].0 + cluev@[k as int]);
                        assert(p2 =~= pv);
                        assert(r@[r@.len() - 1]@ == p2);
                    } else {
                        let i = choose|i: int|
                            0 <= i < r_head.len() && (#[trigger] r_head[i])@ == p2;
                        assert(r@[i]@ == p2);
                    }
                }
                assert forall|i: int, j: int| 0 <= i < j < r@.len() implies r@[i]@ != r@[j]@ by {
                    if j == r@.len() - 1 {
                        assert(r@[i]@[0].0 < s);
                        if r@[i]@ == r@[j]@ {
                            assert(r@[i]@[0] == r@[j]@[0]);
                        }
                    }
                }
            }
        } else {
            let subs = place_from(clue, k + 1, s + n + 1, size);
            let mut batch = prefix_span(s, n, &subs);
            let ghost batchv = batch@;
            proof {
                // each batch element places the clue from `k` on
                assert forall|i: int| 0 <= i < batchv.len() implies placement_ok(
                    (#[trigger] batchv[i])@,
                    cluev@,
                    k as int,
                    start as int,
                    size as int,
                ) && batchv[i]@.len() > 0 && batchv[i]@[0].0 == s by {
                    let sv = subs@[i]@;
                    let pv = batchv[i]@;
                    assert(pv == seq![(s, ((s + n) as usize))] + sv);
                    assert(placement_ok(sv, cluev@, k as int + 1, s as int + n + 1, size as int));
                    assert(placement_ok(pv, cluev@, k as int, start as int, size as int)) by {
                        assert(sv.len() == cluev@.len() - k - 1 >= 1);
                        assert(pv[0] == (s, ((s + n) as usize)));
                        assert(forall|t: int| 1 <= t < pv.len() ==> pv[t] == sv[t - 1]);
                        assert(pv.last() == sv.last());
                        assert(sv[0].0 >= s + n + 1);
                        assert(forall|t: int|
                            1 <= t < pv.len() ==> (#[trigger] pv[t]).1 == pv[t].0 + cluev@[k + t]);
                    }
                }
                // distinct sub-placements stay distinct with the span in front
                assert forall|i: int, j: int| 0 <= i < j < batchv.len() implies batchv[i]@
                    != batchv[j]@ by {
                    if batchv[i]@ == batchv[j]@ {
                        assert(subs@[i]@ =~= batchv[i]@.skip(1));
                        assert(subs@[j]@ =~= batchv[j]@.skip(1));
                        assert(subs@[i]@ == subs@[j]@);
                        assert(false);
                    }
                }
            }
            r.append(&mut batch);
            proof {
                assert(r@ == r_head + batchv);
                assert forall|i: int| 0 <= i < r@.len() implies placement_ok(
                    (#[trigger] r@[i])@,
                    cluev@,
                    k as int,
                    start as int,
                    size as int,
                ) && r@[i]@.len() > 0 && r@[i]@[0].0 < s + 1 by {
                    if i < r_head.len() {
                        assert(r@[i] == r_head[i]);
                    } else {
                        assert(r@[i] == batchv[i - r_head.len()]);
                    }
                }
                assert forall|i: int, j: int| 0 <= i < j < r@.len() implies r@[i]@ != r@[j]@ by {
                    if j < r_head.len() {
                        assert(r@[i] == r_head[i] && r@[j] == r_head[j]);
                    } else if i >= r_head.len() {
                        assert(r@[i] == batchv[i - r_head.len()]);
                        assert(r@[j] == batchv[j - r_head.len()]);
                    } else {
                        assert(r@[i] == r_head[i]);
                        assert(r@[j] == batchv[j - r_head.len()]);
                        assert(r@[i]@[0].0 < s);
                        assert(r@[j]@[0].0 == s);
                        if r@[i]@ == r@[j]@ {
                            assert(r@[i]@[0] == r@[j]@[0]);
                        }
                    }
                }
                // everything whose first span sits at `s` is in the batch
                assert forall|p2: Seq<(usize, usize)>|
                    #[trigger] placement_ok(p2, cluev@, k as int, start as int, size as int)
                        && p2[0].0 < s + 1 implies exists|i: int|
                    0 <= i < r@.len() && (#[trigger] r@[i])@ == p2 by {
                    if p2[0].0 == s {
                        assert(p2.len() == cluev@.len() - k >= 2);
                        let q = p2.drop_first();
                        assert(placement_ok(q, cluev@, k as int + 1, s as int + n + 1, size as int))
                            by {
                            assert(forall|t: int| 0 <= t < q.len() ==> q[t] == p2[t + 1]);
                            assert(q.last() == p2.last());
                            assert(p2[0].1 == p2[0].0 + cluev@[k as int]);
                            assert(q[0].0 >= p2[0].1 + 1);
                        }
                        let i = choose|i: int|
                            0 <= i < subs@.len() && (#[trigger] subs@[i])@ == q;
                        assert(r@[r_head.len() + i] == batchv[i]);
                        assert(batchv[i]@ == seq![(s, ((s + n) as usize))] + q);
                        assert(p2[0].1 == p2[0].0 + cluev@[k as int]);
                        assert(batchv[i]@ =~= p2);
                    } else {
                        let i = choose|i: int|
                            0 <= i < r_head.len() && (#[trigger] r_head[i])@ == p2;
                        assert(r@[i]@ == p2);
                    }
                }
            }
        }
        s = s + 1;
    }
    proof {
        // no placement starts beyond the last position tried
        assert forall|p: Seq<(usize, usize)>|
            #[trigger] placement_ok(p, cluev@, k as int, start as int, size as int) implies
            exists|i: int| 0 <= i < r@.len() && (#[trigger] r@[i])@ == p by {
            lemma_placement_start_bound(p, cluev@, k as int, start as int, size as int);
            assert(p[0].0 < s);
        }
    }
    r
}

/// Every placement of the clue in a line of `size` cells, as span lists:
/// each returned placement is a candidate, none appears twice, and every
/// candidate appears.
pub fn enumerate_row_states(size: usize, clue: &[usize]) -> (r: Vec<Vec<(usize, usize)>>)
    requires
        clue_fits(ints_of(clue@), size as int),
    ensures
        forall|i: int|
            0 <= i < r@.len() ==> candidate_ok((#[trigger] r@[i])@, ints_of(clue@), size as int),
        forall|i: int, j: int| 0 <= i < j < r@.len() ==> r@[i]@ != r@[j]@,
        forall|p: Seq<(usize, usize)>|
            #[trigger] candidate_ok(p, ints_of(clue@), size as int) ==> exists|i: int|
                0 <= i < r@.len() && (#[trigger] r@[i])@ == p,
{
    proof {
        if clue@.len() > 0 {
            assert(ints_of(clue@).skip(0) =~= ints_of(clue@));
        }
    }
    place_from(clue, 0, 0, size)
}

/// The cell at position `b` lies inside one of the spans.
pub open spec fn covered(p: Seq<(usize, usize)>, b: int) -> bool {
    exists|t: int| 0 <= t < p.len() && (#[trigger] p[t]).0 <= b < p[t].1
}

/// The fully determined line a span list induces on `size` cells.
pub open spec fn line_of(p: Seq<(usize, usize)>, size: int) -> Seq<CellState> {
    Seq::new(
        size as nat,
        |b: int|
            if covered(p, b) {
                CellState::Filled
            } else {
                CellState::Empty
            },
    )
}

/// Builds the line a span list induces on `size` cells.
fn line_of_spans(p: &Vec<(usize, usize)>, size: usize) -> (r: StateRow)
    ensures
        r@ == line_of(p@, size as int),
{
    let mut cells: Vec<CellState> = Vec::new();
    let mut b: usize = 0;
    while b < size
        invariant
            b <= size,
            cells@.len() == b,
            forall|k: int| 0 <= k < b ==> #[trigger] cells@[k] == line_of(p@, size as int)[k],
        decreases size - b,
    {
        let mut hit = false;
        let mut t: usize = 0;
        while t < p.len()
            invariant
                t <= p@.len(),
                b < size,
                hit == exists|u: int| 0 <= u < t && (#[trigger] p@[u]).0 <= b < p@[u].1,
            decreases p@.len() - t,
        {
            let (lo, hi) = p[t];
            if lo <= b && b < hi {
                proof {
                    assert((p@[t as int]).0 <= b < p@[t as int].1);
                }
                hit = true;
            }
            t = t + 1;
        }
        proof {
            assert(hit == covered(p@, b as int));
        }
        if hit {
            cells.push(CellState::Filled);
        } else {
            cells.push(CellState::Empty);
        }
        b = b + 1;
    }
    proof {
        assert(cells@ =~= line_of(p@, size as int));
    }
    StateRow(cells)
}

/// The span lists whose induced line agrees with the known line, kept in
/// order.
pub open spec fn spans_pruned(known: Seq<CellState>, states: Seq<Vec<(usize, usize)>>) -> Seq<
    Seq<(usize, usize)>,
>
    decreases states.len(),
{
    if states.len() == 0 {
        Seq::empty()
    } else {
        let rest = spans_pruned(known, states.drop_last());
        if row_compatible(known, line_of(states.last()@, known.len() as int)) {
            rest.push(states.last()@)
        } else {
            rest
        }
    }
}

/// The candidates of `previous_states` whose induced line agrees with the
/// known line, in their original order.
pub fn filter_invalid_row_states(
    known_row: &StateRow,
    previous_states: &[Vec<(usize, usize)>],
) -> (r: Vec<Vec<(usize, usize)>>)
    ensures
        r@.map_values(|p: Vec<(usize, usize)>| p@) == spans_pruned(
            known_row@,
            previous_states@,
        ),
{
    let size = known_row.0.len();
    let mut r: Vec<Vec<(usize, usize)>> = Vec::new();
    let mut i: usize = 0;
    proof {
        assert(r@.map_values(|p: Vec<(usize, usize)>| p@) =~= spans_pruned(
            known_row@,
            previous_states@.take(0),
        ));
    }
    while i < previous_states.len()
        invariant
            i <= previous_states@.len(),
            size == known_row@.len(),
            r@.map_values(|p: Vec<(usize, usize)>| p@) == spans_pruned(
                known_row@,
                previous_states@.take(i as int),
            ),
        decreases previous_states@.len() - i,
    {
        let ghost before = r@;
        let line = line_of_spans(&previous_states[i], size);
        let keep = crate::solution::row_matches(known_row, &line);
        if keep {
            let state = &previous_states[i];
            let mut copy: Vec<(usize, usize)> = Vec::new();
            let mut t: usize = 0;
            while t < state.len()
                invariant
                    t <= state@.len(),
                    copy@ =~= state@.take(t as int),
                decreases state@.len() - t,
            {
                copy.push(state[t]);
                t = t + 1;
            }
            proof {
                assert(copy@ =~= previous_states@[i as int]@);
            }
            r.push(copy);
        }
        proof {
            let tk = previous_states@.take(i as int + 1);
            assert(tk.drop_last() =~= previous_states@.take(i as int));
            assert(tk.last() == previous_states@[i as int]);
            if keep {
                assert(r@.map_values(|p: Vec<(usize, usize)>| p@) =~= before.map_values(
                    |p: Vec<(usize, usize)>| p@,
                ).push(previous_states@[i as int]@));
            } else {
                assert(r@.map_values(|p: Vec<(usize, usize)>| p@) =~= before.map_values(
                    |p: Vec<(usize, usize)>| p@,
                ));
            }
        }
        i = i + 1;
    }
    proof {
        assert(previous_states@.take(previous_states@.len() as int) =~= previous_states@);
    }
    r
}

/// The per-line arc-consistency step over span-list candidates: each
/// position of a line of `size` cells at which every candidate's induced
/// line agrees, with the cell they agree on, in index order.
pub fn common_row_indexes(states: &[Vec<(usize, usize)>], size: usize) -> (r: Vec<
    (usize, CellState),
>)
    requires
        states@.len() > 0,
    ensures
        r@ == common_spec_lines(states@, size as int),
{
    let mut rows: Vec<StateRow> = Vec::new();
    let mut i: usize = 0;
    while i < states.len()
        invariant
            i <= states@.len(),
            rows@.len() == i,
            forall|k: int|
                0 <= k < i ==> (#[trigger] rows@[k])@ == line_of(states@[k]@, size as int),
        decreases states@.len() - i,
    {
        rows.push(line_of_spans(&states[i], size));
        i = i + 1;
    }
    let out = crate::solution::common_row_indexes(rows.as_slice());
    proof {
        lemma_common_lines(rows@, states@, size as int, size as int);
        assert(rows@[0]@.len() == size);
    }
    out
}

/// The forced positions over the induced lines of span-list candidates.
pub open spec fn common_spec_lines(states: Seq<Vec<(usize, usize)>>, size: int) -> Seq<
    (usize, CellState),
>
    decreases size,
{
    if size <= 0 {
        Seq::empty()
    } else {
        let prefix = common_spec_lines(states, size - 1);
        if forced_lines_at(states, size - 1, size, CellState::Empty) {
            prefix.push((((size - 1) as usize), CellState::Empty))
        } else if forced_lines_at(states, size - 1, size, CellState::Filled) {
            prefix.push((((size - 1) as usize), CellState::Filled))
        } else {
            prefix
        }
    }
}

/// Every candidate's induced line holds cell `v` at position `i`.
pub open spec fn forced_lines_at(
    states: Seq<Vec<(usize, usize)>>,
    i: int,
    size: int,
    v: CellState,
) -> bool {
    forall|k: int| 0 <= k < states.len() ==> line_of((#[trigger] states[k])@, size)[i] == v
}

/// The reduction over the built lines is the reduction over the span lists
/// they came from.
proof fn lemma_common_lines(
    rows: Seq<StateRow>,
    states: Seq<Vec<(usize, usize)>>,
    size: int,
    upto: int,
)
    requires
        rows.len() == states.len(),
        forall|k: int| 0 <= k < rows.len() ==> (#[trigger] rows[k])@ == line_of(states[k]@, size),
        0 <= upto <= size,
    ensures
        common_spec(rows, upto) == common_spec_lines(states, upto),
    decreases upto,
{
    if upto > 0 {
        lemma_common_lines(rows, states, size, upto - 1);
        assert(forced_at(rows, upto - 1, CellState::Empty) == forced_lines_at(
            states,
            upto - 1,
            size,
            CellState::Empty,
        )) by {
            if forced_at(rows, upto - 1, CellState::Empty) {
                assert forall|k: int| 0 <= k < states.len() implies line_of(
                    (#[trigger] states[k])@,
                    size,
                )[upto - 1] == CellState::Empty by {
                    assert(rows[k]@ == line_of(states[k]@, size));
                    assert(rows[k]@[upto - 1] == CellState::Empty);
                }
            }
            if forced_lines_at(states, upto - 1, size, CellState::Empty) {
                assert forall|k: int| 0 <= k < rows.len() implies (#[trigger] rows[k])@[upto - 1]
                    == CellState::Empty by {
                    assert(line_of(states[k]@, size)[upto - 1] == CellState::Empty);
                }
            }
        }
        assert(forced_at(rows, upto - 1, CellState::Filled) == forced_lines_at(
            states,
            upto - 1,
            size,
            CellState::Filled,
        )) by {
            if forced_at(rows, upto - 1, CellState::Filled) {
                assert forall|k: int| 0 <= k < states.len() implies line_of(
                    (#[trigger] states[k])@,
                    size,
                )[upto - 1] == CellState::Filled by {
                    assert(rows[k]@ == line_of(states[k]@, size));
                    assert(rows[k]@[upto - 1] == CellState::Filled);
                }
            }
            if forced_lines_at(states, upto - 1, size, CellState::Filled) {
                assert forall|k: int| 0 <= k < rows.len() implies (#[trigger] rows[k])@[upto - 1]
                    == CellState::Filled by {
                    assert(line_of(states[k]@, size)[upto - 1] == CellState::Filled);
                }
            }
        }
    }
}

} // verus!
