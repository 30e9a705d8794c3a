//! Clue derivation: turning a binary line into the ordered list of lengths
//! of its runs of set cells, together with the basic facts about such run
//! lists that the rest of the crate builds on.

use vstd::prelude::*;

verus! {

/// Length of the maximal run of `true` at the front of `s`.
pub open spec fn leading_run(s: Seq<bool>) -> nat
    decreases s.len(),
{
    if s.len() == 0 || !s[0] {
        0
    } else {
        (1 + leading_run(s.drop_first())) as nat
    }
}

/// The clue of a binary line: the lengths of its maximal runs of `true`,
/// in order from the front.
pub open spec fn clue_of(s: Seq<bool>) -> Seq<int>
    decreases s.len(),
{
    if s.len() == 0 {
        Seq::empty()
    } else {
        let rest = clue_of(s.drop_first());
        if !s[0] {
            rest
        } else if s.len() >= 2 && s[1] {
            seq![rest[0] + 1] + rest.drop_first()
        } else {
            seq![1] + rest
        }
    }
}

/// Sum of a sequence of integers.
pub open spec fn isum(s: Seq<int>) -> int
    decreases s.len(),
{
    if s.len() == 0 {
        0
    } else {
        s[0] + isum(s.drop_first())
    }
}

/// A sequence of machine integers, read as mathematical integers.
pub open spec fn ints_of(s: Seq<usize>) -> Seq<int> {
    s.map_values(|x: usize| x as int)
}

/// A line of cells read as a binary line: nonzero means set.
pub open spec fn bit_row(s: Seq<u8>) -> Seq<bool> {
    s.map_values(|x: u8| x != 0)
}

/// A clue that can be laid out in a line of the given length: every entry
/// positive, and the cells plus the mandatory single-cell gaps fit.
pub open spec fn clue_fits(c: Seq<int>, size: int) -> bool {
    &&& forall|i: int| 0 <= i < c.len() ==> c[i] >= 1
    &&& c.len() > 0 ==> isum(c) + c.len() - 1 <= size
}

pub proof fn lemma_clue_pos(s: Seq<bool>)
    ensures
        forall|i: int| 0 <= i < clue_of(s).len() ==> clue_of(s)[i] >= 1,
        s.len() > 0 && s[0] ==> clue_of(s).len() >= 1,
    decreases s.len(),
{
    if s.len() == 0 {
    } else {
        let t = s.drop_first();
        lemma_clue_pos(t);
        let rest = clue_of(t);
        if !s[0] {
        } else if s.len() >= 2 && s[1] {
            assert(t.len() > 0 && t[0]);
            assert(rest.len() >= 1);
            let c = seq![rest[0] + 1] + rest.drop_first();
            assert(clue_of(s) == c);
            assert(forall|i: int| 0 <= i < c.len() ==> c[i] >= 1) by {
                assert(forall|i: int| 1 <= i < c.len() ==> c[i] == rest[i]);
            }
        } else {
            let c = seq![1int] + rest;
            assert(clue_of(s) == c);
            assert(forall|i: int| 1 <= i < c.len() ==> c[i] == rest[i - 1]);
        }
    }
}

pub proof fn lemma_clue_last_pos(s: Seq<bool>)
    ensures
        s.len() > 0 && s.last() ==> clue_of(s).len() >= 1,
    decreases s.len(),
{
    if s.len() == 0 {
    } else {
        let t = s.drop_first();
        lemma_clue_last_pos(t);
        if s.len() >= 2 {
            assert(t.last() == s.last());
        }
    }
}

pub proof fn lemma_clue_fit(s: Seq<bool>)
    ensures
        clue_of(s).len() > 0 ==> isum(clue_of(s)) + clue_of(s).len() - 1 <= s.len(),
        clue_of(s).len() > 0 && !s[0] ==> isum(clue_of(s)) + clue_of(s).len() - 1 <= s.len()
            - 1,
    decreases s.len(),
{
    if s.len() == 0 {
    } else {
        let t = s.drop_first();
        lemma_clue_fit(t);
        lemma_clue_pos(t);
        let rest = clue_of(t);
        if !s[0] {
        } else if s.len() >= 2 && s[1] {
            let c = clue_of(s);
            assert(c == seq![rest[0] + 1] + rest.drop_first());
            assert(rest.len() >= 1);
            assert(c.drop_first() =~= rest.drop_first());
            assert(isum(c) == rest[0] + 1 + isum(rest.drop_first()));
            assert(isum(rest) == rest[0] + isum(rest.drop_first()));
        } else {
            let c = clue_of(s);
            assert(c == seq![1] + rest);
            assert(c.drop_first() =~= rest);
            assert(isum(c) == 1 + isum(rest));
            if rest.len() > 0 {
                assert(s.len() >= 2 && !s[1]);
                assert(!t[0]);
            }
        }
    }
}

/// How the clue of a concatenation relates to the clues of its parts:
/// the runs simply sit side by side, except that a run ending exactly at
/// the boundary merges with a run starting exactly there.
pub proof fn lemma_clue_concat(a: Seq<bool>, b: Seq<bool>)
    ensures
        clue_of(a + b) == (if a.len() == 0 {
            clue_of(b)
        } else if b.len() == 0 {
            clue_of(a)
        } else if a.last() && b.first() {
            clue_of(a).drop_last() + seq![clue_of(a).last() + clue_of(b).first()] + clue_of(
                b,
            ).drop_first()
        } else {
            clue_of(a) + clue_of(b)
        }),
    decreases a.len(),
{
    if a.len() == 0 {
        assert(a + b =~= b);
    } else if b.len() == 0 {
        assert(a + b =~= a);
    } else if a.len() == 1 {
        let s = a + b;
        assert(s.drop_first() =~= b);
        lemma_clue_pos(b);
        assert(a.drop_first().len() == 0);
        assert(clue_of(a.drop_first()) == Seq::<int>::empty());
        if !a[0] {
            assert(clue_of(a) =~= Seq::<int>::empty());
            assert(clue_of(s) == clue_of(b));
            assert(clue_of(a) + clue_of(b) =~= clue_of(b));
        } else {
            assert(clue_of(a) =~= seq![1int]);
            if b[0] {
                assert(s.len() >= 2 && s[1] == b[0]);
                assert(clue_of(s) == seq![clue_of(b)[0] + 1] + clue_of(b).drop_first());
                assert(clue_of(a).drop_last() =~= Seq::<int>::empty());
                assert(clue_of(a).drop_last() + seq![clue_of(a).last() + clue_of(b).first()]
                    + clue_of(b).drop_first() =~= seq![clue_of(b)[0] + 1] + clue_of(
                    b,
                ).drop_first());
            } else {
                assert(clue_of(s) == seq![1int] + clue_of(b));
                assert(clue_of(a) + clue_of(b) =~= seq![1int] + clue_of(b));
            }
        }
    } else {
        let s = a + b;
        let adf = a.drop_first();
        assert(s.drop_first() =~= adf + b);
        lemma_clue_concat(adf, b);
        lemma_clue_pos(adf);
        lemma_clue_last_pos(adf);
        lemma_clue_pos(b);
        let ap = clue_of(a);
        let apdf = clue_of(adf);
        let bp = clue_of(b);
        let rest = clue_of(adf + b);
        assert(adf.last() == a.last());
        assert(s[0] == a[0] && s[1] == a[1] && adf[0] == a[1]);
        if a.last() && b.first() {
            // runs merge at the boundary
            assert(apdf.len() >= 1);
            let merged = apdf.drop_last() + seq![apdf.last() + bp.first()] + bp.drop_first();
            assert(rest == merged);
            if !a[0] {
                assert(clue_of(s) == rest);
                assert(ap == apdf);
            } else if a[1] {
                assert(apdf.len() >= 1);
                assert(ap == seq![apdf[0] + 1] + apdf.drop_first());
                assert(clue_of(s) == seq![rest[0] + 1] + rest.drop_first());
                if apdf.len() == 1 {
                    assert(apdf.drop_last() =~= Seq::<int>::empty());
                    assert(merged =~= seq![apdf[0] + bp[0]] + bp.drop_first());
                    assert(rest[0] == apdf[0] + bp[0]);
                    assert(rest.drop_first() =~= bp.drop_first());
                    assert(ap =~= seq![apdf[0] + 1]);
                    assert(ap.drop_last() =~= Seq::<int>::empty());
                    assert(ap.last() == apdf[0] + 1);
                    assert(clue_of(s) =~= ap.drop_last() + seq![ap.last() + bp.first()]
                        + bp.drop_first());
                } else {
                    assert(merged[0] == apdf[0]);
                    assert(clue_of(s) =~= seq![apdf[0] + 1] + merged.drop_first());
                    assert(ap.last() == apdf.last());
                    assert(ap.drop_last() =~= seq![apdf[0] + 1] + apdf.drop_first().drop_last());
                    assert(apdf.drop_first().drop_last() =~= apdf.drop_last().drop_first());
                    assert(merged.drop_first() =~= apdf.drop_last().drop_first() + seq![apdf.last()
                        + bp.first()] + bp.drop_first());
                    assert(clue_of(s) =~= ap.drop_last() + seq![ap.last() + bp.first()]
                        + bp.drop_first());
                }
            } else {
                assert(ap == seq![1int] + apdf);
                assert(clue_of(s) == seq![1int] + rest);
                assert(ap.last() == apdf.last());
                assert(ap.drop_last() =~= seq![1int] + apdf.drop_last());
                assert(clue_of(s) =~= ap.drop_last() + seq![ap.last() + bp.first()]
                    + bp.drop_first());
            }
        } else {
            assert(rest == apdf + bp);
            if !a[0] {
                assert(clue_of(s) == rest);
                assert(ap == apdf);
            } else if a[1] {
                assert(apdf.len() >= 1);
                assert(ap == seq![apdf[0] + 1] + apdf.drop_first());
                assert(rest[0] == apdf[0]);
                assert(clue_of(s) == seq![rest[0] + 1] + rest.drop_first());
                assert(rest.drop_first() =~= apdf.drop_first() + bp);
                assert(clue_of(s) =~= ap + bp);
            } else {
                assert(ap == seq![1int] + apdf);
                assert(clue_of(s) == seq![1int] + rest);
                assert(clue_of(s) =~= ap + bp);
            }
        }
    }
}

pub proof fn lemma_clue_falses(s: Seq<bool>)
    requires
        forall|i: int| 0 <= i < s.len() ==> !s[i],
    ensures
        clue_of(s) == Seq::<int>::empty(),
    decreases s.len(),
{
    if s.len() > 0 {
        lemma_clue_falses(s.drop_first());
    }
}

pub proof fn lemma_clue_trues(s: Seq<bool>)
    requires
        forall|i: int| 0 <= i < s.len() ==> s[i],
        s.len() > 0,
    ensures
        clue_of(s) == seq![s.len() as int],
    decreases s.len(),
{
    if s.len() == 1 {
        assert(s.drop_first().len() == 0);
        assert(clue_of(s.drop_first()) == Seq::<int>::empty());
        assert(clue_of(s) =~= seq![1int]);
    } else {
        lemma_clue_trues(s.drop_first());
        assert(clue_of(s) =~= seq![s.len() as int]);
    }
}

pub proof fn lemma_leading_run(s: Seq<bool>)
    ensures
        leading_run(s) <= s.len(),
        forall|i: int| 0 <= i < leading_run(s) ==> s[i],
        leading_run(s) < s.len() ==> !s[leading_run(s) as int],
        s.len() > 0 && s[0] ==> leading_run(s) >= 1,
    decreases s.len(),
{
    if s.len() == 0 || !s[0] {
    } else {
        let t = s.drop_first();
        lemma_leading_run(t);
        assert(forall|i: int| 1 <= i < leading_run(s) ==> s[i] == t[i - 1]);
        if leading_run(s) < s.len() {
            assert(s[leading_run(s) as int] == t[leading_run(t) as int]);
        }
    }
}

/// A line that starts inside a run splits into that whole run and the rest.
pub proof fn lemma_first_run(s: Seq<bool>)
    requires
        s.len() > 0,
        s[0],
    ensures
        clue_of(s) == seq![leading_run(s) as int] + clue_of(s.skip(leading_run(s) as int)),
{
    let n = leading_run(s) as int;
    lemma_leading_run(s);
    let a = s.take(n);
    let b = s.skip(n);
    assert(s =~= a + b);
    lemma_clue_trues(a);
    lemma_clue_concat(a, b);
    if b.len() > 0 {
        assert(!b.first());
    }
}

pub proof fn lemma_isum_lower(c: Seq<int>)
    requires
        forall|i: int| 0 <= i < c.len() ==> c[i] >= 1,
    ensures
        isum(c) >= c.len(),
    decreases c.len(),
{
    if c.len() > 0 {
        let t = c.drop_first();
        assert(forall|i: int| 0 <= i < t.len() ==> t[i] == c[i + 1]);
        lemma_isum_lower(t);
    }
}

/// Unfolding a sum one entry at a time from position `j`.
pub proof fn lemma_isum_skip(c: Seq<int>, j: int)
    requires
        0 <= j < c.len(),
    ensures
        isum(c.skip(j)) == c[j] + isum(c.skip(j + 1)),
{
    assert(c.skip(j).drop_first() =~= c.skip(j + 1));
    assert(c.skip(j)[0] == c[j]);
}

/// Entries of a skipped tail keep their lower bound.
pub proof fn lemma_skip_pos(c: Seq<int>, j: int)
    requires
        forall|i: int| 0 <= i < c.len() ==> c[i] >= 1,
        0 <= j <= c.len(),
    ensures
        forall|i: int| 0 <= i < c.skip(j).len() ==> c.skip(j)[i] >= 1,
{
    assert(forall|i: int| 0 <= i < c.skip(j).len() ==> c.skip(j)[i] == c[i + j]);
}

/// The whole clue laid out in a line of length `size` leaves every partial
/// sum of segment lengths within `size`.
pub proof fn lemma_clue_footprint(clue: Seq<int>, j: int, size: int)
    requires
        clue_fits(clue, size),
        0 <= j <= clue.len(),
        size >= 0,
    ensures
        isum(clue.skip(j)) + (clue.len() - j) <= size + 1,
        isum(clue.skip(j)) >= 0,
    decreases j,
{
    if j == clue.len() {
        assert(clue.skip(j) =~= Seq::<int>::empty());
        lemma_isum_lower(clue);
        if clue.len() > 0 {
        }
    } else if j == 0 {
        assert(clue.skip(0) =~= clue);
        lemma_skip_pos(clue, 0);
        lemma_isum_lower(clue.skip(0));
    } else {
        lemma_clue_footprint(clue, j - 1, size);
        lemma_isum_skip(clue, j - 1);
        lemma_skip_pos(clue, j);
        lemma_isum_lower(clue.skip(j));
    }
}

/// Sum of the tail from `j`, bounded via the whole clue's footprint.
pub proof fn lemma_isum_skip_all(clue: Seq<int>, j: int)
    requires
        0 <= j <= clue.len(),
        forall|i: int| 0 <= i < clue.len() ==> clue[i] >= 1,
    ensures
        isum(clue.skip(j)) <= isum(clue) - j,
    decreases j,
{
    if j > 0 {
        lemma_isum_skip_all(clue, j - 1);
        lemma_isum_skip(clue, j - 1);
    } else {
        assert(clue.skip(0) =~= clue);
    }
}

/// Intermediate state of a left-to-right scan that is computing a clue:
/// the runs already emitted, the length of the currently open run, and the
/// cells still to be scanned.
pub open spec fn scan_clue(done: Seq<int>, cur: int, rest: Seq<bool>) -> Seq<int> {
    if cur == 0 {
        done + clue_of(rest)
    } else if rest.len() > 0 && rest[0] {
        done + seq![cur + clue_of(rest)[0]] + clue_of(rest).drop_first()
    } else {
        done + seq![cur] + clue_of(rest)
    }
}

pub proof fn lemma_scan_step_true(done: Seq<int>, cur: int, rest: Seq<bool>)
    requires
        rest.len() > 0,
        rest[0],
        cur >= 0,
    ensures
        scan_clue(done, cur, rest) == scan_clue(done, cur + 1, rest.drop_first()),
{
    let rdf = rest.drop_first();
    lemma_clue_pos(rdf);
    if rdf.len() > 0 && rdf[0] {
        assert(rest.len() >= 2 && rest[1]);
        assert(clue_of(rest) == seq![clue_of(rdf)[0] + 1] + clue_of(rdf).drop_first());
        assert(clue_of(rest)[0] == clue_of(rdf)[0] + 1);
        assert(clue_of(rest).drop_first() =~= clue_of(rdf).drop_first());
        if cur == 0 {
            assert(scan_clue(done, cur, rest) =~= scan_clue(done, cur + 1, rdf));
        } else {
            assert(scan_clue(done, cur, rest) =~= scan_clue(done, cur + 1, rdf));
        }
    } else {
        assert(clue_of(rest) == seq![1int] + clue_of(rdf));
        assert(clue_of(rest)[0] == 1);
        assert(clue_of(rest).drop_first() =~= clue_of(rdf));
        assert(scan_clue(done, cur, rest) =~= scan_clue(done, cur + 1, rdf));
    }
}

pub proof fn lemma_scan_step_false(done: Seq<int>, cur: int, rest: Seq<bool>)
    requires
        rest.len() > 0,
        !rest[0],
        cur >= 0,
    ensures
        scan_clue(done, cur, rest) == scan_clue(
            if cur > 0 {
                done.push(cur)
            } else {
                done
            },
            0,
            rest.drop_first(),
        ),
{
    let rdf = rest.drop_first();
    assert(clue_of(rest) == clue_of(rdf));
    if cur > 0 {
        assert(scan_clue(done, cur, rest) =~= done.push(cur) + clue_of(rdf));
    }
}

pub proof fn lemma_scan_end(done: Seq<int>, cur: int)
    requires
        cur >= 0,
    ensures
        scan_clue(done, cur, Seq::<bool>::empty()) == (if cur > 0 {
            done.push(cur)
        } else {
            done
        }),
{
    assert(clue_of(Seq::<bool>::empty()) == Seq::<int>::empty());
    if cur > 0 {
        assert(scan_clue(done, cur, Seq::<bool>::empty()) =~= done.push(cur));
    } else {
        assert(scan_clue(done, cur, Seq::<bool>::empty()) =~= done);
    }
}

/// The ordered run lengths of the nonzero cells of one binary line.
///
/// An all-zero line yields the empty clue.
pub fn build_clue(row: &Vec<u8>) -> (r: Vec<usize>)
    ensures
        ints_of(r@) == clue_of(bit_row(row@)),
{
    let whole = Ghost(bit_row(row@));
    let mut runs: Vec<usize> = Vec::new();
    let mut cur: usize = 0;
    let mut i: usize = 0;
    proof {
        assert(whole@.skip(0) =~= whole@);
        assert(ints_of(runs@) =~= Seq::<int>::empty());
    }
    while i < row.len()
        invariant
            i <= row@.len(),
            cur <= i,
            whole@ == bit_row(row@),
            clue_of(whole@) == scan_clue(ints_of(runs@), cur as int, whole@.skip(i as int)),
        decreases row@.len() - i,
    {
        let ghost rest = whole@.skip(i as int);
        proof {
            assert(rest.len() > 0);
            assert(rest[0] == (row@[i as int] != 0));
            assert(rest.drop_first() =~= whole@.skip(i as int + 1));
        }
        if row[i] != 0 {
            proof {
                lemma_scan_step_true(ints_of(runs@), cur as int, rest);
            }
            cur = cur + 1;
        } else {
            proof {
                lemma_scan_step_false(ints_of(runs@), cur as int, rest);
            }
            if cur > 0 {
                let ghost before = runs@;
                runs.push(cur);
                proof {
                    assert(ints_of(runs@) =~= ints_of(before).push(cur as int));
                }
            }
            cur = 0;
        }
        i = i + 1;
    }
    proof {
        assert(whole@.skip(i as int) =~= Seq::<bool>::empty());
        lemma_scan_end(ints_of(runs@), cur as int);
    }
    if cur > 0 {
        let ghost before = runs@;
        runs.push(cur);
        proof {
            assert(ints_of(runs@) =~= ints_of(before).push(cur as int));
        }
    }
    runs
}

} // verus!
