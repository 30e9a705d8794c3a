//! One line of the grid, as a row of tri-state cells.
//!
//! During enumeration a `StateRow` is a partial search state: a fully
//! determined prefix followed by Unknown cells.  The two production rules
//! (`new_w_appended_seg`, `new_w_appended_zero`) extend such a state by one
//! step, exactly as the branching search of the enumerator requires.

use vstd::prelude::*;

use crate::clues::{clue_of, clue_fits, ints_of, isum};
use crate::solution::{bits_of, determined, valid_line, CellState};

verus! {

#[derive(Eq, Clone, Debug, Hash)]
pub struct StateRow(pub Vec<CellState>);

impl View for StateRow {
    type V = Seq<CellState>;

    open spec fn view(&self) -> Seq<CellState> {
        self.0@
    }
}

impl PartialEq for StateRow {
    fn eq(&self, other: &StateRow) -> (r: bool)
        ensures
            r == (self@ == other@),
    {
        if self.0.len() != other.0.len() {
            proof {
                assert(self@ != other@);
            }
            return false;
        }
        let mut i: usize = 0;
        while i < self.0.len()
            invariant
                i <= self@.len(),
                self@.len() == other@.len(),
                forall|k: int| 0 <= k < i ==> self@[k] == other@[k],
            decreases self@.len() - i,
        {
            if self.0[i] != other.0[i] {
                return false;
            }
            i = i + 1;
        }
        proof {
            assert(self@ =~= other@);
        }
        true
    }
}

impl vstd::std_specs::cmp::PartialEqSpecImpl for StateRow {
    open spec fn obeys_eq_spec() -> bool {
        true
    }

    open spec fn eq_spec(&self, other: &StateRow) -> bool {
        self@ == other@
    }
}

/// A sequence of `n` Unknown cells.
pub open spec fn unknown_seq(n: int) -> Seq<CellState> {
    Seq::new(n as nat, |i| CellState::Unknown)
}

/// A sequence of `n` Filled cells.
pub open spec fn filled_seq(n: int) -> Seq<CellState> {
    Seq::new(n as nat, |i| CellState::Filled)
}

/// Number of determined cells at the front of the line.
pub open spec fn det_prefix(s: Seq<CellState>) -> nat
    decreases s.len(),
{
    if s.len() == 0 || s[0] is Unknown {
        0
    } else {
        (1 + det_prefix(s.drop_first())) as nat
    }
}

/// A well-formed partial search state: a determined prefix, then only
/// Unknown cells.
pub open spec fn wf_partial(s: Seq<CellState>) -> bool {
    forall|i: int| det_prefix(s) <= i < s.len() ==> s[i] is Unknown
}

/// The determined prefix of a partial state.
pub open spec fn prefix_of(s: Seq<CellState>) -> Seq<CellState> {
    s.take(det_prefix(s) as int)
}

/// The prefix ends inside-or-just-after a run of Filled cells.
pub open spec fn ends_filled(q: Seq<CellState>) -> bool {
    q.len() > 0 && q.last() is Filled
}

/// Cells still needed to place the clue segments not yet consumed by the
/// prefix: their total length, the mandatory gaps between them, and one
/// separating cell if the prefix currently ends in a Filled run.
pub open spec fn spec_required(q: Seq<CellState>, clue: Seq<int>) -> int {
    let j = clue_of(bits_of(q)).len() as int;
    if j >= clue.len() {
        0
    } else {
        isum(clue.skip(j)) + (clue.len() - j - 1) + (if ends_filled(q) {
            1int
        } else {
            0int
        })
    }
}

/// A partial state the branching search can still be standing on: the
/// prefix's runs are a fully placed prefix of the clue, and the clue
/// segments not yet placed still fit in the undetermined remainder.
pub open spec fn viable(p: Seq<CellState>, clue: Seq<int>) -> bool {
    let q = prefix_of(p);
    let c = clue_of(bits_of(q));
    &&& wf_partial(p)
    &&& c.len() <= clue.len()
    &&& c == clue.take(c.len() as int)
    &&& spec_required(q, clue) <= p.len() - det_prefix(p)
}

pub proof fn lemma_det_prefix_facts(s: Seq<CellState>)
    ensures
        det_prefix(s) <= s.len(),
        forall|i: int| 0 <= i < det_prefix(s) ==> !(s[i] is Unknown),
        det_prefix(s) < s.len() ==> s[det_prefix(s) as int] is Unknown,
    decreases s.len(),
{
    if s.len() == 0 || s[0] is Unknown {
    } else {
        let t = s.drop_first();
        lemma_det_prefix_facts(t);
        assert(forall|i: int| 1 <= i < det_prefix(s) ==> s[i] == t[i - 1]);
        if det_prefix(s) < s.len() {
            assert(s[det_prefix(s) as int] == t[det_prefix(t) as int]);
        }
    }
}

/// A line made of a determined part followed by Unknowns is a well-formed
/// partial state whose determined prefix is exactly that part.
pub proof fn lemma_det_prefix_shape(d: Seq<CellState>, m: int)
    requires
        determined(d),
        m >= 0,
    ensures
        det_prefix(d + unknown_seq(m)) == d.len(),
        wf_partial(d + unknown_seq(m)),
        prefix_of(d + unknown_seq(m)) == d,
    decreases d.len(),
{
    let s = d + unknown_seq(m);
    if d.len() == 0 {
        if m > 0 {
            assert(s[0] is Unknown);
        }
        assert(det_prefix(s) == 0);
        assert(forall|i: int| 0 <= i < s.len() ==> s[i] is Unknown);
        assert(prefix_of(s) =~= d);
    } else {
        assert(!(s[0] is Unknown));
        lemma_det_prefix_shape(d.drop_first(), m);
        assert(s.drop_first() =~= d.drop_first() + unknown_seq(m));
        assert(det_prefix(s) == d.len());
        assert(forall|i: int|
            det_prefix(s) <= i < s.len() ==> s[i] == unknown_seq(m)[i - d.len()]);
        assert(prefix_of(s) =~= d);
    }
}

impl StateRow {
    /// True iff every cell of the line is determined.
    pub fn is_known(&self) -> (r: bool)
        ensures
            r == determined(self@),
    {
        let mut i: usize = 0;
        while i < self.0.len()
            invariant
                i <= self@.len(),
                forall|k: int| 0 <= k < i ==> !(self@[k] is Unknown),
            decreases self@.len() - i,
        {
            if matches!(self.0[i], CellState::Unknown) {
                return false;
            }
            i = i + 1;
        }
        true
    }

    /// The cell at `index`, or nothing when the index is out of range.
    pub fn state_at_index(&self, index: usize) -> (r: Option<CellState>)
        ensures
            r == if index < self@.len() {
                Some(self@[index as int])
            } else {
                None::<CellState>
            },
    {
        if index < self.0.len() {
            Some(self.0[index])
        } else {
            None
        }
    }

    /// Length of the determined prefix.
    fn known_len(&self) -> (k: usize)
        requires
            wf_partial(self@),
        ensures
            k == det_prefix(self@),
    {
        let mut i: usize = 0;
        loop
            invariant
                wf_partial(self@),
                i <= self@.len(),
                forall|k: int| 0 <= k < i ==> !(self@[k] is Unknown),
            decreases self@.len() - i,
        {
            if i == self.0.len() || matches!(self.0[i], CellState::Unknown) {
                proof {
                    lemma_det_prefix_from_scan(self@, i as int);
                }
                return i;
            }
            i = i + 1;
        }
    }

    /// Index of the last determined cell, if any.
    fn last_known(&self) -> (r: Option<usize>)
        requires
            wf_partial(self@),
        ensures
            r is Some <==> det_prefix(self@) > 0,
            r is Some ==> r->0 as int == det_prefix(self@) - 1,
    {
        let k = self.known_len();
        if k == 0 {
            None
        } else {
            Some(k - 1)
        }
    }

    /// True iff the prefix is empty or ends with an Empty cell; in that case
    /// a segment appended next needs no separating cell in front of it.
    fn trailing_space(&self) -> (r: bool)
        requires
            wf_partial(self@),
        ensures
            r == !ends_filled(prefix_of(self@)),
    {
        proof {
            lemma_det_prefix_facts(self@);
        }
        match self.last_known() {
            Some(n) => {
                let q = Ghost(prefix_of(self@));
                proof {
                    assert(q@.len() == det_prefix(self@));
                    assert(n as int == q@.len() - 1);
                    assert(q@[q@.len() - 1] == self@[n as int]);
                    assert(q@.last() == self@[n as int]);
                }
                match self.state_at_index(n) {
                    Some(state) => matches!(state, CellState::Empty),
                    None => false,
                }
            },
            None => {
                proof {
                    assert(prefix_of(self@).len() == 0);
                }
                true
            },
        }
    }

    /// Number of undetermined cells.
    fn remaining_cells(&self) -> (r: usize)
        requires
            wf_partial(self@),
        ensures
            r == self@.len() - det_prefix(self@),
    {
        proof {
            lemma_det_prefix_facts(self@);
        }
        self.0.len() - self.known_len()
    }
}

/// Number of clue segments fully placed by the determined prefix.
pub open spec fn used_count(p: Seq<CellState>) -> int {
    clue_of(bits_of(prefix_of(p))).len() as int
}

/// The Unknown suffix of a partial state contributes no runs: the clue of
/// the whole line equals the clue of its determined prefix.
pub proof fn lemma_prefix_clue(p: Seq<CellState>)
    requires
        wf_partial(p),
    ensures
        clue_of(bits_of(p)) == clue_of(bits_of(prefix_of(p))),
{
    lemma_det_prefix_facts(p);
    let q = prefix_of(p);
    let u = p.skip(det_prefix(p) as int);
    assert(bits_of(p) =~= bits_of(q) + bits_of(u));
    crate::clues::lemma_clue_falses(bits_of(u));
    crate::clues::lemma_clue_concat(bits_of(q), bits_of(u));
    if bits_of(q).len() != 0 && bits_of(u).len() != 0 {
        assert(!bits_of(u).first());
        assert(clue_of(bits_of(q)) + clue_of(bits_of(u)) =~= clue_of(bits_of(q)));
    }
}

impl StateRow {
    /// A cell-by-cell copy of the line.
    pub fn duplicate(&self) -> (r: StateRow)
        ensures
            r@ == self@,
    {
        let mut cells: Vec<CellState> = Vec::new();
        let mut i: usize = 0;
        while i < self.0.len()
            invariant
                i <= self@.len(),
                cells@ =~= self@.take(i as int),
            decreases self@.len() - i,
        {
            cells.push(self.0[i]);
            i = i + 1;
        }
        proof {
            assert(cells@ =~= self@);
        }
        StateRow(cells)
    }

    /// The run lengths of the Filled runs already laid down in the prefix.
    fn used_segments(&self) -> (r: Vec<usize>)
        requires
            wf_partial(self@),
        ensures
            ints_of(r@) == clue_of(bits_of(prefix_of(self@))),
    {
        let whole = Ghost(bits_of(self@));
        let mut runs: Vec<usize> = Vec::new();
        let mut cur: usize = 0;
        let mut i: usize = 0;
        proof {
            assert(whole@.skip(0) =~= whole@);
            assert(ints_of(runs@) =~= Seq::<int>::empty());
        }
        while i < self.0.len()
            invariant
                i <= self@.len(),
                cur <= i,
                whole@ == bits_of(self@),
                clue_of(whole@) == crate::clues::scan_clue(
                    ints_of(runs@),
                    cur as int,
                    whole@.skip(i as int),
                ),
            decreases self@.len() - i,
        {
            let ghost rest = whole@.skip(i as int);
            proof {
                assert(rest.len() > 0);
                assert(rest[0] == (self@[i as int] is Filled));
                assert(rest.drop_first() =~= whole@.skip(i as int + 1));
            }
            if matches!(self.0[i], CellState::Filled) {
                proof {
                    crate::clues::lemma_scan_step_true(ints_of(runs@), cur as int, rest);
                }
                cur = cur + 1;
            } else {
                proof {
                    crate::clues::lemma_scan_step_false(ints_of(runs@), cur as int, rest);
                }
                if cur > 0 {
                    let ghost before = runs@;
                    runs.push(cur);
                    proof {
                        assert(ints_of(runs@) =~= ints_of(before).push(cur as int));
                    }
                }
                cur = 0;
            }
            i = i + 1;
        }
        proof {
            assert(whole@.skip(i as int) =~= Seq::<bool>::empty());
            crate::clues::lemma_scan_end(ints_of(runs@), cur as int);
        }
        if cur > 0 {
            let ghost before = runs@;
            runs.push(cur);
            proof {
                assert(ints_of(runs@) =~= ints_of(before).push(cur as int));
            }
        }
        proof {
            lemma_prefix_clue(self@);
        }
        runs
    }

    /// The clue segments not yet placed by the prefix, in order.
    fn remaining_segments(&self, clue: &[usize]) -> (r: Vec<usize>)
        requires
            wf_partial(self@),
        ensures
            used_count(self@) <= clue@.len() ==> ints_of(r@) == ints_of(clue@).skip(
                used_count(self@),
            ),
            used_count(self@) > clue@.len() ==> r@.len() == 0,
    {
        let used = self.used_segments();
        let j = if used.len() <= clue.len() {
            used.len()
        } else {
            clue.len()
        };
        let mut r: Vec<usize> = Vec::new();
        let mut i: usize = j;
        while i < clue.len()
            invariant
                j <= i <= clue@.len(),
                r@ =~= clue@.subrange(j as int, i as int),
            decreases clue@.len() - i,
        {
            r.push(clue[i]);
            i = i + 1;
        }
        proof {
            assert(r@ =~= clue@.subrange(j as int, clue@.len() as int));
            if used_count(self@) <= clue@.len() {
                assert(j == used_count(self@));
                assert(ints_of(r@) =~= ints_of(clue@).skip(used_count(self@)));
            } else {
                assert(j == clue@.len());
            }
        }
        r
    }

    /// The next clue segment to place, if any remain.
    fn next_segment(&self, clue: &[usize]) -> (r: Option<usize>)
        requires
            wf_partial(self@),
        ensures
            r is Some <==> used_count(self@) < clue@.len(),
            r is Some ==> r->0 == clue@[used_count(self@)],
    {
        let rem = self.remaining_segments(clue);
        if rem.len() == 0 {
            proof {
                if used_count(self@) < clue@.len() {
                    assert(ints_of(rem@).len() == ints_of(clue@).skip(used_count(self@)).len());
                }
            }
            None
        } else {
            proof {
                assert(used_count(self@) <= clue@.len());
                assert(ints_of(rem@)[0] == ints_of(clue@).skip(used_count(self@))[0]);
            }
            Some(rem[0])
        }
    }

    /// Cells still needed for the clue segments the prefix has not placed:
    /// their lengths, the gaps between them, and a separating cell when the
    /// prefix ends in a Filled run.
    fn required_cells(&self, clue: &[usize]) -> (r: usize)
        requires
            wf_partial(self@),
            clue_fits(ints_of(clue@), self@.len() as int),
        ensures
            r == spec_required(prefix_of(self@), ints_of(clue@)),
    {
        let cluev = Ghost(ints_of(clue@));
        let ghost j = used_count(self@);
        let remaining_segs = self.remaining_segments(clue);
        if remaining_segs.len() == 0 {
            proof {
                if j < cluev@.len() {
                    assert(ints_of(remaining_segs@) == cluev@.skip(j));
                    assert(cluev@.skip(j).len() == cluev@.len() - j);
                    assert(ints_of(remaining_segs@).len() == 0);
                    assert(false);
                }
            }
            return 0;
        }
        proof {
            assert(ints_of(remaining_segs@).len() == remaining_segs@.len());
            if j >= cluev@.len() {
                if j == cluev@.len() {
                    assert(cluev@.skip(j).len() == 0);
                }
                assert(false);
            }
            assert(j < cluev@.len());
            assert(ints_of(remaining_segs@) == cluev@.skip(j));
            crate::clues::lemma_skip_pos(cluev@, j);
            crate::clues::lemma_isum_lower(cluev@.skip(j));
            crate::clues::lemma_isum_skip_all(cluev@, j);
            assert(ints_of(remaining_segs@).skip(0) =~= ints_of(remaining_segs@));
            crate::clues::lemma_clue_footprint(cluev@, j, self@.len() as int);
            assert(self@.len() == self.0.len());
        }
        // sum of the remaining segment lengths; bounded by the whole clue's
        // footprint, which fits in the line
        let mut segment_cells: usize = 0;
        let mut i: usize = 0;
        while i < remaining_segs.len()
            invariant
                i <= remaining_segs@.len(),
                ints_of(remaining_segs@) == cluev@.skip(j),
                0 <= j < cluev@.len(),
                clue_fits(cluev@, self@.len() as int),
                segment_cells + isum(ints_of(remaining_segs@).skip(i as int)) == isum(
                    cluev@.skip(j),
                ),
                segment_cells <= isum(cluev@.skip(j)) - (remaining_segs@.len() - i),
                isum(cluev@.skip(j)) <= self@.len(),
                self@.len() <= usize::MAX,
            decreases remaining_segs@.len() - i,
        {
            proof {
                crate::clues::lemma_isum_skip(ints_of(remaining_segs@), i as int);
                crate::clues::lemma_skip_pos(cluev@, j);
                crate::clues::lemma_isum_lower(ints_of(remaining_segs@).skip(i as int + 1));
                assert(ints_of(remaining_segs@).skip(i as int + 1).len() == remaining_segs@.len()
                    - i - 1);
                assert(forall|k: int|
                    0 <= k < ints_of(remaining_segs@).skip(i as int + 1).len() ==> #[trigger] ints_of(
                        remaining_segs@,
                    ).skip(i as int + 1)[k] >= 1) by {
                    assert(forall|k: int|
                        0 <= k < ints_of(remaining_segs@).skip(i as int + 1).len()
                            ==> #[trigger] ints_of(remaining_segs@).skip(i as int + 1)[k]
                            == cluev@.skip(j)[k + i + 1]);
                }
                assert(ints_of(remaining_segs@)[i as int] == remaining_segs@[i as int] as int);
                crate::clues::lemma_clue_footprint(cluev@, j, self@.len() as int);
            }
            segment_cells = segment_cells + remaining_segs[i];
            i = i + 1;
        }
        proof {
            assert(ints_of(remaining_segs@).skip(i as int) =~= Seq::<int>::empty());
            assert(segment_cells == isum(cluev@.skip(j)));
        }
        let spaces_required = remaining_segs.len() - 1;
        let leading_space: usize = if !self.trailing_space() {
            1
        } else {
            0
        };
        proof {
            // the result is bounded by the line length, so the sum fits
            assert(self@.len() == self.0.len());
            let size = self@.len() as int;
            let c = cluev@;
            assert(isum(c) + c.len() - 1 <= size);
            crate::clues::lemma_isum_skip_all(c, j);
            if leading_space == 1 {
                // a prefix ending in a Filled run has placed at least one
                // segment
                assert(ends_filled(prefix_of(self@)));
                assert(bits_of(prefix_of(self@)).last() == true);
                crate::clues::lemma_clue_last_pos(bits_of(prefix_of(self@)));
                assert(j >= 1);
                assert(segment_cells + spaces_required + leading_space <= size);
            } else {
                assert(segment_cells + spaces_required + leading_space <= size);
            }
        }
        segment_cells + spaces_required + leading_space
    }

    /// The line with `appended` written after the determined prefix and the
    /// rest left Unknown.
    fn append(&self, appended: &Vec<CellState>) -> (r: StateRow)
        requires
            wf_partial(self@),
            determined(appended@),
            det_prefix(self@) + appended@.len() <= self@.len(),
        ensures
            r@ == prefix_of(self@) + appended@ + unknown_seq(
                self@.len() - det_prefix(self@) - appended@.len(),
            ),
            r@.len() == self@.len(),
            wf_partial(r@),
            det_prefix(r@) == det_prefix(self@) + appended@.len(),
            prefix_of(r@) == prefix_of(self@) + appended@,
    {
        proof {
            lemma_det_prefix_facts(self@);
        }
        let k = self.known_len();
        let mut cells: Vec<CellState> = Vec::new();
        let mut i: usize = 0;
        while i < k
            invariant
                i <= k,
                k == det_prefix(self@) <= self@.len(),
                cells@ =~= self@.take(i as int),
            decreases k - i,
        {
            cells.push(self.0[i]);
            i = i + 1;
        }
        let mut a: usize = 0;
        while a < appended.len()
            invariant
                a <= appended@.len(),
                k == det_prefix(self@),
                k + appended@.len() <= self@.len(),
                cells@ =~= prefix_of(self@) + appended@.take(a as int),
            decreases appended@.len() - a,
        {
            cells.push(appended[a]);
            a = a + 1;
        }
        proof {
            assert(cells@ =~= prefix_of(self@) + appended@);
        }
        while cells.len() < self.0.len()
            invariant
                cells@.len() >= det_prefix(self@) + appended@.len(),
                cells@.len() <= self@.len(),
                cells@ =~= prefix_of(self@) + appended@ + unknown_seq(
                    cells@.len() - det_prefix(self@) - appended@.len(),
                ),
            decreases self@.len() - cells@.len(),
        {
            cells.push(CellState::Unknown);
            proof {
                assert(cells@ =~= prefix_of(self@) + appended@ + unknown_seq(
                    cells@.len() - det_prefix(self@) - appended@.len(),
                ));
            }
        }
        let r = StateRow(cells);
        proof {
            let d = prefix_of(self@) + appended@;
            assert(determined(prefix_of(self@))) by {
                lemma_det_prefix_facts(self@);
                assert(forall|i: int|
                    0 <= i < prefix_of(self@).len() ==> prefix_of(self@)[i] == self@[i]);
            }
            assert(determined(d));
            lemma_det_prefix_shape(d, self@.len() - det_prefix(self@) - appended@.len());
        }
        r
    }

    /// Rule one of the branching search: place the next clue segment, with a
    /// single Empty separator in front when the prefix ends in a Filled run.
    /// Nothing is produced when every segment has already been placed.
    pub fn new_w_appended_seg(&self, clue: &[usize]) -> (r: Option<StateRow>)
        requires
            clue_fits(ints_of(clue@), self@.len() as int),
            viable(self@, ints_of(clue@)),
        ensures
            r is Some <==> used_count(self@) < clue@.len(),
            r is Some ==> ({
                let q = prefix_of(self@);
                let sep: Seq<CellState> = if ends_filled(q) {
                    seq![CellState::Empty]
                } else {
                    Seq::<CellState>::empty()
                };
                let seg = ints_of(clue@)[used_count(self@)];
                &&& prefix_of(r->0@) == q + sep + filled_seq(seg)
                &&& r->0@.len() == self@.len()
                &&& r->0@ == prefix_of(r->0@) + unknown_seq(self@.len() - q.len() - sep.len() - seg)
                &&& viable(r->0@, ints_of(clue@))
                &&& used_count(r->0@) == used_count(self@) + 1
            }),
    {
        let cluev = Ghost(ints_of(clue@));
        let ghost q = prefix_of(self@);
        let ghost j = used_count(self@);
        let ghost k = det_prefix(self@) as int;
        match self.next_segment(clue) {
            Some(seg) => {
                let mut appended: Vec<CellState> = Vec::new();
                let sep_added = !self.trailing_space();
                if sep_added {
                    appended.push(CellState::Empty);
                }
                let mut c: usize = 0;
                proof {
                    // the next segment and its separator fit in the remainder
                    lemma_det_prefix_facts(self@);
                    crate::clues::lemma_isum_skip(cluev@, j);
                    crate::clues::lemma_skip_pos(cluev@, j);
                    crate::clues::lemma_isum_lower(cluev@.skip(j + 1));
                    assert(spec_required(q, cluev@) >= cluev@[j] + (if ends_filled(q) {
                        1int
                    } else {
                        0int
                    }));
                }
                let ghost sep_len: int = if sep_added {
                    1int
                } else {
                    0int
                };
                while c < seg
                    invariant
                        c <= seg,
                        seg == cluev@[j],
                        k + sep_len + seg <= self@.len(),
                        appended@ =~= (if sep_added {
                            seq![CellState::Empty]
                        } else {
                            Seq::<CellState>::empty()
                        }) + filled_seq(c as int),
                    decreases seg - c,
                {
                    appended.push(CellState::Filled);
                    proof {
                        assert(appended@ =~= (if sep_added {
                            seq![CellState::Empty]
                        } else {
                            Seq::<CellState>::empty()
                        }) + filled_seq(c as int + 1));
                    }
                    c = c + 1;
                }
                let out = self.append(&appended);
                proof {
                    assert(sep_added == ends_filled(q));
                    assert(appended@ =~= (if ends_filled(q) {
                        seq![CellState::Empty]
                    } else {
                        Seq::<CellState>::empty()
                    }) + filled_seq(cluev@[j]));
                    assert(prefix_of(out@) =~= q + (if ends_filled(q) {
                        seq![CellState::Empty]
                    } else {
                        Seq::<CellState>::empty()
                    }) + filled_seq(cluev@[j]));
                    lemma_seg_child_viable(self@, cluev@, out@);
                    assert(out@ =~= prefix_of(out@) + unknown_seq(
                        self@.len() - q.len() - (if ends_filled(q) {
                            1int
                        } else {
                            0int
                        }) - cluev@[j],
                    ));
                }
                Some(out)
            },
            None => None,
        }
    }

    /// Rule two of the branching search: append one Empty filler cell.  Legal
    /// only while the undetermined remainder strictly exceeds what the
    /// unplaced segments require.
    pub fn new_w_appended_zero(&self, clue: &[usize]) -> (r: Option<StateRow>)
        requires
            clue_fits(ints_of(clue@), self@.len() as int),
            viable(self@, ints_of(clue@)),
        ensures
            r is Some <==> spec_required(prefix_of(self@), ints_of(clue@)) < self@.len()
                - det_prefix(self@),
            r is Some ==> ({
                let q = prefix_of(self@);
                &&& prefix_of(r->0@) == q + seq![CellState::Empty]
                &&& r->0@.len() == self@.len()
                &&& r->0@ == prefix_of(r->0@) + unknown_seq(self@.len() - q.len() - 1)
                &&& viable(r->0@, ints_of(clue@))
                &&& used_count(r->0@) == used_count(self@)
            }),
    {
        let required = self.required_cells(clue);
        let remaining = self.remaining_cells();
        if remaining > required {
            let mut appended: Vec<CellState> = Vec::new();
            appended.push(CellState::Empty);
            let out = self.append(&appended);
            proof {
                assert(appended@ =~= seq![CellState::Empty]);
                lemma_zero_child_viable(self@, ints_of(clue@), out@);
            }
            Some(out)
        } else {
            None
        }
    }
}

/// Appending the next segment (with its separator if needed) yields another
/// viable partial state that has placed one more segment.
proof fn lemma_seg_child_viable(p: Seq<CellState>, clue: Seq<int>, child: Seq<CellState>)
    requires
        clue_fits(clue, p.len() as int),
        viable(p, clue),
        used_count(p) < clue.len(),
        child.len() == p.len(),
        wf_partial(child),
        prefix_of(child) == prefix_of(p) + (if ends_filled(prefix_of(p)) {
            seq![CellState::Empty]
        } else {
            Seq::<CellState>::empty()
        }) + filled_seq(clue[used_count(p)]),
    ensures
        viable(child, clue),
        used_count(child) == used_count(p) + 1,
{
    lemma_det_prefix_facts(p);
    lemma_det_prefix_facts(child);
    let q = prefix_of(p);
    let j = used_count(p);
    let n = clue[j];
    let sep: Seq<CellState> = if ends_filled(q) {
        seq![CellState::Empty]
    } else {
        Seq::<CellState>::empty()
    };
    let q2 = prefix_of(child);
    assert(q.len() == det_prefix(p));
    assert(q2.len() == det_prefix(child));
    let bq = bits_of(q);
    let bext = bits_of(sep + filled_seq(n));
    assert(bits_of(q2) =~= bq + bext);
    // the runs of the new prefix are one more prefix of the clue
    assert(clue_of(bext) =~= seq![n]) by {
        let bf = bits_of(filled_seq(n));
        assert(forall|i: int| 0 <= i < bf.len() ==> bf[i]);
        assert(bf.len() == n);
        crate::clues::lemma_clue_trues(bf);
        if ends_filled(q) {
            assert(bext =~= seq![false] + bf);
            assert((seq![false] + bf).drop_first() =~= bf);
            assert(clue_of(bext) == clue_of(bf));
        } else {
            assert(bext =~= bf);
        }
    }
    crate::clues::lemma_clue_concat(bq, bext);
    assert(clue_of(bits_of(q2)) =~= clue_of(bq) + seq![n]) by {
        if bq.len() != 0 && bext.len() != 0 {
            if bq.last() && bext.first() {
                // the separator rules this out
                assert(ends_filled(q) ==> !bext.first());
                assert(!ends_filled(q) ==> !bq.last());
                assert(false);
            }
        } else if bq.len() == 0 {
            assert(clue_of(bq) =~= Seq::<int>::empty());
            assert(clue_of(bq) + seq![n] =~= seq![n]);
        } else {
            assert(n >= 1);
            assert(bext.len() > 0);
        }
    }
    assert(clue_of(bq) == clue.take(j));
    assert(clue_of(bits_of(q2)) =~= clue.take(j + 1)) by {
        assert(clue.take(j + 1) =~= clue.take(j) + seq![clue[j]]);
    }
    assert(used_count(child) == j + 1);
    // the segments still unplaced fit in the new remainder
    let k = det_prefix(p) as int;
    let k2 = det_prefix(child) as int;
    assert(k2 == q2.len());
    assert(k2 == k + sep.len() + n);
    crate::clues::lemma_isum_skip(clue, j);
    if j + 1 < clue.len() {
        assert(ends_filled(q2)) by {
            assert(n >= 1);
            assert(q2.last() == filled_seq(n).last());
            assert(filled_seq(n)[n - 1] is Filled);
        }
        assert(spec_required(q2, clue) == isum(clue.skip(j + 1)) + (clue.len() - j - 2) + 1);
        assert(spec_required(q, clue) == isum(clue.skip(j)) + (clue.len() - j - 1) + (if ends_filled(
            q,
        ) {
            1int
        } else {
            0int
        }));
        assert(spec_required(q2, clue) <= child.len() - k2);
    } else {
        assert(spec_required(q2, clue) == 0);
    }
}

/// Appending one Empty filler yields another viable partial state with the
/// same placed segments.
proof fn lemma_zero_child_viable(p: Seq<CellState>, clue: Seq<int>, child: Seq<CellState>)
    requires
        clue_fits(clue, p.len() as int),
        viable(p, clue),
        spec_required(prefix_of(p), clue) < p.len() - det_prefix(p),
        child.len() == p.len(),
        wf_partial(child),
        prefix_of(child) == prefix_of(p) + seq![CellState::Empty],
    ensures
        viable(child, clue),
        used_count(child) == used_count(p),
{
    lemma_det_prefix_facts(p);
    lemma_det_prefix_facts(child);
    let q = prefix_of(p);
    let q2 = prefix_of(child);
    let j = used_count(p);
    let bq = bits_of(q);
    let bext = bits_of(seq![CellState::Empty]);
    assert(q.len() == det_prefix(p));
    assert(q2.len() == det_prefix(child));
    assert(bits_of(q2) =~= bq + bext);
    assert(clue_of(bext) =~= Seq::<int>::empty()) by {
        assert(forall|i: int| 0 <= i < bext.len() ==> !bext[i]);
        crate::clues::lemma_clue_falses(bext);
    }
    crate::clues::lemma_clue_concat(bq, bext);
    assert(clue_of(bits_of(q2)) =~= clue_of(bq)) by {
        assert(bext.len() == 1 && !bext.first());
        if bq.len() != 0 {
            assert(clue_of(bq) + clue_of(bext) =~= clue_of(bq));
        }
    }
    assert(used_count(child) == j);
    assert(!ends_filled(q2)) by {
        assert(q2.last() == seq![CellState::Empty][0]);
    }
    let k = det_prefix(p) as int;
    let k2 = det_prefix(child) as int;
    assert(k2 == k + 1);
    if j < clue.len() {
        assert(spec_required(q2, clue) == isum(clue.skip(j)) + (clue.len() - j - 1));
        assert(spec_required(q, clue) >= spec_required(q2, clue));
    }
}

/// The candidate line `ell` agrees with the determined prefix of the
/// partial state `p`.
pub open spec fn extends_state(ell: Seq<CellState>, p: Seq<CellState>) -> bool {
    ell.take(det_prefix(p) as int) == prefix_of(p)
}

/// A viable partial state with no Unknown cells left is a candidate: it has
/// placed the whole clue.
pub proof fn lemma_complete_valid(p: Seq<CellState>, clue: Seq<int>)
    requires
        clue_fits(clue, p.len() as int),
        viable(p, clue),
        det_prefix(p) == p.len(),
    ensures
        valid_line(p, clue, p.len() as int),
{
    lemma_det_prefix_facts(p);
    let q = prefix_of(p);
    assert(q =~= p);
    let c = clue_of(bits_of(q));
    let j = c.len() as int;
    if j < clue.len() {
        crate::clues::lemma_skip_pos(clue, j);
        crate::clues::lemma_isum_lower(clue.skip(j));
        assert(clue.skip(j).len() == clue.len() - j);
        assert(spec_required(q, clue) >= (clue.len() - j) + (clue.len() - j - 1));
        assert(spec_required(q, clue) <= p.len() - det_prefix(p));
        assert(false);
    }
    assert(c == clue.take(j));
    assert(clue.take(j) =~= clue);
}

/// Where a candidate line that agrees with a viable partial state must go
/// next: if its next cell is Filled, the whole next clue segment follows at
/// once (and no separator is needed); if its next cell is Empty, then either
/// a lone filler is still legal, or the line is tight and the next segment
/// follows right after a single separator.
pub proof fn lemma_children_cover(p: Seq<CellState>, clue: Seq<int>, ell: Seq<CellState>)
    requires
        clue_fits(clue, p.len() as int),
        viable(p, clue),
        valid_line(ell, clue, p.len() as int),
        extends_state(ell, p),
        det_prefix(p) < p.len(),
    ensures
        ({
            let q = prefix_of(p);
            let k = det_prefix(p) as int;
            let j = used_count(p);
            if ell[k] is Filled {
                &&& j < clue.len()
                &&& !ends_filled(q)
                &&& k + clue[j] <= ell.len()
                &&& ell.take(k + clue[j]) == q + filled_seq(clue[j])
            } else {
                ||| (spec_required(q, clue) < p.len() - k && ell.take(k + 1) == q + seq![
                    CellState::Empty,
                ])
                ||| (j < clue.len() && ends_filled(q) && spec_required(q, clue) == p.len() - k
                    && k + 1 + clue[j] <= ell.len() && ell.take(k + 1 + clue[j]) == q + seq![
                    CellState::Empty,
                ] + filled_seq(clue[j]))
            }
        }),
{
    lemma_det_prefix_facts(p);
    let q = prefix_of(p);
    let k = det_prefix(p) as int;
    let j = used_count(p);
    let c = clue_of(bits_of(q));
    let t = ell.skip(k);
    let bq = bits_of(q);
    let bt = bits_of(t);
    assert(q.len() == k);
    assert(t.len() == p.len() - k);
    assert(t.len() > 0);
    assert(ell.take(k) == q);
    assert(bits_of(ell) =~= bq + bt);
    crate::clues::lemma_clue_concat(bq, bt);
    crate::clues::lemma_clue_pos(bt);
    assert(clue_of(bits_of(ell)) == clue);
    assert(c == clue.take(j));
    assert(c.len() == j);
    // a run of the line cannot straddle the boundary: the prefix's runs are
    // complete clue segments
    assert(!(bq.len() != 0 && bt.len() != 0 && bq.last() && bt.first())) by {
        if bq.len() != 0 && bt.len() != 0 && bq.last() && bt.first() {
            crate::clues::lemma_clue_last_pos(bq);
            let merged = c.drop_last() + seq![c.last() + clue_of(bt).first()] + clue_of(
                bt,
            ).drop_first();
            assert(clue == merged);
            assert(merged[j - 1] == c.last() + clue_of(bt).first());
            assert(clue[j - 1] == c[j - 1]) by {
                assert(c == clue.take(j));
            }
            assert(c[j - 1] == c.last());
            assert(clue_of(bt).first() == 0);
            assert(clue_of(bt).len() >= 1);
            assert(clue_of(bt)[0] >= 1);
            assert(false);
        }
    }
    // so the rest of the line carries exactly the unplaced segments
    assert(clue_of(bt) == clue.skip(j)) by {
        if bq.len() == 0 {
            assert(j == 0) by {
                assert(clue_of(bq) =~= Seq::<int>::empty());
            }
            assert(clue_of(bt) == clue);
            assert(clue.skip(0) =~= clue);
        } else {
            assert(clue_of(bits_of(ell)) == c + clue_of(bt));
            assert(clue_of(bt) =~= clue.skip(j)) by {
                assert(clue == c + clue_of(bt));
                assert(forall|i: int|
                    0 <= i < clue_of(bt).len() ==> clue_of(bt)[i] == clue[i + j]);
            }
        }
    }
    assert(j <= clue.len());
    if ell[k] is Filled {
        assert(bt.first() == (t[0] is Filled));
        assert(t[0] == ell[k]);
        assert(bt.first());
        // no merge, so the prefix does not end Filled
        assert(!ends_filled(q)) by {
            if q.len() > 0 && q.last() is Filled {
                assert(bq.last());
                assert(false);
            }
        }
        assert(j < clue.len()) by {
            assert(clue_of(bt).len() >= 1);
            assert(clue.skip(j).len() == clue.len() - j);
        }
        let n = clue[j];
        crate::clues::lemma_first_run(bt);
        crate::clues::lemma_leading_run(bt);
        assert(clue_of(bt)[0] == crate::clues::leading_run(bt) as int);
        assert(clue_of(bt)[0] == clue.skip(j)[0]);
        assert(clue.skip(j)[0] == clue[j]);
        assert(crate::clues::leading_run(bt) == n);
        assert(n <= t.len());
        assert(k + n <= ell.len());
        assert(ell.take(k + n) =~= q + filled_seq(n)) by {
            assert(forall|i: int| 0 <= i < k ==> ell.take(k + n)[i] == q[i]);
            assert(forall|i: int| k <= i < k + n ==> #[trigger] bt[i - k]);
            assert forall|i: int| k <= i < k + n implies ell[i] is Filled by {
                assert(bt[i - k]);
                assert(bt[i - k] == (t[i - k] is Filled));
                assert(t[i - k] == ell[i]);
            }
        }
    } else {
        assert(!(ell[k] is Unknown));
        assert(ell[k] is Empty);
        assert(t[0] == ell[k]);
        assert(!bt.first());
        assert(ell.take(k + 1) =~= q + seq![CellState::Empty]);
        if spec_required(q, clue) < p.len() - k {
        } else {
            // the fit is tight: the line must continue with the separator and
            // then the whole next segment
            assert(spec_required(q, clue) == p.len() - k);
            assert(j < clue.len()) by {
                if j >= clue.len() {
                    assert(spec_required(q, clue) == 0);
                    assert(t.len() == 0);
                    assert(false);
                }
            }
            let n = clue[j];
            let t2 = t.drop_first();
            let bt2 = bits_of(t2);
            assert(bt2 =~= bt.drop_first());
            assert(clue_of(bt) == clue_of(bt2));
            assert(clue_of(bt2) == clue.skip(j));
            crate::clues::lemma_clue_fit(bt2);
            assert(clue.skip(j).len() == clue.len() - j >= 1);
            crate::clues::lemma_isum_skip(clue, j);
            // the prefix must end in a Filled run, else a cell is spare
            assert(ends_filled(q)) by {
                if !ends_filled(q) {
                    assert(spec_required(q, clue) == isum(clue.skip(j)) + (clue.len() - j - 1));
                    assert(isum(clue.skip(j)) + (clue.len() - j) - 1 <= bt2.len());
                    assert(bt2.len() == t.len() - 1);
                    assert(false);
                }
            }
            // and the very next cell must start the next run
            assert(bt2.len() > 0) by {
                assert(isum(clue.skip(j)) >= 1) by {
                    crate::clues::lemma_skip_pos(clue, j);
                    crate::clues::lemma_isum_lower(clue.skip(j));
                }
            }
            assert(bt2.first()) by {
                if !bt2.first() {
                    assert(isum(clue.skip(j)) + (clue.len() - j) - 1 <= bt2.len() - 1);
                    assert(spec_required(q, clue) == isum(clue.skip(j)) + (clue.len() - j - 1) + 1);
                    assert(bt2.len() == t.len() - 1);
                    assert(false);
                }
            }
            crate::clues::lemma_first_run(bt2);
            crate::clues::lemma_leading_run(bt2);
            assert(clue_of(bt2)[0] == crate::clues::leading_run(bt2) as int);
            assert(clue.skip(j)[0] == clue[j]);
            assert(crate::clues::leading_run(bt2) == n);
            assert(n <= t2.len());
            assert(k + 1 + n <= ell.len());
            assert(ell.take(k + 1 + n) =~= q + seq![CellState::Empty] + filled_seq(n)) by {
                assert(forall|i: int| 0 <= i < k ==> ell.take(k + 1 + n)[i] == q[i]);
                assert(forall|i: int| k + 1 <= i < k + 1 + n ==> #[trigger] bt2[i - k - 1]);
                assert forall|i: int| k + 1 <= i < k + 1 + n implies ell[i] is Filled by {
                    assert(bt2[i - k - 1]);
                    assert(bt2[i - k - 1] == (t2[i - k - 1] is Filled));
                    assert(t2[i - k - 1] == ell[i]);
                }
            }
        }
    }
}

/// A forward scan that stopped at the first Unknown cell (or the end) has
/// measured the determined prefix.
proof fn lemma_det_prefix_from_scan(s: Seq<CellState>, i: int)
    requires
        0 <= i <= s.len(),
        forall|k: int| 0 <= k < i ==> !(s[k] is Unknown),
        i == s.len() || s[i] is Unknown,
    ensures
        det_prefix(s) == i,
    decreases i,
{
    if i == 0 {
        if s.len() > 0 {
            assert(s[0] is Unknown);
        }
    } else {
        let t = s.drop_first();
        assert(forall|k: int| 0 <= k < i - 1 ==> t[k] == s[k + 1]);
        if i < s.len() {
            assert(t[i - 1] == s[i]);
        }
        lemma_det_prefix_from_scan(t, i - 1);
    }
}

} // verus!
