//! The line-based solver: the tri-state cell model, the candidate-row
//! enumerator, the per-line reduction rules, and the grid-wide fixpoint
//! loop that decides whether a puzzle is solvable by pure line-local
//! deduction.

use vstd::prelude::*;

use crate::clues::{clue_of, clue_fits, ints_of, isum};
use crate::state_grid::StateGrid;
use crate::state_row::{
    det_prefix, ends_filled, extends_state, filled_seq, lemma_children_cover,
    lemma_complete_valid, lemma_det_prefix_facts, lemma_det_prefix_shape, prefix_of,
    spec_required, unknown_seq, used_count, viable, StateRow,
};
use vstd::arithmetic::power::pow;

verus! {

/// What is known about one cell of the grid.
#[derive(PartialEq, Eq, Structural, Copy, Clone, Debug, Hash)]
pub enum CellState {
    Unknown,
    Empty,
    Filled,
}

impl Default for CellState {
    fn default() -> (r: Self)
        ensures
            r == CellState::Unknown,
    {
        CellState::Unknown
    }
}

/// A line of cells read as a binary line: a cell counts iff it is Filled.
pub open spec fn bits_of(s: Seq<CellState>) -> Seq<bool> {
    s.map_values(|c: CellState| c is Filled)
}

/// No cell of the line is Unknown.
pub open spec fn determined(s: Seq<CellState>) -> bool {
    forall|i: int| 0 <= i < s.len() ==> !(s[i] is Unknown)
}

/// A candidate for a line of length `size` under clue `clue`: fully
/// determined, of the right length, and its derived clue is exactly `clue`.
pub open spec fn valid_line(l: Seq<CellState>, clue: Seq<int>, size: int) -> bool {
    &&& l.len() == size
    &&& determined(l)
    &&& clue_of(bits_of(l)) == clue
}

/// Search-tree potential of a queue of partial states: a strict bound on
/// the work the branching search still has in front of it.
pub open spec fn pot(q: Seq<StateRow>, size: int) -> int
    decreases q.len(),
{
    if q.len() == 0 {
        0
    } else {
        pow(3, (size - det_prefix(q[0]@)) as nat) + pot(q.drop_first(), size)
    }
}

proof fn lemma_pot_nonneg(q: Seq<StateRow>, size: int)
    ensures
        pot(q, size) >= 0,
    decreases q.len(),
{
    if q.len() > 0 {
        lemma_pot_nonneg(q.drop_first(), size);
        vstd::arithmetic::power::lemma_pow_positive(3, (size - det_prefix(q[0]@)) as nat);
    }
}

proof fn lemma_pot_push(q: Seq<StateRow>, x: StateRow, size: int)
    ensures
        pot(q.push(x), size) == pot(q, size) + pow(3, (size - det_prefix(x@)) as nat),
    decreases q.len(),
{
    if q.len() == 0 {
        assert(q.push(x).len() == 1);
        assert(q.push(x)[0] == x);
        assert(q.push(x).drop_first() =~= Seq::<StateRow>::empty());
        assert(pot(Seq::<StateRow>::empty(), size) == 0);
        assert(pot(q, size) == 0);
    } else {
        assert(q.push(x)[0] == q[0]);
        assert(q.push(x).drop_first() =~= q.drop_first().push(x));
        lemma_pot_push(q.drop_first(), x, size);
    }
}

/// Whether a line equal to `r` already sits in `v`.
fn contains_row(v: &Vec<StateRow>, r: &StateRow) -> (b: bool)
    ensures
        b == exists|i: int| 0 <= i < v@.len() && (#[trigger] v@[i])@ == r@,
{
    let mut i: usize = 0;
    while i < v.len()
        invariant
            i <= v@.len(),
            forall|k: int| 0 <= k < i ==> (#[trigger] v@[k])@ != r@,
        decreases v@.len() - i,
    {
        if v[i].eq(r) {
            proof {
                assert(v@[i as int]@ == r@);
            }
            return true;
        }
        i = i + 1;
    }
    false
}

/// Every fully determined line of `size` cells whose derived clue is
/// exactly `clue`, found by a branching search over partial states and
/// deduplicated, in some order.
///
/// The result is pinned down as a set: each returned line is such a
/// candidate, no line appears twice, and every candidate appears.
pub fn enumerate_row_states(size: usize, clue: &[usize]) -> (r: Vec<StateRow>)
    requires
        clue_fits(ints_of(clue@), size as int),
    ensures
        forall|i: int|
            0 <= i < r@.len() ==> valid_line((#[trigger] r@[i])@, ints_of(clue@), size as int),
        forall|i: int, j: int| 0 <= i < j < r@.len() ==> r@[i]@ != r@[j]@,
        forall|ell: Seq<CellState>|
            #[trigger] valid_line(ell, ints_of(clue@), size as int) ==> exists|i: int|
                0 <= i < r@.len() && (#[trigger] r@[i])@ == ell,
{
    let cluev = Ghost(ints_of(clue@));
    let mut cells: Vec<CellState> = Vec::new();
    let mut c: usize = 0;
    while c < size
        invariant
            c <= size,
            cells@ =~= unknown_seq(c as int),
        decreases size - c,
    {
        cells.push(CellState::Unknown);
        proof {
            assert(cells@ =~= unknown_seq(c as int + 1));
        }
        c = c + 1;
    }
    let start = StateRow(cells);
    proof {
        assert(start@ =~= Seq::<CellState>::empty() + unknown_seq(size as int));
        lemma_det_prefix_shape(Seq::<CellState>::empty(), size as int);
        assert(det_prefix(start@) == 0);
        assert(prefix_of(start@) =~= Seq::<CellState>::empty());
        assert(bits_of(prefix_of(start@)) =~= Seq::<bool>::empty());
        assert(clue_of(bits_of(prefix_of(start@))) == Seq::<int>::empty());
        assert(clue_of(bits_of(prefix_of(start@))) =~= cluev@.take(0));
        if cluev@.len() > 0 {
            assert(cluev@.skip(0) =~= cluev@);
        }
        assert(viable(start@, cluev@));
    }
    let mut stack: Vec<StateRow> = Vec::new();
    let mut found: Vec<StateRow> = Vec::new();
    stack.push(start);
    proof {
        assert(forall|ell: Seq<CellState>|
            #[trigger] valid_line(ell, cluev@, size as int) ==> extends_state(ell, stack@[0]@))
            by {
            assert(forall|ell: Seq<CellState>|
                ell.take(0) =~= Seq::<CellState>::empty() && prefix_of(stack@[0]@)
                    =~= Seq::<CellState>::empty() ==> extends_state(ell, stack@[0]@));
        }
    }
    while stack.len() > 0
        invariant
            cluev@ == ints_of(clue@),
            clue_fits(cluev@, size as int),
            forall|i: int|
                0 <= i < stack@.len() ==> (#[trigger] stack@[i])@.len() == size && viable(
                    stack@[i]@,
                    cluev@,
                ),
            forall|i: int|
                0 <= i < found@.len() ==> valid_line(
                    (#[trigger] found@[i])@,
                    cluev@,
                    size as int,
                ),
            forall|i: int, j: int| 0 <= i < j < found@.len() ==> found@[i]@ != found@[j]@,
            forall|ell: Seq<CellState>|
                #[trigger] valid_line(ell, cluev@, size as int) ==> (exists|i: int|
                    0 <= i < found@.len() && (#[trigger] found@[i])@ == ell) || (exists|i: int|
                    0 <= i < stack@.len() && extends_state(ell, (#[trigger] stack@[i])@)),
        decreases pot(stack@, size as int),
    {
        let ghost prev = stack@;
        let ghost oldfound = found@;
        let row = stack.pop().unwrap();
        let ghost e = (size - det_prefix(row@)) as nat;
        proof {
            assert(prev =~= stack@.push(row));
            lemma_pot_push(stack@, row, size as int);
            lemma_pot_nonneg(stack@, size as int);
            vstd::arithmetic::power::lemma_pow_positive(3, e);
            lemma_det_prefix_facts(row@);
        }
        if row.is_known() {
            proof {
                assert(det_prefix(row@) == size);
                lemma_complete_valid(row@, cluev@);
                assert(pot(stack@, size as int) < pot(prev, size as int));
                lemma_pot_nonneg(stack@, size as int);
            }
            let had = contains_row(&found, &row);
            if !had {
                found.push(row);
            }
            proof {
                // a candidate that agreed with the popped complete state is
                // this very line, and it now sits in `found`
                assert forall|ell: Seq<CellState>|
                    #[trigger] valid_line(ell, cluev@, size as int) implies (exists|i: int|
                    0 <= i < found@.len() && (#[trigger] found@[i])@ == ell) || (exists|i: int|
                    0 <= i < stack@.len() && extends_state(ell, (#[trigger] stack@[i])@)) by {
                    if exists|i: int| 0 <= i < oldfound.len() && (#[trigger] oldfound[i])@ == ell {
                        let i = choose|i: int|
                            0 <= i < oldfound.len() && (#[trigger] oldfound[i])@ == ell;
                        assert(found@[i]@ == ell);
                    } else if exists|i: int|
                        0 <= i < prev.len() && extends_state(ell, (#[trigger] prev[i])@) {
                        let i = choose|i: int|
                            0 <= i < prev.len() && extends_state(ell, (#[trigger] prev[i])@);
                        if i < prev.len() - 1 {
                            assert(stack@[i]@ == prev[i]@);
                            assert(extends_state(ell, stack@[i]@));
                        } else {
                            assert(prev[i] == row);
                            assert(ell.take(size as int) == prefix_of(row@));
                            assert(ell =~= ell.take(size as int));
                            assert(prefix_of(row@) =~= row@);
                            assert(ell == row@);
                            assert(!had);
                            assert(found@ == oldfound.push(row));
                            assert((found@[found@.len() - 1])@ == ell);
                            assert(exists|i: int|
                                0 <= i < found@.len() && (#[trigger] found@[i])@ == ell);
                        }
                    }
                }
            }
        } else {
            proof {
                assert(det_prefix(row@) < size);
                assert(e >= 1) by {
                    assert(det_prefix(row@) <= row@.len());
                }
            }
            let ghost k = det_prefix(row@) as int;
            let ghost q = prefix_of(row@);
            let ghost j = used_count(row@);
            let c1 = row.new_w_appended_seg(clue);
            let c2 = row.new_w_appended_zero(clue);
            let ghost stack_mid = stack@;
            let ghost pot_mid = pot(stack@, size as int);
            if let Some(x) = c1 {
                proof {
                    lemma_det_prefix_facts(x@);
                    lemma_pot_push(stack@, x, size as int);
                    assert(det_prefix(x@) == prefix_of(x@).len());
                    assert(det_prefix(x@) > k);
                    assert((size - det_prefix(x@)) as nat <= (e - 1) as nat);
                    vstd::arithmetic::power::lemma_pow_increases(
                        3,
                        (size - det_prefix(x@)) as nat,
                        (e - 1) as nat,
                    );
                    vstd::arithmetic::power::lemma_pow_positive(3, (e - 1) as nat);
                }
                stack.push(x);
            }
            if let Some(x) = c2 {
                proof {
                    lemma_det_prefix_facts(x@);
                    lemma_pot_push(stack@, x, size as int);
                    assert(det_prefix(x@) == prefix_of(x@).len());
                    assert(det_prefix(x@) == k + 1);
                    assert((size - det_prefix(x@)) as nat <= (e - 1) as nat);
                    vstd::arithmetic::power::lemma_pow_increases(
                        3,
                        (size - det_prefix(x@)) as nat,
                        (e - 1) as nat,
                    );
                    vstd::arithmetic::power::lemma_pow_positive(3, (e - 1) as nat);
                }
                stack.push(x);
            }
            proof {
                // the potential of what was pushed is strictly below that of
                // the popped state
                vstd::arithmetic::power::lemma_pow1(3);
                vstd::arithmetic::power::lemma_pow_adds(3, 1nat, (e - 1) as nat);
                vstd::arithmetic::power::lemma_pow_positive(3, (e - 1) as nat);
                assert(1nat + ((e - 1) as nat) == e);
                assert(pow(3, e) == 3 * pow(3, (e - 1) as nat));
                assert(pot(stack@, size as int) <= pot_mid + 2 * pow(3, (e - 1) as nat));
                assert(pot(stack@, size as int) < pot(prev, size as int));
                lemma_pot_nonneg(stack@, size as int);
                // every candidate that agreed with the popped state agrees
                // with one of its children
                assert forall|ell: Seq<CellState>|
                    #[trigger] valid_line(ell, cluev@, size as int) implies (exists|i: int|
                    0 <= i < found@.len() && (#[trigger] found@[i])@ == ell) || (exists|i: int|
                    0 <= i < stack@.len() && extends_state(ell, (#[trigger] stack@[i])@)) by {
                    if exists|i: int| 0 <= i < oldfound.len() && (#[trigger] oldfound[i])@ == ell {
                        let i = choose|i: int|
                            0 <= i < oldfound.len() && (#[trigger] oldfound[i])@ == ell;
                        assert(found@[i]@ == ell);
                    } else if exists|i: int|
                        0 <= i < prev.len() && extends_state(ell, (#[trigger] prev[i])@) {
                        let i = choose|i: int|
                            0 <= i < prev.len() && extends_state(ell, (#[trigger] prev[i])@);
                        if i < prev.len() - 1 {
                            assert(stack_mid[i] == prev[i]);
                            assert(stack@[i] == prev[i]);
                            assert(extends_state(ell, stack@[i]@));
                        } else {
                            assert(prev[i] == row);
                            lemma_children_cover(row@, cluev@, ell);
                            if ell[k] is Filled {
                                let x = c1->0;
                                assert(prefix_of(x@) =~= q + filled_seq(cluev@[j]));
                                assert(det_prefix(x@) == prefix_of(x@).len());
                                assert(ell.take(det_prefix(x@) as int) == prefix_of(x@));
                                assert(stack@[stack_mid.len() as int] == x);
                                assert(extends_state(ell, x@));
                            } else if spec_required(q, cluev@) < row@.len() - k {
                                let x = c2->0;
                                assert(prefix_of(x@) =~= q + seq![CellState::Empty]);
                                assert(det_prefix(x@) == prefix_of(x@).len());
                                assert(ell.take(det_prefix(x@) as int) == prefix_of(x@));
                                assert(stack@[stack@.len() - 1] == x);
                                assert(extends_state(ell, x@));
                            } else {
                                let x = c1->0;
                                assert(ends_filled(q));
                                assert(prefix_of(x@) =~= q + seq![CellState::Empty] + filled_seq(
                                    cluev@[j],
                                ));
                                assert(det_prefix(x@) == prefix_of(x@).len());
                                assert(ell.take(det_prefix(x@) as int) == prefix_of(x@));
                                assert(stack@[stack_mid.len() as int] == x);
                                assert(extends_state(ell, x@));
                            }
                        }
                    }
                }
            }
        }
    }
    found
}

/// A candidate agrees with the current knowledge of a line: wherever the
/// known line is determined, the candidate holds the same cell.
pub open spec fn row_compatible(known: Seq<CellState>, s: Seq<CellState>) -> bool {
    forall|i: int| 0 <= i < known.len() && i < s.len() ==> (known[i] is Unknown || known[i] == s[i])
}

pub(crate) fn row_matches(known: &StateRow, s: &StateRow) -> (b: bool)
    ensures
        b == row_compatible(known@, s@),
{
    let n = if known.0.len() <= s.0.len() {
        known.0.len()
    } else {
        s.0.len()
    };
    let mut i: usize = 0;
    while i < n
        invariant
            i <= n,
            n == if known@.len() <= s@.len() {
                known@.len() as int
            } else {
                s@.len() as int
            },
            forall|k: int| 0 <= k < i ==> (known@[k] is Unknown || known@[k] == s@[k]),
        decreases n - i,
    {
        let kc = known.0[i];
        if !matches!(kc, CellState::Unknown) && kc != s.0[i] {
            return false;
        }
        i = i + 1;
    }
    true
}

/// The views of a sequence of rows.
pub open spec fn views_of(states: Seq<StateRow>) -> Seq<Seq<CellState>> {
    states.map_values(|s: StateRow| s@)
}

/// The candidate views that agree with the known line, kept in order.
pub open spec fn pruned(known: Seq<CellState>, views: Seq<Seq<CellState>>) -> Seq<Seq<CellState>>
    decreases views.len(),
{
    if views.len() == 0 {
        Seq::empty()
    } else {
        let rest = pruned(known, views.drop_last());
        if row_compatible(known, views.last()) {
            rest.push(views.last())
        } else {
            rest
        }
    }
}

pub proof fn lemma_pruned_len(known: Seq<CellState>, views: Seq<Seq<CellState>>)
    ensures
        pruned(known, views).len() <= views.len(),
        pruned(known, views).len() == views.len() ==> pruned(known, views) == views,
    decreases views.len(),
{
    if views.len() > 0 {
        lemma_pruned_len(known, views.drop_last());
        if row_compatible(known, views.last()) && pruned(known, views).len() == views.len() {
            assert(pruned(known, views) =~= views);
        }
    }
}

/// A compatible candidate survives the pruning.
pub proof fn lemma_pruned_keeps(known: Seq<CellState>, views: Seq<Seq<CellState>>, t: int)
    requires
        0 <= t < views.len(),
        row_compatible(known, views[t]),
    ensures
        exists|s: int| 0 <= s < pruned(known, views).len() && pruned(known, views)[s] == views[t],
    decreases views.len(),
{
    let out = pruned(known, views);
    if t == views.len() - 1 {
        assert(out[out.len() - 1] == views[t]);
    } else {
        lemma_pruned_keeps(known, views.drop_last(), t);
        let s = choose|s: int|
            0 <= s < pruned(known, views.drop_last()).len() && pruned(known, views.drop_last())[s]
                == views.drop_last()[t];
        assert(out[s] == views[t]);
    }
}

/// Everything the pruning keeps is one of the original candidates, and is
/// compatible with the known line.
pub proof fn lemma_pruned_elems(known: Seq<CellState>, views: Seq<Seq<CellState>>)
    ensures
        forall|s: int|
            0 <= s < pruned(known, views).len() ==> row_compatible(
                known,
                #[trigger] pruned(known, views)[s],
            ) && exists|t: int| 0 <= t < views.len() && views[t] == pruned(known, views)[s],
    decreases views.len(),
{
    let out = pruned(known, views);
    if views.len() > 0 {
        lemma_pruned_elems(known, views.drop_last());
        let sub = pruned(known, views.drop_last());
        assert forall|s: int| 0 <= s < out.len() implies row_compatible(
            known,
            #[trigger] out[s],
        ) && exists|t: int| 0 <= t < views.len() && views[t] == out[s] by {
            if s < sub.len() {
                assert(out[s] == sub[s]);
                let t = choose|t: int|
                    0 <= t < views.drop_last().len() && views.drop_last()[t] == sub[s];
                assert(views[t] == out[s]);
            } else {
                assert(out[s] == views.last());
                assert(views[views.len() - 1] == out[s]);
            }
        }
    }
}

proof fn lemma_pruned_all_kept(known: Seq<CellState>, views: Seq<Seq<CellState>>)
    requires
        forall|t: int| 0 <= t < views.len() ==> row_compatible(known, #[trigger] views[t]),
    ensures
        pruned(known, views) == views,
    decreases views.len(),
{
    if views.len() > 0 {
        lemma_pruned_all_kept(known, views.drop_last());
        assert(pruned(known, views) =~= views);
    }
}

/// Pruning is idempotent: pruning an already-pruned candidate set against
/// the same known line yields the same set again.
pub proof fn lemma_prune_idempotent(known: Seq<CellState>, views: Seq<Seq<CellState>>)
    ensures
        pruned(known, pruned(known, views)) == pruned(known, views),
{
    lemma_pruned_elems(known, views);
    lemma_pruned_all_kept(known, pruned(known, views));
}

/// The candidates of `previous_states` that agree with the known line, in
/// their original order.
pub fn filter_invalid_row_states(known_row: &StateRow, previous_states: &[StateRow]) -> (r: Vec<
    StateRow,
>)
    ensures
        views_of(r@) == pruned(known_row@, views_of(previous_states@)),
{
    let mut r: Vec<StateRow> = Vec::new();
    let mut i: usize = 0;
    proof {
        assert(views_of(previous_states@.take(0)) =~= Seq::<Seq<CellState>>::empty());
        assert(views_of(r@) =~= pruned(known_row@, views_of(previous_states@.take(0))));
    }
    while i < previous_states.len()
        invariant
            i <= previous_states@.len(),
            views_of(r@) == pruned(known_row@, views_of(previous_states@.take(i as int))),
        decreases previous_states@.len() - i,
    {
        let ghost before = r@;
        if row_matches(known_row, &previous_states[i]) {
            r.push(previous_states[i].duplicate());
        }
        proof {
            let t = views_of(previous_states@.take(i as int + 1));
            assert(t.drop_last() =~= views_of(previous_states@.take(i as int)));
            assert(t.last() == previous_states@[i as int]@);
            if row_compatible(known_row@, previous_states@[i as int]@) {
                assert(views_of(r@) =~= views_of(before).push(previous_states@[i as int]@));
            } else {
                assert(views_of(r@) =~= views_of(before));
            }
        }
        i = i + 1;
    }
    proof {
        assert(previous_states@.take(previous_states@.len() as int) =~= previous_states@);
    }
    r
}

/// Every candidate in the set holds cell `v` at position `i`.
pub open spec fn forced_at(states: Seq<StateRow>, i: int, v: CellState) -> bool {
    forall|k: int| 0 <= k < states.len() ==> (#[trigger] states[k])@[i] == v
}

/// The forced positions among the first `upto` cells, in index order: a
/// position every candidate leaves Empty is forced Empty, one every
/// candidate Fills is forced Filled.
pub open spec fn common_spec(states: Seq<StateRow>, upto: int) -> Seq<(usize, CellState)>
    decreases upto,
{
    if upto <= 0 {
        Seq::empty()
    } else {
        let prefix = common_spec(states, upto - 1);
        if forced_at(states, upto - 1, CellState::Empty) {
            prefix.push((((upto - 1) as usize), CellState::Empty))
        } else if forced_at(states, upto - 1, CellState::Filled) {
            prefix.push((((upto - 1) as usize), CellState::Filled))
        } else {
            prefix
        }
    }
}

fn all_states_have(states: &[StateRow], i: usize, v: CellState) -> (b: bool)
    requires
        forall|k: int| 0 <= k < states@.len() ==> i < (#[trigger] states@[k])@.len(),
    ensures
        b == forced_at(states@, i as int, v),
{
    let mut k: usize = 0;
    while k < states.len()
        invariant
            k <= states@.len(),
            forall|t: int| 0 <= t < states@.len() ==> i < (#[trigger] states@[t])@.len(),
            forall|t: int| 0 <= t < k ==> (#[trigger] states@[t])@[i as int] == v,
        decreases states@.len() - k,
    {
        if states[k].0[i] != v {
            return false;
        }
        k = k + 1;
    }
    true
}

/// The per-line arc-consistency step: each position at which every remaining
/// candidate agrees, with the cell they agree on, in index order.
pub fn common_row_indexes(states: &[StateRow]) -> (r: Vec<(usize, CellState)>)
    requires
        states@.len() > 0,
        forall|k: int| 0 <= k < states@.len() ==> (#[trigger] states@[k])@.len()
            == states@[0]@.len(),
    ensures
        r@ == common_spec(states@, states@[0]@.len() as int),
        forall|t: int|
            0 <= t < r@.len() ==> (#[trigger] r@[t]).0 < states@[0]@.len() && !(r@[t].1
                is Unknown) && forced_at(states@, r@[t].0 as int, r@[t].1),
{
    let size = states[0].0.len();
    let mut r: Vec<(usize, CellState)> = Vec::new();
    let mut i: usize = 0;
    while i < size
        invariant
            i <= size,
            size == states@[0]@.len(),
            states@.len() > 0,
            forall|k: int| 0 <= k < states@.len() ==> (#[trigger] states@[k])@.len() == size,
            r@ == common_spec(states@, i as int),
            forall|t: int|
                0 <= t < r@.len() ==> (#[trigger] r@[t]).0 < size && !(r@[t].1 is Unknown)
                    && forced_at(states@, r@[t].0 as int, r@[t].1),
        decreases size - i,
    {
        if all_states_have(states, i, CellState::Empty) {
            r.push((i, CellState::Empty));
        } else if all_states_have(states, i, CellState::Filled) {
            r.push((i, CellState::Filled));
        }
        i = i + 1;
    }
    r
}

/// Column `j` of a full binary grid.
pub open spec fn col_seq(g: Seq<Seq<bool>>, j: int) -> Seq<bool> {
    Seq::new(g.len(), |i: int| g[i][j])
}

/// A binary line as a fully determined line of cells.
pub open spec fn cells_of(b: Seq<bool>) -> Seq<CellState> {
    b.map_values(
        |x: bool|
            if x {
                CellState::Filled
            } else {
                CellState::Empty
            },
    )
}

/// `g` is a solution of the given clues: a binary grid of the right shape
/// whose every row and column derives exactly its clue.
pub open spec fn grid_matches(g: Seq<Seq<bool>>, rows: Seq<Seq<int>>, cols: Seq<Seq<int>>) -> bool {
    &&& g.len() == rows.len()
    &&& forall|i: int| 0 <= i < g.len() ==> (#[trigger] g[i]).len() == cols.len()
    &&& forall|i: int| 0 <= i < rows.len() ==> clue_of(#[trigger] g[i]) == rows[i]
    &&& forall|j: int| 0 <= j < cols.len() ==> clue_of(#[trigger] col_seq(g, j)) == cols[j]
}

/// The clues of a puzzle side, read as sequences of integers.
pub open spec fn clues_of(v: Seq<Vec<usize>>) -> Seq<Seq<int>> {
    v.map_values(|c: Vec<usize>| ints_of(c@))
}

/// Number of Unknown cells in one line.
pub open spec fn unknowns_row(r: Seq<CellState>) -> int
    decreases r.len(),
{
    if r.len() == 0 {
        0
    } else {
        (if r[0] is Unknown {
            1int
        } else {
            0int
        }) + unknowns_row(r.drop_first())
    }
}

/// Number of Unknown cells in the whole grid.
pub open spec fn unknowns_grid(v: Seq<Seq<CellState>>) -> int
    decreases v.len(),
{
    if v.len() == 0 {
        0
    } else {
        unknowns_row(v[0]) + unknowns_grid(v.drop_first())
    }
}

/// Total number of candidates across a side's candidate sets.
pub open spec fn cands_total(v: Seq<Vec<StateRow>>) -> int
    decreases v.len(),
{
    if v.len() == 0 {
        0
    } else {
        v[0]@.len() + cands_total(v.drop_first())
    }
}

proof fn lemma_unknowns_row_nonneg(r: Seq<CellState>)
    ensures
        unknowns_row(r) >= 0,
    decreases r.len(),
{
    if r.len() > 0 {
        lemma_unknowns_row_nonneg(r.drop_first());
    }
}

proof fn lemma_unknowns_grid_nonneg(v: Seq<Seq<CellState>>)
    ensures
        unknowns_grid(v) >= 0,
    decreases v.len(),
{
    if v.len() > 0 {
        lemma_unknowns_row_nonneg(v[0]);
        lemma_unknowns_grid_nonneg(v.drop_first());
    }
}

proof fn lemma_cands_total_nonneg(v: Seq<Vec<StateRow>>)
    ensures
        cands_total(v) >= 0,
    decreases v.len(),
{
    if v.len() > 0 {
        lemma_cands_total_nonneg(v.drop_first());
    }
}

/// Writing a determined value over an Unknown cell lowers the count by one.
proof fn lemma_unknowns_update(r: Seq<CellState>, b: int, v: CellState)
    requires
        0 <= b < r.len(),
        r[b] is Unknown,
        !(v is Unknown),
    ensures
        unknowns_row(r.update(b, v)) == unknowns_row(r) - 1,
    decreases b,
{
    let r2 = r.update(b, v);
    if b == 0 {
        assert(r2.drop_first() =~= r.drop_first());
    } else {
        assert(r2.drop_first() =~= r.drop_first().update(b - 1, v));
        lemma_unknowns_update(r.drop_first(), b - 1, v);
    }
}

proof fn lemma_unknowns_grid_update(v: Seq<Seq<CellState>>, i: int, newrow: Seq<CellState>)
    requires
        0 <= i < v.len(),
    ensures
        unknowns_grid(v.update(i, newrow)) == unknowns_grid(v) - unknowns_row(v[i]) + unknowns_row(
            newrow,
        ),
    decreases i,
{
    let v2 = v.update(i, newrow);
    if i == 0 {
        assert(v2.drop_first() =~= v.drop_first());
    } else {
        assert(v2.drop_first() =~= v.drop_first().update(i - 1, newrow));
        lemma_unknowns_grid_update(v.drop_first(), i - 1, newrow);
    }
}

proof fn lemma_cands_total_update(v: Seq<Vec<StateRow>>, i: int, x: Vec<StateRow>)
    requires
        0 <= i < v.len(),
    ensures
        cands_total(v.update(i, x)) == cands_total(v) - v[i]@.len() + x@.len(),
    decreases i,
{
    let v2 = v.update(i, x);
    if i == 0 {
        assert(v2.drop_first() =~= v.drop_first());
    } else {
        assert(v2.drop_first() =~= v.drop_first().update(i - 1, x));
        lemma_cands_total_update(v.drop_first(), i - 1, x);
    }
}

/// Some candidate in the set has exactly this line as its cells.
pub open spec fn holds_line(cands: Seq<StateRow>, lv: Seq<CellState>) -> bool {
    exists|t: int| 0 <= t < cands.len() && (#[trigger] cands[t])@ == lv
}

/// The line a solution induces on a row survives pruning and agrees with
/// every cell that intersection forces.
pub open spec fn line_tracked(lv: Seq<CellState>, row: Seq<CellState>, cands: Seq<StateRow>) -> bool {
    &&& holds_line(cands, lv)
    &&& row_compatible(row, lv)
}

/// Agreement over the candidate views is agreement over the candidates.
proof fn lemma_views_force_bridge(states: Seq<StateRow>, b: int, v: CellState)
    ensures
        views_force(views_of(states), b, v) == forced_at(states, b, v),
{
    assert(views_of(states).len() == states.len());
    if forced_at(states, b, v) {
        assert forall|t: int| 0 <= t < views_of(states).len() implies (#[trigger] views_of(
            states,
        )[t])[b] == v by {
            assert(views_of(states)[t] == states[t]@);
        }
    }
    if views_force(views_of(states), b, v) {
        assert forall|t: int| 0 <= t < states.len() implies (#[trigger] states[t])@[b] == v by {
            assert(views_of(states)[t] == states[t]@);
        }
    }
}

/// One step of the fixpoint pass on row `i`: write every cell that all of
/// the row's candidates agree on, then prune the candidates against the
/// row's current snapshot, flagging `changed` on any progress.
fn process_row(grid: &mut StateGrid, cands: &mut Vec<StateRow>, i: usize, changed: &mut bool)
    requires
        old(grid).wf(),
        i < old(grid).height,
        forall|t: int|
            0 <= t < old(cands)@.len() ==> (#[trigger] old(cands)@[t])@.len() == old(grid).width,
    ensures
        final(grid).wf(),
        final(grid).height == old(grid).height,
        final(grid).width == old(grid).width,
        forall|t: int|
            0 <= t < final(cands)@.len() ==> (#[trigger] final(cands)@[t])@.len() == old(
                grid,
            ).width,
        // only row `i` is touched, cells only move from Unknown to determined
        forall|a: int, b: int|
            0 <= a < final(grid)@.len() && 0 <= b < final(grid)@[a].len() && a != i
                ==> final(grid)@[a][b] == old(grid)@[a][b],
        forall|b: int|
            0 <= b < old(grid).width && !(old(grid)@[i as int][b] is Unknown)
                ==> final(grid)@[i as int][b] == old(grid)@[i as int][b],
        forall|b: int|
            0 <= b < old(grid).width && final(grid)@[i as int][b] is Unknown ==> old(
                grid,
            )@[i as int][b] is Unknown,
        // a solution's line is still tracked afterwards
        forall|lv: Seq<CellState>|
            lv.len() == old(grid).width && #[trigger] line_tracked(
                lv,
                old(grid)@[i as int],
                old(cands)@,
            ) ==> line_tracked(lv, final(grid)@[i as int], final(cands)@),
        // progress accounting
        unknowns_grid(final(grid)@) + final(cands)@.len() <= unknowns_grid(old(grid)@) + old(
            cands,
        )@.len(),
        *old(changed) ==> *final(changed),
        !*old(changed) && *final(changed) ==> unknowns_grid(final(grid)@) + final(cands)@.len()
            < unknowns_grid(old(grid)@) + old(cands)@.len(),
        !*old(changed) && !*final(changed) ==> final(grid)@ == old(grid)@ && final(cands)@.len()
            == old(cands)@.len(),
        // the exact effect of the step, as the spec-level pass states it
        old(cands)@.len() == 0 ==> final(grid)@ == old(grid)@ && final(cands)@ == old(cands)@
            && *final(changed) == *old(changed),
        old(cands)@.len() > 0 ==> final(grid)@[i as int] == force_views(
            views_of(old(cands)@),
            old(grid)@[i as int],
        ),
        old(cands)@.len() > 0 ==> views_of(final(cands)@) == pruned(
            final(grid)@[i as int],
            views_of(old(cands)@),
        ),
        old(cands)@.len() > 0 ==> *final(changed) == (*old(changed) || final(grid)@[i as int]
            != old(grid)@[i as int] || final(cands)@.len() < old(cands)@.len()),
{
    let ghost width = old(grid).width as int;
    let ghost oldrow = old(grid)@[i as int];
    if cands.len() == 0 {
        return ;
    }
    proof {
        assert(old(cands)@[0]@.len() == old(grid).width);
    }
    let forced = common_row_indexes(cands.as_slice());
    proof {
        assert(forced@ == common_spec(old(cands)@, width));
    }
    let mut f: usize = 0;
    while f < forced.len()
        invariant
            width == old(grid).width as int,
            oldrow == old(grid)@[i as int],
            oldrow.len() == width,
            f <= forced@.len(),
            grid.wf(),
            grid.height == old(grid).height,
            grid.width == old(grid).width,
            i < grid.height,
            cands@ == old(cands)@,
            cands@.len() > 0,
            forall|t: int|
                0 <= t < cands@.len() ==> (#[trigger] cands@[t])@.len() == old(grid).width,
            forall|t: int|
                0 <= t < forced@.len() ==> (#[trigger] forced@[t]).0 < old(grid).width && !(
                forced@[t].1 is Unknown) && forced_at(cands@, forced@[t].0 as int, forced@[t].1),
            forall|a: int, b: int|
                0 <= a < grid@.len() && 0 <= b < grid@[a].len() && a != i ==> grid@[a][b] == old(
                    grid,
                )@[a][b],
            forall|b: int|
                0 <= b < width && !(oldrow[b] is Unknown) ==> grid@[i as int][b] == oldrow[b],
            forall|b: int|
                0 <= b < width && grid@[i as int][b] is Unknown ==> oldrow[b] is Unknown,
            forall|lv: Seq<CellState>|
                lv.len() == width && #[trigger] line_tracked(lv, oldrow, old(cands)@)
                    ==> row_compatible(grid@[i as int], lv),
            unknowns_grid(grid@) <= unknowns_grid(old(grid)@),
            *old(changed) ==> *changed,
            !*old(changed) && *changed ==> unknowns_grid(grid@) < unknowns_grid(old(grid)@),
            !*changed ==> grid@ == old(grid)@,
            forced@ == common_spec(old(cands)@, width),
            forall|b: int|
                0 <= b < width && (exists|t: int| 0 <= t < f && (#[trigger] forced@[t]).0 == b)
                    ==> grid@[i as int][b] == force_views(views_of(old(cands)@), oldrow)[b],
            forall|b: int|
                0 <= b < width && !(exists|t: int| 0 <= t < f && (#[trigger] forced@[t]).0 == b)
                    ==> grid@[i as int][b] == oldrow[b],
            *changed == (*old(changed) || grid@[i as int] != oldrow),
        decreases forced@.len() - f,
    {
        let (idx, st) = forced[f];
        proof {
            assert(forced@[f as int].0 < old(grid).width && !(forced@[f as int].1 is Unknown)
                && forced_at(cands@, forced@[f as int].0 as int, forced@[f as int].1));
            assert(idx == forced@[f as int].0 && st == forced@[f as int].1);
            assert(idx < old(grid).width);
        }
        match grid.get(i, idx) {
            Some(cur) => {
                if matches!(cur, CellState::Unknown) {
                    let ghost before = grid@;
                    proof {
                        assert(grid@[i as int][idx as int] is Unknown);
                        assert(oldrow[idx as int] is Unknown) by {
                            if !(oldrow[idx as int] is Unknown) {
                                assert(grid@[i as int][idx as int] == oldrow[idx as int]);
                            }
                        }
                    }
                    grid.set(i, idx, st);
                    *changed = true;
                    proof {
                        assert(grid@ =~~= before.update(
                            i as int,
                            before[i as int].update(idx as int, st),
                        ));
                        lemma_unknowns_update(before[i as int], idx as int, st);
                        lemma_unknowns_grid_update(
                            before,
                            i as int,
                            before[i as int].update(idx as int, st),
                        );
                        assert(before[i as int][idx as int] is Unknown);
                        assert(grid@[i as int] == before[i as int].update(idx as int, st));
                        assert forall|b: int|
                            0 <= b < width && !(oldrow[b] is Unknown) implies grid@[i as int][b]
                            == oldrow[b] by {
                            assert(b != idx);
                            assert(grid@[i as int][b] == before[i as int][b]);
                        }
                        assert forall|b: int|
                            0 <= b < width && grid@[i as int][b] is Unknown implies oldrow[b]
                            is Unknown by {
                            assert(b != idx);
                            assert(grid@[i as int][b] == before[i as int][b]);
                        }
                        assert forall|lv: Seq<CellState>|
                            lv.len() == width && #[trigger] line_tracked(lv, oldrow, old(cands)@)
                                implies row_compatible(grid@[i as int], lv) by {
                            let t = choose|t: int|
                                0 <= t < old(cands)@.len() && (#[trigger] old(cands)@[t])@ == lv;
                            assert(cands@[t]@[idx as int] == st);
                            assert(lv[idx as int] == st);
                        }
                        // the written value is the one the pass spec forces
                        lemma_common_spec_char(old(cands)@, width);
                        lemma_views_force_bridge(old(cands)@, idx as int, CellState::Empty);
                        lemma_views_force_bridge(old(cands)@, idx as int, CellState::Filled);
                        assert(forall|t: int| 0 <= t < f ==> (#[trigger] forced@[t]).0 < idx);
                        assert(grid@[i as int][idx as int] == force_views(
                            views_of(old(cands)@),
                            oldrow,
                        )[idx as int]) by {
                            if st == CellState::Empty {
                                assert(forced_at(old(cands)@, idx as int, CellState::Empty));
                            } else {
                                assert(st == CellState::Filled);
                                assert(forced_at(old(cands)@, idx as int, CellState::Filled));
                                assert(!forced_at(old(cands)@, idx as int, CellState::Empty));
                            }
                        }
                        assert forall|b: int|
                            0 <= b < width && (exists|t: int|
                                0 <= t < f + 1 && (#[trigger] forced@[t]).0 == b) implies
                            grid@[i as int][b] == force_views(views_of(old(cands)@), oldrow)[b] by {
                            let t = choose|t: int|
                                0 <= t < f + 1 && (#[trigger] forced@[t]).0 == b;
                            if t < f {
                                assert(b != idx);
                                assert(grid@[i as int][b] == before[i as int][b]);
                            }
                        }
                        assert forall|b: int|
                            0 <= b < width && !(exists|t: int|
                                0 <= t < f + 1 && (#[trigger] forced@[t]).0 == b) implies
                            grid@[i as int][b] == oldrow[b] by {
                            assert(forced@[f as int].0 != b);
                            assert(b != idx);
                            assert(grid@[i as int][b] == before[i as int][b]);
                        }
                        assert(grid@[i as int] != oldrow) by {
                            assert(!(grid@[i as int][idx as int] is Unknown));
                            if grid@[i as int] == oldrow {
                                assert(grid@[i as int][idx as int] == oldrow[idx as int]);
                            }
                        }
                    }
                } else {
                    proof {
                        // the cell already carried what the pass spec keeps
                        lemma_common_spec_char(old(cands)@, width);
                        assert(forall|t: int| 0 <= t < f ==> (#[trigger] forced@[t]).0 < idx);
                        assert(grid@[i as int][idx as int] == oldrow[idx as int]);
                        assert(!(oldrow[idx as int] is Unknown));
                        assert(force_views(views_of(old(cands)@), oldrow)[idx as int]
                            == oldrow[idx as int]);
                        assert forall|b: int|
                            0 <= b < width && (exists|t: int|
                                0 <= t < f + 1 && (#[trigger] forced@[t]).0 == b) implies
                            grid@[i as int][b] == force_views(views_of(old(cands)@), oldrow)[b] by {
                            let t = choose|t: int|
                                0 <= t < f + 1 && (#[trigger] forced@[t]).0 == b;
                            if t == f {
                                assert(b == idx);
                            }
                        }
                    }
                }
            },
            None => {},
        }
        f = f + 1;
    }
    proof {
        // the whole row now reads exactly as the pass spec writes it
        lemma_common_spec_char(old(cands)@, width);
        assert(grid@[i as int] =~= force_views(views_of(old(cands)@), oldrow)) by {
            assert forall|b: int| 0 <= b < width implies grid@[i as int][b] == force_views(
                views_of(old(cands)@),
                oldrow,
            )[b] by {
                if !(exists|t: int| 0 <= t < forced@.len() && (#[trigger] forced@[t]).0 == b) {
                    assert(grid@[i as int][b] == oldrow[b]);
                    lemma_views_force_bridge(old(cands)@, b, CellState::Empty);
                    lemma_views_force_bridge(old(cands)@, b, CellState::Filled);
                    if oldrow[b] is Unknown {
                        if forced_at(old(cands)@, b, CellState::Empty) {
                            let t = choose|t: int|
                                0 <= t < common_spec(old(cands)@, width).len()
                                    && #[trigger] common_spec(old(cands)@, width)[t] == ((
                                b as usize,
                                CellState::Empty,
                            ));
                            assert(forced@[t].0 == b);
                        }
                        if !forced_at(old(cands)@, b, CellState::Empty) && forced_at(
                            old(cands)@,
                            b,
                            CellState::Filled,
                        ) {
                            let t = choose|t: int|
                                0 <= t < common_spec(old(cands)@, width).len()
                                    && #[trigger] common_spec(old(cands)@, width)[t] == ((
                                b as usize,
                                CellState::Filled,
                            ));
                            assert(forced@[t].0 == b);
                        }
                    }
                }
            }
        }
    }
    let snapshot = grid.get_row(i);
    let ghost midgrid = grid@;
    let before_len = cands.len();
    let filtered = filter_invalid_row_states(&snapshot, cands.as_slice());
    if filtered.len() < before_len {
        *changed = true;
    }
    proof {
        lemma_pruned_len(snapshot@, views_of(cands@));
        if filtered@.len() == cands@.len() {
            assert(views_of(filtered@) == views_of(cands@));
        }
    }
    let ghost oldcands = cands@;
    *cands = filtered;
    proof {
        lemma_pruned_elems(snapshot@, views_of(oldcands));
        // kept candidates are candidates of the original set
        assert forall|t: int|
            0 <= t < cands@.len() implies (#[trigger] cands@[t])@.len() == old(grid).width by {
            assert(views_of(cands@)[t] == cands@[t]@);
            let s = choose|s: int|
                0 <= s < views_of(oldcands).len() && views_of(oldcands)[s] == views_of(cands@)[t];
            assert(oldcands[s]@ == cands@[t]@);
        }
        // a tracked line survives the pruning
        assert forall|lv: Seq<CellState>|
            lv.len() == width && #[trigger] line_tracked(lv, oldrow, old(cands)@) implies
            line_tracked(lv, grid@[i as int], cands@) by {
            let t = choose|t: int|
                0 <= t < old(cands)@.len() && (#[trigger] old(cands)@[t])@ == lv;
            assert(row_compatible(grid@[i as int], lv));
            assert(snapshot@ == grid@[i as int]);
            assert(views_of(oldcands)[t] == lv);
            lemma_pruned_keeps(snapshot@, views_of(oldcands), t);
            let s = choose|s: int|
                0 <= s < pruned(snapshot@, views_of(oldcands)).len() && pruned(
                    snapshot@,
                    views_of(oldcands),
                )[s] == views_of(oldcands)[t];
            assert(views_of(cands@)[s] == lv);
            assert(cands@[s]@ == lv);
        }
        assert(views_of(cands@) == pruned(grid@[i as int], views_of(old(cands)@))) by {
            assert(snapshot@ == grid@[i as int]);
            assert(oldcands == old(cands)@);
        }
        assert(*changed == (*old(changed) || grid@[i as int] != old(grid)@[i as int]
            || cands@.len() < old(cands)@.len())) by {
            assert(views_of(oldcands).len() == oldcands.len());
            assert(views_of(cands@).len() == cands@.len());
        }
    }
}

/// Column `j` of the grid's current knowledge.
pub open spec fn col_cells(v: Seq<Seq<CellState>>, j: int) -> Seq<CellState> {
    Seq::new(v.len(), |i: int| v[i][j])
}

/// One step of the fixpoint pass on column `j`, the mirror image of the
/// row step.
fn process_col(grid: &mut StateGrid, cands: &mut Vec<StateRow>, j: usize, changed: &mut bool)
    requires
        old(grid).wf(),
        j < old(grid).width,
        forall|t: int|
            0 <= t < old(cands)@.len() ==> (#[trigger] old(cands)@[t])@.len() == old(grid).height,
    ensures
        final(grid).wf(),
        final(grid).height == old(grid).height,
        final(grid).width == old(grid).width,
        forall|t: int|
            0 <= t < final(cands)@.len() ==> (#[trigger] final(cands)@[t])@.len() == old(
                grid,
            ).height,
        // only column `j` is touched, cells only move from Unknown to determined
        forall|a: int, b: int|
            0 <= a < final(grid)@.len() && 0 <= b < final(grid)@[a].len() && b != j
                ==> final(grid)@[a][b] == old(grid)@[a][b],
        forall|a: int|
            0 <= a < old(grid).height && !(old(grid)@[a][j as int] is Unknown)
                ==> final(grid)@[a][j as int] == old(grid)@[a][j as int],
        forall|a: int|
            0 <= a < old(grid).height && final(grid)@[a][j as int] is Unknown ==> old(
                grid,
            )@[a][j as int] is Unknown,
        // a solution's column is still tracked afterwards
        forall|lv: Seq<CellState>|
            lv.len() == old(grid).height && #[trigger] line_tracked(
                lv,
                col_cells(old(grid)@, j as int),
                old(cands)@,
            ) ==> line_tracked(lv, col_cells(final(grid)@, j as int), final(cands)@),
        // progress accounting
        unknowns_grid(final(grid)@) + final(cands)@.len() <= unknowns_grid(old(grid)@) + old(
            cands,
        )@.len(),
        *old(changed) ==> *final(changed),
        !*old(changed) && *final(changed) ==> unknowns_grid(final(grid)@) + final(cands)@.len()
            < unknowns_grid(old(grid)@) + old(cands)@.len(),
        !*old(changed) && !*final(changed) ==> final(grid)@ == old(grid)@ && final(cands)@.len()
            == old(cands)@.len(),
        // the exact effect of the step, as the spec-level pass states it
        old(cands)@.len() == 0 ==> final(grid)@ == old(grid)@ && final(cands)@ == old(cands)@
            && *final(changed) == *old(changed),
        old(cands)@.len() > 0 ==> col_cells(final(grid)@, j as int) == force_views(
            views_of(old(cands)@),
            col_cells(old(grid)@, j as int),
        ),
        old(cands)@.len() > 0 ==> views_of(final(cands)@) == pruned(
            col_cells(final(grid)@, j as int),
            views_of(old(cands)@),
        ),
        old(cands)@.len() > 0 ==> *final(changed) == (*old(changed) || col_cells(
            final(grid)@,
            j as int,
        ) != col_cells(old(grid)@, j as int) || final(cands)@.len() < old(cands)@.len()),
{
    let ghost height = old(grid).height as int;
    let ghost oldcol = col_cells(old(grid)@, j as int);
    if cands.len() == 0 {
        return ;
    }
    proof {
        assert(old(cands)@[0]@.len() == old(grid).height);
    }
    let forced = common_row_indexes(cands.as_slice());
    proof {
        assert(forced@ == common_spec(old(cands)@, height));
    }
    let mut f: usize = 0;
    while f < forced.len()
        invariant
            height == old(grid).height as int,
            oldcol == col_cells(old(grid)@, j as int),
            oldcol.len() == height,
            f <= forced@.len(),
            grid.wf(),
            grid.height == old(grid).height,
            grid.width == old(grid).width,
            j < grid.width,
            cands@ == old(cands)@,
            cands@.len() > 0,
            forall|t: int|
                0 <= t < cands@.len() ==> (#[trigger] cands@[t])@.len() == old(grid).height,
            forall|t: int|
                0 <= t < forced@.len() ==> (#[trigger] forced@[t]).0 < old(grid).height && !(
                forced@[t].1 is Unknown) && forced_at(cands@, forced@[t].0 as int, forced@[t].1),
            forall|a: int, b: int|
                0 <= a < grid@.len() && 0 <= b < grid@[a].len() && b != j ==> grid@[a][b] == old(
                    grid,
                )@[a][b],
            forall|a: int|
                0 <= a < height && !(oldcol[a] is Unknown) ==> grid@[a][j as int] == oldcol[a],
            forall|a: int|
                0 <= a < height && grid@[a][j as int] is Unknown ==> oldcol[a] is Unknown,
            forall|lv: Seq<CellState>|
                lv.len() == height && #[trigger] line_tracked(lv, oldcol, old(cands)@)
                    ==> row_compatible(col_cells(grid@, j as int), lv),
            unknowns_grid(grid@) <= unknowns_grid(old(grid)@),
            *old(changed) ==> *changed,
            !*old(changed) && *changed ==> unknowns_grid(grid@) < unknowns_grid(old(grid)@),
            !*changed ==> grid@ == old(grid)@,
            forced@ == common_spec(old(cands)@, height),
            forall|a: int|
                0 <= a < height && (exists|t: int| 0 <= t < f && (#[trigger] forced@[t]).0 == a)
                    ==> col_cells(grid@, j as int)[a] == force_views(
                    views_of(old(cands)@),
                    oldcol,
                )[a],
            forall|a: int|
                0 <= a < height && !(exists|t: int| 0 <= t < f && (#[trigger] forced@[t]).0 == a)
                    ==> col_cells(grid@, j as int)[a] == oldcol[a],
            *changed == (*old(changed) || col_cells(grid@, j as int) != oldcol),
        decreases forced@.len() - f,
    {
        let (idx, st) = forced[f];
        proof {
            assert(forced@[f as int].0 < old(grid).height && !(forced@[f as int].1 is Unknown)
                && forced_at(cands@, forced@[f as int].0 as int, forced@[f as int].1));
            assert(idx == forced@[f as int].0 && st == forced@[f as int].1);
            assert(idx < old(grid).height);
        }
        match grid.get(idx, j) {
            Some(cur) => {
                if matches!(cur, CellState::Unknown) {
                    let ghost before = grid@;
                    proof {
                        assert(grid@[idx as int][j as int] is Unknown);
                        assert(col_cells(grid@, j as int)[idx as int] is Unknown);
                        assert(oldcol[idx as int] is Unknown) by {
                            if !(oldcol[idx as int] is Unknown) {
                                assert(grid@[idx as int][j as int] == oldcol[idx as int]);
                            }
                        }
                    }
                    grid.set(idx, j, st);
                    *changed = true;
                    proof {
                        assert(grid@ =~~= before.update(
                            idx as int,
                            before[idx as int].update(j as int, st),
                        ));
                        lemma_unknowns_update(before[idx as int], j as int, st);
                        lemma_unknowns_grid_update(
                            before,
                            idx as int,
                            before[idx as int].update(j as int, st),
                        );
                        assert(grid@[idx as int] == before[idx as int].update(j as int, st));
                        assert forall|a: int|
                            0 <= a < height && !(oldcol[a] is Unknown) implies grid@[a][j as int]
                            == oldcol[a] by {
                            assert(a != idx);
                            assert(grid@[a] == before[a]);
                        }
                        assert forall|a: int|
                            0 <= a < height && grid@[a][j as int] is Unknown implies oldcol[a]
                            is Unknown by {
                            assert(a != idx);
                            assert(grid@[a] == before[a]);
                        }
                        assert forall|lv: Seq<CellState>|
                            lv.len() == height && #[trigger] line_tracked(lv, oldcol, old(cands)@)
                                implies row_compatible(col_cells(grid@, j as int), lv) by {
                            let t = choose|t: int|
                                0 <= t < old(cands)@.len() && (#[trigger] old(cands)@[t])@ == lv;
                            assert(cands@[t]@[idx as int] == st);
                            assert(lv[idx as int] == st);
                            assert forall|a: int|
                                0 <= a < height && !(col_cells(grid@, j as int)[a] is Unknown)
                                    implies col_cells(grid@, j as int)[a] == lv[a] by {
                                if a == idx {
                                    assert(col_cells(grid@, j as int)[a] == st);
                                } else {
                                    assert(grid@[a] == before[a]);
                                    assert(col_cells(grid@, j as int)[a] == col_cells(
                                        before,
                                        j as int,
                                    )[a]);
                                }
                            }
                        }
                        // the written value is the one the pass spec forces
                        lemma_common_spec_char(old(cands)@, height);
                        lemma_views_force_bridge(old(cands)@, idx as int, CellState::Empty);
                        lemma_views_force_bridge(old(cands)@, idx as int, CellState::Filled);
                        assert(forall|t: int| 0 <= t < f ==> (#[trigger] forced@[t]).0 < idx);
                        assert(col_cells(grid@, j as int)[idx as int] == st);
                        assert(col_cells(grid@, j as int)[idx as int] == force_views(
                            views_of(old(cands)@),
                            oldcol,
                        )[idx as int]) by {
                            if st == CellState::Empty {
                                assert(forced_at(old(cands)@, idx as int, CellState::Empty));
                            } else {
                                assert(st == CellState::Filled);
                                assert(forced_at(old(cands)@, idx as int, CellState::Filled));
                                assert(!forced_at(old(cands)@, idx as int, CellState::Empty));
                            }
                        }
                        assert forall|a: int|
                            0 <= a < height && (exists|t: int|
                                0 <= t < f + 1 && (#[trigger] forced@[t]).0 == a) implies
                            col_cells(grid@, j as int)[a] == force_views(
                            views_of(old(cands)@),
                            oldcol,
                        )[a] by {
                            let t = choose|t: int|
                                0 <= t < f + 1 && (#[trigger] forced@[t]).0 == a;
                            if t < f {
                                assert(a != idx);
                                assert(grid@[a] == before[a]);
                                assert(col_cells(grid@, j as int)[a] == col_cells(
                                    before,
                                    j as int,
                                )[a]);
                            }
                        }
                        assert forall|a: int|
                            0 <= a < height && !(exists|t: int|
                                0 <= t < f + 1 && (#[trigger] forced@[t]).0 == a) implies
                            col_cells(grid@, j as int)[a] == oldcol[a] by {
                            assert(forced@[f as int].0 != a);
                            assert(a != idx);
                            assert(grid@[a] == before[a]);
                            assert(col_cells(grid@, j as int)[a] == col_cells(
                                before,
                                j as int,
                            )[a]);
                        }
                        assert(col_cells(grid@, j as int) != oldcol) by {
                            assert(!(col_cells(grid@, j as int)[idx as int] is Unknown));
                            if col_cells(grid@, j as int) == oldcol {
                                assert(col_cells(grid@, j as int)[idx as int] == oldcol[idx as int]);
                            }
                        }
                    }
                } else {
                    proof {
                        // the cell already carried what the pass spec keeps
                        lemma_common_spec_char(old(cands)@, height);
                        assert(forall|t: int| 0 <= t < f ==> (#[trigger] forced@[t]).0 < idx);
                        assert(col_cells(grid@, j as int)[idx as int] == oldcol[idx as int]);
                        assert(!(oldcol[idx as int] is Unknown));
                        assert(force_views(views_of(old(cands)@), oldcol)[idx as int]
                            == oldcol[idx as int]);
                        assert forall|a: int|
                            0 <= a < height && (exists|t: int|
                                0 <= t < f + 1 && (#[trigger] forced@[t]).0 == a) implies
                            col_cells(grid@, j as int)[a] == force_views(
                            views_of(old(cands)@),
                            oldcol,
                        )[a] by {
                            let t = choose|t: int|
                                0 <= t < f + 1 && (#[trigger] forced@[t]).0 == a;
                            if t == f {
                                assert(a == idx);
                            }
                        }
                    }
                }
            },
            None => {},
        }
        f = f + 1;
    }
    proof {
        // the whole column now reads exactly as the pass spec writes it
        lemma_common_spec_char(old(cands)@, height);
        assert(col_cells(grid@, j as int) =~= force_views(views_of(old(cands)@), oldcol)) by {
            assert forall|a: int| 0 <= a < height implies col_cells(grid@, j as int)[a]
                == force_views(views_of(old(cands)@), oldcol)[a] by {
                if !(exists|t: int| 0 <= t < forced@.len() && (#[trigger] forced@[t]).0 == a) {
                    assert(col_cells(grid@, j as int)[a] == oldcol[a]);
                    lemma_views_force_bridge(old(cands)@, a, CellState::Empty);
                    lemma_views_force_bridge(old(cands)@, a, CellState::Filled);
                    if oldcol[a] is Unknown {
                        if forced_at(old(cands)@, a, CellState::Empty) {
                            let t = choose|t: int|
                                0 <= t < common_spec(old(cands)@, height).len()
                                    && #[trigger] common_spec(old(cands)@, height)[t] == ((
                                a as usize,
                                CellState::Empty,
                            ));
                            assert(forced@[t].0 == a);
                        }
                        if !forced_at(old(cands)@, a, CellState::Empty) && forced_at(
                            old(cands)@,
                            a,
                            CellState::Filled,
                        ) {
                            let t = choose|t: int|
                                0 <= t < common_spec(old(cands)@, height).len()
                                    && #[trigger] common_spec(old(cands)@, height)[t] == ((
                                a as usize,
                                CellState::Filled,
                            ));
                            assert(forced@[t].0 == a);
                        }
                    }
                }
            }
        }
    }
    let snapshot = grid.get_column(j);
    proof {
        assert(snapshot@ =~= col_cells(grid@, j as int));
    }
    let before_len = cands.len();
    let filtered = filter_invalid_row_states(&snapshot, cands.as_slice());
    if filtered.len() < before_len {
        *changed = true;
    }
    proof {
        lemma_pruned_len(snapshot@, views_of(cands@));
        if filtered@.len() == cands@.len() {
            assert(views_of(filtered@) == views_of(cands@));
        }
    }
    let ghost oldcands = cands@;
    *cands = filtered;
    proof {
        lemma_pruned_elems(snapshot@, views_of(oldcands));
        assert forall|t: int|
            0 <= t < cands@.len() implies (#[trigger] cands@[t])@.len() == old(grid).height by {
            assert(views_of(cands@)[t] == cands@[t]@);
            let s = choose|s: int|
                0 <= s < views_of(oldcands).len() && views_of(oldcands)[s] == views_of(cands@)[t];
            assert(oldcands[s]@ == cands@[t]@);
        }
        assert forall|lv: Seq<CellState>|
            lv.len() == height && #[trigger] line_tracked(lv, oldcol, old(cands)@) implies
            line_tracked(lv, col_cells(grid@, j as int), cands@) by {
            let t = choose|t: int|
                0 <= t < old(cands)@.len() && (#[trigger] old(cands)@[t])@ == lv;
            assert(row_compatible(col_cells(grid@, j as int), lv));
            assert(snapshot@ == col_cells(grid@, j as int));
            assert(views_of(oldcands)[t] == lv);
            lemma_pruned_keeps(snapshot@, views_of(oldcands), t);
            let s = choose|s: int|
                0 <= s < pruned(snapshot@, views_of(oldcands)).len() && pruned(
                    snapshot@,
                    views_of(oldcands),
                )[s] == views_of(oldcands)[t];
            assert(views_of(cands@)[s] == lv);
            assert(cands@[s]@ == lv);
        }
        assert forall|a: int|
            0 <= a < old(grid).height && !(old(grid)@[a][j as int] is Unknown) implies
            grid@[a][j as int] == old(grid)@[a][j as int] by {
            assert(oldcol[a] == old(grid)@[a][j as int]);
            assert(grid@[a][j as int] == oldcol[a]);
        }
        assert forall|a: int|
            0 <= a < old(grid).height && grid@[a][j as int] is Unknown implies old(
            grid,
        )@[a][j as int] is Unknown by {
            assert(oldcol[a] == old(grid)@[a][j as int]);
            assert(oldcol[a] is Unknown);
        }
        assert(views_of(cands@) == pruned(col_cells(grid@, j as int), views_of(old(cands)@))) by {
            assert(snapshot@ == col_cells(grid@, j as int));
            assert(oldcands == old(cands)@);
        }
        assert(*changed == (*old(changed) || col_cells(grid@, j as int) != col_cells(
            old(grid)@,
            j as int,
        ) || cands@.len() < old(cands)@.len())) by {
            assert(views_of(oldcands).len() == oldcands.len());
            assert(views_of(cands@).len() == cands@.len());
        }
    }
}

/// For any solution `g` of the clues: every determined cell of the grid
/// agrees with `g`, and each row's and column's candidate set still holds
/// `g`'s line.  This is the soundness invariant of the whole fixpoint loop.
pub open spec fn solver_inv(
    g: Seq<Seq<bool>>,
    gridv: Seq<Seq<CellState>>,
    rc: Seq<Vec<StateRow>>,
    cc: Seq<Vec<StateRow>>,
) -> bool {
    &&& forall|i: int, b: int|
        0 <= i < gridv.len() && 0 <= b < gridv[i].len() && !((#[trigger] gridv[i][b]) is Unknown)
            ==> gridv[i][b] == cells_of(g[i])[b]
    &&& forall|i: int| 0 <= i < rc.len() ==> holds_line((#[trigger] rc[i])@, cells_of(g[i]))
    &&& forall|j: int|
        0 <= j < cc.len() ==> holds_line((#[trigger] cc[j])@, cells_of(col_seq(g, j)))
}

/// Whether line-local constraint propagation alone fully determines the
/// grid described by the given row and column clues.
///
/// The answer is exactly whether the iterated propagation — repeatedly
/// writing every cell all of a line's surviving candidates agree on and
/// pruning candidates against the known cells, until a pass changes
/// nothing — reaches a fully determined grid.  It is a sound but
/// incomplete decision procedure: when it answers `true`, the clues admit
/// at most one solution (and the propagation found it); when it answers
/// `false`, propagation stalled, which decides nothing about how many
/// solutions exist.
pub fn has_single_solution(row_segments: &Vec<Vec<usize>>, column_segments: &Vec<Vec<usize>>) -> (r:
    bool)
    requires
        forall|i: int|
            0 <= i < row_segments@.len() ==> clue_fits(
                #[trigger] clues_of(row_segments@)[i],
                column_segments@.len() as int,
            ),
        forall|j: int|
            0 <= j < column_segments@.len() ==> clue_fits(
                #[trigger] clues_of(column_segments@)[j],
                row_segments@.len() as int,
            ),
    ensures
        r ==> forall|g1: Seq<Seq<bool>>, g2: Seq<Seq<bool>>|
            grid_matches(g1, clues_of(row_segments@), clues_of(column_segments@)) && grid_matches(
                g2,
                clues_of(row_segments@),
                clues_of(column_segments@),
            ) ==> g1 =~~= g2,
        r == grid_determined(
            propagation_fixpoint(clues_of(row_segments@), clues_of(column_segments@)),
        ),
{
    let height = row_segments.len();
    let width = column_segments.len();
    let ghost rowclues = clues_of(row_segments@);
    let ghost colclues = clues_of(column_segments@);
    let mut row_cands: Vec<Vec<StateRow>> = Vec::new();
    let mut i: usize = 0;
    while i < height
        invariant
            height == row_segments@.len(),
            width == column_segments@.len(),
            rowclues == clues_of(row_segments@),
            forall|idx: int|
                0 <= idx < row_segments@.len() ==> clue_fits(
                    #[trigger] clues_of(row_segments@)[idx],
                    column_segments@.len() as int,
                ),
            row_cands@.len() == i <= height,
            forall|idx: int, t: int|
                0 <= idx < i && 0 <= t < row_cands@[idx]@.len() ==> valid_line(
                    (#[trigger] row_cands@[idx]@[t])@,
                    rowclues[idx],
                    width as int,
                ),
            forall|idx: int, ell: Seq<CellState>|
                0 <= idx < i && #[trigger] valid_line(ell, rowclues[idx], width as int)
                    ==> holds_line(row_cands@[idx]@, ell),
        decreases height - i,
    {
        proof {
            assert(ints_of(row_segments@[i as int]@) == rowclues[i as int]);
        }
        let cands = enumerate_row_states(width, row_segments[i].as_slice());
        let ghost cv = cands@;
        row_cands.push(cands);
        proof {
            assert(row_cands@[i as int]@ == cv);
            assert forall|ell: Seq<CellState>|
                #[trigger] valid_line(ell, rowclues[i as int], width as int) implies holds_line(
                row_cands@[i as int]@,
                ell,
            ) by {
                let t = choose|t: int| 0 <= t < cv.len() && (#[trigger] cv[t])@ == ell;
                assert((row_cands@[i as int]@[t])@ == ell);
            }
        }
        i = i + 1;
    }
    let mut col_cands: Vec<Vec<StateRow>> = Vec::new();
    let mut jj: usize = 0;
    while jj < width
        invariant
            height == row_segments@.len(),
            width == column_segments@.len(),
            colclues == clues_of(column_segments@),
            forall|idx: int|
                0 <= idx < column_segments@.len() ==> clue_fits(
                    #[trigger] clues_of(column_segments@)[idx],
                    row_segments@.len() as int,
                ),
            col_cands@.len() == jj <= width,
            forall|idx: int, t: int|
                0 <= idx < jj && 0 <= t < col_cands@[idx]@.len() ==> valid_line(
                    (#[trigger] col_cands@[idx]@[t])@,
                    colclues[idx],
                    height as int,
                ),
            forall|idx: int, ell: Seq<CellState>|
                0 <= idx < jj && #[trigger] valid_line(ell, colclues[idx], height as int)
                    ==> holds_line(col_cands@[idx]@, ell),
        decreases width - jj,
    {
        proof {
            assert(ints_of(column_segments@[jj as int]@) == colclues[jj as int]);
        }
        let cands = enumerate_row_states(height, column_segments[jj].as_slice());
        let ghost cv = cands@;
        col_cands.push(cands);
        proof {
            assert(col_cands@[jj as int]@ == cv);
            assert forall|ell: Seq<CellState>|
                #[trigger] valid_line(ell, colclues[jj as int], height as int) implies holds_line(
                col_cands@[jj as int]@,
                ell,
            ) by {
                let t = choose|t: int| 0 <= t < cv.len() && (#[trigger] cv[t])@ == ell;
                assert((col_cands@[jj as int]@[t])@ == ell);
            }
        }
        jj = jj + 1;
    }
    let mut grid = StateGrid::new(height, width);
    proof {
        // any solution is among the enumerated candidates of every line
        assert(forall|a: int, b: int|
            0 <= a < grid@.len() && 0 <= b < grid@[a].len() ==> #[trigger] grid@[a][b] is Unknown);
        assert forall|g: Seq<Seq<bool>>| #[trigger] grid_matches(g, rowclues, colclues) implies
            solver_inv(g, grid@, row_cands@, col_cands@) by {
            assert forall|idx: int| 0 <= idx < row_cands@.len() implies holds_line(
                (#[trigger] row_cands@[idx])@,
                cells_of(g[idx]),
            ) by {
                let lv = cells_of(g[idx]);
                assert(bits_of(lv) =~= g[idx]);
                assert(determined(lv));
                assert(lv.len() == width);
                assert(valid_line(lv, rowclues[idx], width as int));
            }
            assert forall|idx: int| 0 <= idx < col_cands@.len() implies holds_line(
                (#[trigger] col_cands@[idx])@,
                cells_of(col_seq(g, idx)),
            ) by {
                let lv = cells_of(col_seq(g, idx));
                assert(bits_of(lv) =~= col_seq(g, idx));
                assert(determined(lv));
                assert(lv.len() == height);
                assert(valid_line(lv, colclues[idx], height as int));
            }
        }
    }
    let ghost mut rsnaps: Seq<Seq<CellState>> = initial_prop_state(rowclues, colclues).row_snaps;
    let ghost mut csnaps: Seq<Seq<CellState>> = initial_prop_state(rowclues, colclues).col_snaps;
    proof {
        // the starting exec state is exactly the propagation's starting state
        let init = initial_prop_state(rowclues, colclues);
        assert((PropState { grid: grid@, row_snaps: rsnaps, col_snaps: csnaps }) == init) by {
            assert(grid@ =~~= init.grid);
        }
        assert(prop_wf(init, rowclues, colclues));
        assert forall|idx: int| 0 <= idx < height implies list_matches(
            (#[trigger] row_cands@[idx])@,
            rowclues[idx],
            rsnaps[idx],
            width as int,
        ) by {
            assert forall|lv: Seq<CellState>|
                holds_line(row_cands@[idx]@, lv) == line_candidate(
                    lv,
                    rowclues[idx],
                    rsnaps[idx],
                    width as int,
                ) by {
                if holds_line(row_cands@[idx]@, lv) {
                    let t = choose|t: int|
                        0 <= t < row_cands@[idx]@.len() && (#[trigger] row_cands@[idx]@[t])@ == lv;
                    assert(valid_line(lv, rowclues[idx], width as int));
                    assert(row_compatible(rsnaps[idx], lv));
                }
                if line_candidate(lv, rowclues[idx], rsnaps[idx], width as int) {
                    assert(valid_line(lv, rowclues[idx], width as int));
                    assert(holds_line(row_cands@[idx]@, lv));
                }
            }
        }
        assert forall|idx: int| 0 <= idx < width implies list_matches(
            (#[trigger] col_cands@[idx])@,
            colclues[idx],
            csnaps[idx],
            height as int,
        ) by {
            assert forall|lv: Seq<CellState>|
                holds_line(col_cands@[idx]@, lv) == line_candidate(
                    lv,
                    colclues[idx],
                    csnaps[idx],
                    height as int,
                ) by {
                if holds_line(col_cands@[idx]@, lv) {
                    let t = choose|t: int|
                        0 <= t < col_cands@[idx]@.len() && (#[trigger] col_cands@[idx]@[t])@ == lv;
                    assert(valid_line(lv, colclues[idx], height as int));
                    assert(row_compatible(csnaps[idx], lv));
                }
                if line_candidate(lv, colclues[idx], csnaps[idx], height as int) {
                    assert(valid_line(lv, colclues[idx], height as int));
                    assert(holds_line(col_cands@[idx]@, lv));
                }
            }
        }
    }
    loop
        invariant
            height == row_segments@.len(),
            width == column_segments@.len(),
            rowclues == clues_of(row_segments@),
            colclues == clues_of(column_segments@),
            grid.wf(),
            grid.height == height,
            grid.width == width,
            row_cands@.len() == height,
            col_cands@.len() == width,
            forall|idx: int, t: int|
                0 <= idx < height && 0 <= t < row_cands@[idx]@.len() ==> (
                #[trigger] row_cands@[idx]@[t])@.len() == width,
            forall|idx: int, t: int|
                0 <= idx < width && 0 <= t < col_cands@[idx]@.len() ==> (
                #[trigger] col_cands@[idx]@[t])@.len() == height,
            forall|g: Seq<Seq<bool>>|
                #[trigger] grid_matches(g, rowclues, colclues) ==> solver_inv(
                    g,
                    grid@,
                    row_cands@,
                    col_cands@,
                ),
            prop_wf(
                (PropState { grid: grid@, row_snaps: rsnaps, col_snaps: csnaps }),
                rowclues,
                colclues,
            ),
            forall|idx: int|
                0 <= idx < height ==> list_matches(
                    (#[trigger] row_cands@[idx])@,
                    rowclues[idx],
                    rsnaps[idx],
                    width as int,
                ),
            forall|idx: int|
                0 <= idx < width ==> list_matches(
                    (#[trigger] col_cands@[idx])@,
                    colclues[idx],
                    csnaps[idx],
                    height as int,
                ),
            prop_limit(
                (PropState { grid: grid@, row_snaps: rsnaps, col_snaps: csnaps }),
                rowclues,
                colclues,
            ) == propagation_fixpoint(rowclues, colclues),
        decreases unknowns_grid(grid@) + cands_total(row_cands@) + cands_total(col_cands@),
    {
        let ghost m_start = unknowns_grid(grid@) + cands_total(row_cands@) + cands_total(
            col_cands@,
        );
        let ghost st0 = PropState { grid: grid@, row_snaps: rsnaps, col_snaps: csnaps };
        let mut changed = false;
        let mut i: usize = 0;
        while i < height
            invariant
                height == row_segments@.len(),
                width == column_segments@.len(),
                rowclues == clues_of(row_segments@),
                colclues == clues_of(column_segments@),
                i <= height,
                grid.wf(),
                grid.height == height,
                grid.width == width,
                row_cands@.len() == height,
                col_cands@.len() == width,
                forall|idx: int, t: int|
                    0 <= idx < height && 0 <= t < row_cands@[idx]@.len() ==> (
                    #[trigger] row_cands@[idx]@[t])@.len() == width,
                forall|idx: int, t: int|
                    0 <= idx < width && 0 <= t < col_cands@[idx]@.len() ==> (
                    #[trigger] col_cands@[idx]@[t])@.len() == height,
                forall|g: Seq<Seq<bool>>|
                    #[trigger] grid_matches(g, rowclues, colclues) ==> solver_inv(
                        g,
                        grid@,
                        row_cands@,
                        col_cands@,
                    ),
                unknowns_grid(grid@) + cands_total(row_cands@) + cands_total(col_cands@)
                    <= m_start,
                changed ==> unknowns_grid(grid@) + cands_total(row_cands@) + cands_total(
                    col_cands@,
                ) < m_start,
                !changed ==> unknowns_grid(grid@) + cands_total(row_cands@) + cands_total(
                    col_cands@,
                ) == m_start,
                prop_wf(st0, rowclues, colclues),
                ({
                    let fold = prop_rows(st0, rowclues, colclues, i as int);
                    fold.0 == (PropState { grid: grid@, row_snaps: rsnaps, col_snaps: csnaps })
                        && fold.1 == changed
                }),
                forall|idx: int|
                    0 <= idx < height ==> list_matches(
                        (#[trigger] row_cands@[idx])@,
                        rowclues[idx],
                        rsnaps[idx],
                        width as int,
                    ),
                forall|idx: int|
                    0 <= idx < width ==> list_matches(
                        (#[trigger] col_cands@[idx])@,
                        colclues[idx],
                        csnaps[idx],
                        height as int,
                    ),
                prop_wf(
                    (PropState { grid: grid@, row_snaps: rsnaps, col_snaps: csnaps }),
                    rowclues,
                    colclues,
                ),
                prop_limit(st0, rowclues, colclues) == propagation_fixpoint(rowclues, colclues),
            decreases height - i,
        {
            let ghost gpre = grid@;
            let ghost rcpre = row_cands@;
            let ghost ccpre = col_cands@;
            let ghost chpre = changed;
            let ghost spre = PropState { grid: grid@, row_snaps: rsnaps, col_snaps: csnaps };
            process_row(&mut grid, &mut row_cands[i], i, &mut changed);
            proof {
                assert(row_cands@ =~= rcpre.update(i as int, row_cands@[i as int]));
                lemma_cands_total_update(rcpre, i as int, row_cands@[i as int]);
                assert forall|g: Seq<Seq<bool>>|
                    #[trigger] grid_matches(g, rowclues, colclues) implies solver_inv(
                    g,
                    grid@,
                    row_cands@,
                    col_cands@,
                ) by {
                    assert(solver_inv(g, gpre, rcpre, ccpre));
                    let lv = cells_of(g[i as int]);
                    assert(g[i as int].len() == width);
                    assert(lv.len() == width);
                    assert(line_tracked(lv, gpre[i as int], rcpre[i as int]@)) by {
                        assert(forall|b: int|
                            0 <= b < gpre[i as int].len() && !((#[trigger] gpre[i as int][b])
                                is Unknown) ==> gpre[i as int][b] == lv[b]);
                    }
                    assert(line_tracked(lv, grid@[i as int], row_cands@[i as int]@));
                    // determined cells of row `i` agree with the tracked line
                    assert forall|a: int, b: int|
                        0 <= a < grid@.len() && 0 <= b < grid@[a].len() && !((
                        #[trigger] grid@[a][b]) is Unknown) implies grid@[a][b] == cells_of(
                        g[a],
                    )[b] by {
                        if a == i {
                            assert(row_compatible(grid@[i as int], lv));
                            assert(grid@[i as int][b] == lv[b]);
                        } else {
                            assert(grid@[a][b] == gpre[a][b]);
                        }
                    }
                    assert forall|i2: int| 0 <= i2 < row_cands@.len() implies holds_line(
                        (#[trigger] row_cands@[i2])@,
                        cells_of(g[i2]),
                    ) by {
                        if i2 == i {
                            assert(holds_line(row_cands@[i as int]@, lv));
                        } else {
                            assert(row_cands@[i2] == rcpre[i2]);
                            assert(holds_line(rcpre[i2]@, cells_of(g[i2])));
                        }
                    }
                }
                // the step mirrors the spec-level pass on row `i`
                let clue = rowclues[i as int];
                let ghost oldsnap = rsnaps[i as int];
                lemma_step_bridge(rcpre[i as int]@, clue, oldsnap, width as int, gpre[i as int]);
                lemma_prop_row_step_measure(spre, rowclues, colclues, i as int);
                if rcpre[i as int]@.len() == 0 {
                    assert(!some_candidate(clue, oldsnap, width as int));
                    assert(prop_row_step(spre, rowclues, colclues, i as int) == (spre, false));
                    assert(row_cands@[i as int]@ == rcpre[i as int]@);
                    assert((PropState { grid: grid@, row_snaps: rsnaps, col_snaps: csnaps })
                        == spre);
                } else {
                    assert(some_candidate(clue, oldsnap, width as int));
                    let newrow = forced_line(clue, oldsnap, gpre[i as int], width as int);
                    assert(grid@[i as int] == newrow);
                    lemma_forced_line_keeps(clue, oldsnap, gpre[i as int], width as int);
                    assert(forall|b: int|
                        0 <= b < oldsnap.len() && !((#[trigger] oldsnap[b]) is Unknown)
                            ==> newrow[b] == oldsnap[b]) by {
                        assert(forall|b: int|
                            0 <= b < oldsnap.len() && !((#[trigger] oldsnap[b]) is Unknown)
                                ==> gpre[i as int][b] == oldsnap[b]);
                    }
                    lemma_prune_bridge(rcpre[i as int]@, clue, oldsnap, width as int, newrow);
                    rsnaps = rsnaps.update(i as int, newrow);
                    assert(grid@ =~~= spre.grid.update(i as int, newrow));
                    assert((PropState { grid: grid@, row_snaps: rsnaps, col_snaps: csnaps })
                        == prop_row_step(spre, rowclues, colclues, i as int).0);
                    // the change flag is the spec step's change flag
                    assert(changed == (chpre || prop_row_step(
                        spre,
                        rowclues,
                        colclues,
                        i as int,
                    ).1)) by {
                        assert(views_of(rcpre[i as int]@).len() == rcpre[i as int]@.len());
                        assert(views_of(row_cands@[i as int]@).len() == row_cands@[i as int]@.len());
                        assert(views_of(row_cands@[i as int]@) == pruned(
                            newrow,
                            views_of(rcpre[i as int]@),
                        ));
                    }
                    // the kept list matches the new snapshot
                    assert(list_matches(
                        row_cands@[i as int]@,
                        clue,
                        rsnaps[i as int],
                        width as int,
                    )) by {
                        assert forall|lv: Seq<CellState>|
                            holds_line(row_cands@[i as int]@, lv) == line_candidate(
                                lv,
                                clue,
                                newrow,
                                width as int,
                            ) by {
                            assert(views_of(row_cands@[i as int]@) == pruned(
                                newrow,
                                views_of(rcpre[i as int]@),
                            ));
                            if holds_line(row_cands@[i as int]@, lv) {
                                let t = choose|t: int|
                                    0 <= t < row_cands@[i as int]@.len() && (
                                    #[trigger] row_cands@[i as int]@[t])@ == lv;
                                assert(pruned(newrow, views_of(rcpre[i as int]@))[t] == lv);
                            }
                            if line_candidate(lv, clue, newrow, width as int) {
                                let s = choose|s: int|
                                    0 <= s < pruned(newrow, views_of(rcpre[i as int]@)).len()
                                        && #[trigger] pruned(
                                        newrow,
                                        views_of(rcpre[i as int]@),
                                    )[s] == lv;
                                assert(row_cands@[i as int]@[s]@ == lv);
                            }
                        }
                    }
                }
                assert(prop_rows(st0, rowclues, colclues, i as int + 1).0 == (PropState {
                    grid: grid@,
                    row_snaps: rsnaps,
                    col_snaps: csnaps,
                }));
                assert(prop_rows(st0, rowclues, colclues, i as int + 1).1 == changed);
                assert(forall|idx: int|
                    0 <= idx < height && idx != i ==> rsnaps[idx] == spre.row_snaps[idx]);
            }
            i = i + 1;
        }
        let mut j: usize = 0;
        while j < width
            invariant
                height == row_segments@.len(),
                width == column_segments@.len(),
                rowclues == clues_of(row_segments@),
                colclues == clues_of(column_segments@),
                j <= width,
                grid.wf(),
                grid.height == height,
                grid.width == width,
                row_cands@.len() == height,
                col_cands@.len() == width,
                forall|idx: int, t: int|
                    0 <= idx < height && 0 <= t < row_cands@[idx]@.len() ==> (
                    #[trigger] row_cands@[idx]@[t])@.len() == width,
                forall|idx: int, t: int|
                    0 <= idx < width && 0 <= t < col_cands@[idx]@.len() ==> (
                    #[trigger] col_cands@[idx]@[t])@.len() == height,
                forall|g: Seq<Seq<bool>>|
                    #[trigger] grid_matches(g, rowclues, colclues) ==> solver_inv(
                        g,
                        grid@,
                        row_cands@,
                        col_cands@,
                    ),
                unknowns_grid(grid@) + cands_total(row_cands@) + cands_total(col_cands@)
                    <= m_start,
                changed ==> unknowns_grid(grid@) + cands_total(row_cands@) + cands_total(
                    col_cands@,
                ) < m_start,
                !changed ==> unknowns_grid(grid@) + cands_total(row_cands@) + cands_total(
                    col_cands@,
                ) == m_start,
                prop_wf(st0, rowclues, colclues),
                ({
                    let rfold = prop_rows(st0, rowclues, colclues, height as int);
                    let cfold = prop_cols(rfold.0, rowclues, colclues, j as int);
                    cfold.0 == (PropState { grid: grid@, row_snaps: rsnaps, col_snaps: csnaps })
                        && changed == (rfold.1 || cfold.1)
                }),
                forall|idx: int|
                    0 <= idx < height ==> list_matches(
                        (#[trigger] row_cands@[idx])@,
                        rowclues[idx],
                        rsnaps[idx],
                        width as int,
                    ),
                forall|idx: int|
                    0 <= idx < width ==> list_matches(
                        (#[trigger] col_cands@[idx])@,
                        colclues[idx],
                        csnaps[idx],
                        height as int,
                    ),
                prop_wf(
                    (PropState { grid: grid@, row_snaps: rsnaps, col_snaps: csnaps }),
                    rowclues,
                    colclues,
                ),
                prop_limit(st0, rowclues, colclues) == propagation_fixpoint(rowclues, colclues),
            decreases width - j,
        {
            let ghost gpre = grid@;
            let ghost rcpre = row_cands@;
            let ghost ccpre = col_cands@;
            let ghost chpre = changed;
            let ghost spre = PropState { grid: grid@, row_snaps: rsnaps, col_snaps: csnaps };
            process_col(&mut grid, &mut col_cands[j], j, &mut changed);
            proof {
                assert(col_cands@ =~= ccpre.update(j as int, col_cands@[j as int]));
                lemma_cands_total_update(ccpre, j as int, col_cands@[j as int]);
                assert forall|g: Seq<Seq<bool>>|
                    #[trigger] grid_matches(g, rowclues, colclues) implies solver_inv(
                    g,
                    grid@,
                    row_cands@,
                    col_cands@,
                ) by {
                    assert(solver_inv(g, gpre, rcpre, ccpre));
                    let lv = cells_of(col_seq(g, j as int));
                    assert(col_seq(g, j as int).len() == height);
                    assert(lv.len() == height);
                    assert(line_tracked(lv, col_cells(gpre, j as int), ccpre[j as int]@)) by {
                        assert forall|a: int|
                            0 <= a < col_cells(gpre, j as int).len() && !((#[trigger] col_cells(
                                gpre,
                                j as int,
                            )[a]) is Unknown) implies col_cells(gpre, j as int)[a] == lv[a] by {
                            assert(col_cells(gpre, j as int)[a] == gpre[a][j as int]);
                            assert(gpre[a][j as int] == cells_of(g[a])[j as int]);
                            assert(lv[a] == cells_of(g[a])[j as int]) by {
                                assert(col_seq(g, j as int)[a] == g[a][j as int]);
                            }
                        }
                    }
                    assert(line_tracked(lv, col_cells(grid@, j as int), col_cands@[j as int]@));
                    assert forall|a: int, b: int|
                        0 <= a < grid@.len() && 0 <= b < grid@[a].len() && !((
                        #[trigger] grid@[a][b]) is Unknown) implies grid@[a][b] == cells_of(
                        g[a],
                    )[b] by {
                        if b == j {
                            assert(row_compatible(col_cells(grid@, j as int), lv));
                            assert(col_cells(grid@, j as int)[a] == grid@[a][b]);
                            assert(col_cells(grid@, j as int)[a] == lv[a]);
                            assert(lv[a] == cells_of(g[a])[b]) by {
                                assert(col_seq(g, j as int)[a] == g[a][j as int]);
                            }
                        } else {
                            assert(grid@[a][b] == gpre[a][b]);
                        }
                    }
                    assert forall|j2: int| 0 <= j2 < col_cands@.len() implies holds_line(
                        (#[trigger] col_cands@[j2])@,
                        cells_of(col_seq(g, j2)),
                    ) by {
                        if j2 == j {
                            assert(holds_line(col_cands@[j as int]@, lv));
                        } else {
                            assert(col_cands@[j2] == ccpre[j2]);
                            assert(holds_line(ccpre[j2]@, cells_of(col_seq(g, j2))));
                        }
                    }
                }
                // the step mirrors the spec-level pass on column `j`
                let clue = colclues[j as int];
                let ghost oldsnap = csnaps[j as int];
                let ghost oldcol = col_cells(gpre, j as int);
                lemma_step_bridge(ccpre[j as int]@, clue, oldsnap, height as int, oldcol);
                lemma_prop_col_step_measure(spre, rowclues, colclues, j as int);
                if ccpre[j as int]@.len() == 0 {
                    assert(!some_candidate(clue, oldsnap, height as int));
                    assert(prop_col_step(spre, rowclues, colclues, j as int) == (spre, false));
                    assert(col_cands@[j as int]@ == ccpre[j as int]@);
                    assert((PropState { grid: grid@, row_snaps: rsnaps, col_snaps: csnaps })
                        == spre);
                } else {
                    assert(some_candidate(clue, oldsnap, height as int));
                    let newcol = forced_line(clue, oldsnap, oldcol, height as int);
                    assert(col_cells(grid@, j as int) == newcol);
                    lemma_forced_line_keeps(clue, oldsnap, oldcol, height as int);
                    assert(forall|a: int|
                        0 <= a < oldsnap.len() && !((#[trigger] oldsnap[a]) is Unknown)
                            ==> newcol[a] == oldsnap[a]) by {
                        assert(forall|a: int|
                            0 <= a < oldsnap.len() && !((#[trigger] oldsnap[a]) is Unknown)
                                ==> oldcol[a] == oldsnap[a]);
                    }
                    lemma_prune_bridge(ccpre[j as int]@, clue, oldsnap, height as int, newcol);
                    csnaps = csnaps.update(j as int, newcol);
                    assert(grid@ =~~= Seq::new(
                        spre.grid.len(),
                        |a: int| spre.grid[a].update(j as int, newcol[a]),
                    )) by {
                        assert forall|a: int, b: int|
                            0 <= a < height && 0 <= b < width implies grid@[a][b] == Seq::new(
                            spre.grid.len(),
                            |a2: int| spre.grid[a2].update(j as int, newcol[a2]),
                        )[a][b] by {
                            if b == j {
                                assert(grid@[a][b] == col_cells(grid@, j as int)[a]);
                                assert(col_cells(grid@, j as int)[a] == newcol[a]);
                            }
                        }
                    }
                    assert((PropState { grid: grid@, row_snaps: rsnaps, col_snaps: csnaps })
                        == prop_col_step(spre, rowclues, colclues, j as int).0);
                    assert(changed == (chpre || prop_col_step(
                        spre,
                        rowclues,
                        colclues,
                        j as int,
                    ).1)) by {
                        assert(views_of(ccpre[j as int]@).len() == ccpre[j as int]@.len());
                        assert(views_of(col_cands@[j as int]@).len() == col_cands@[j as int]@.len());
                        assert(views_of(col_cands@[j as int]@) == pruned(
                            newcol,
                            views_of(ccpre[j as int]@),
                        ));
                        assert(col_cells(grid@, j as int) != oldcol <==> newcol != oldcol);
                    }
                    assert(list_matches(
                        col_cands@[j as int]@,
                        clue,
                        csnaps[j as int],
                        height as int,
                    )) by {
                        assert forall|lv: Seq<CellState>|
                            holds_line(col_cands@[j as int]@, lv) == line_candidate(
                                lv,
                                clue,
                                newcol,
                                height as int,
                            ) by {
                            assert(views_of(col_cands@[j as int]@) == pruned(
                                newcol,
                                views_of(ccpre[j as int]@),
                            ));
                            if holds_line(col_cands@[j as int]@, lv) {
                                let t = choose|t: int|
                                    0 <= t < col_cands@[j as int]@.len() && (
                                    #[trigger] col_cands@[j as int]@[t])@ == lv;
                                assert(pruned(newcol, views_of(ccpre[j as int]@))[t] == lv);
                            }
                            if line_candidate(lv, clue, newcol, height as int) {
                                let s = choose|s: int|
                                    0 <= s < pruned(newcol, views_of(ccpre[j as int]@)).len()
                                        && #[trigger] pruned(
                                        newcol,
                                        views_of(ccpre[j as int]@),
                                    )[s] == lv;
                                assert(col_cands@[j as int]@[s]@ == lv);
                            }
                        }
                    }
                }
                assert(({
                    let rfold = prop_rows(st0, rowclues, colclues, height as int);
                    let cfold = prop_cols(rfold.0, rowclues, colclues, j as int + 1);
                    cfold.0 == (PropState { grid: grid@, row_snaps: rsnaps, col_snaps: csnaps })
                        && changed == (rfold.1 || cfold.1)
                }));
                assert(forall|idx: int|
                    0 <= idx < width && idx != j ==> csnaps[idx] == spre.col_snaps[idx]);
            }
            j = j + 1;
        }
        if grid.is_known() {
            proof {
                assert forall|g1: Seq<Seq<bool>>, g2: Seq<Seq<bool>>|
                    grid_matches(g1, rowclues, colclues) && grid_matches(g2, rowclues, colclues)
                        implies g1 =~~= g2 by {
                    assert(solver_inv(g1, grid@, row_cands@, col_cands@));
                    assert(solver_inv(g2, grid@, row_cands@, col_cands@));
                    assert forall|a: int, b: int|
                        0 <= a < g1.len() && 0 <= b < g1[a].len() implies g1[a][b] == g2[a][b] by {
                        assert(determined(grid@[a]));
                        assert(!(grid@[a][b] is Unknown));
                        assert(grid@[a][b] == cells_of(g1[a])[b]);
                        assert(grid@[a][b] == cells_of(g2[a])[b]);
                        assert(cells_of(g1[a])[b] == cells_of(g2[a])[b]);
                    }
                }
            }
            proof {
                // the pass ended on a fully determined grid, which is the
                // propagation's own stopping point
                let cur = PropState { grid: grid@, row_snaps: rsnaps, col_snaps: csnaps };
                assert(prop_pass(st0, rowclues, colclues) == (cur, changed));
                assert(grid_determined(cur.grid));
                assert(prop_limit(st0, rowclues, colclues) == cur.grid);
                assert(grid_determined(propagation_fixpoint(rowclues, colclues)));
            }
            return true;
        }
        if !changed {
            proof {
                // the pass changed nothing and left Unknown cells: the
                // propagation stops on this very grid
                let cur = PropState { grid: grid@, row_snaps: rsnaps, col_snaps: csnaps };
                assert(prop_pass(st0, rowclues, colclues) == (cur, changed));
                assert(prop_limit(st0, rowclues, colclues) == cur.grid);
                assert(!grid_determined(propagation_fixpoint(rowclues, colclues)));
            }
            return false;
        }
        proof {
            lemma_unknowns_grid_nonneg(grid@);
            lemma_cands_total_nonneg(row_cands@);
            lemma_cands_total_nonneg(col_cands@);
            // the pass changed something: the propagation continues from here
            let cur = PropState { grid: grid@, row_snaps: rsnaps, col_snaps: csnaps };
            assert(prop_pass(st0, rowclues, colclues) == (cur, changed));
            assert(!grid_determined(cur.grid));
            assert(prop_limit(st0, rowclues, colclues) == prop_limit(cur, rowclues, colclues));
        }
    }
}

/// Ghost state of the propagation: the knowledge grid together with, for
/// each row and column, the snapshot of that line's knowledge at the moment
/// its candidate set was last pruned.  A line's surviving candidates are
/// exactly the valid lines that agree with its snapshot.
pub struct PropState {
    pub grid: Seq<Seq<CellState>>,
    pub row_snaps: Seq<Seq<CellState>>,
    pub col_snaps: Seq<Seq<CellState>>,
}

/// A candidate the propagation still considers for a line.
pub open spec fn line_candidate(
    lv: Seq<CellState>,
    clue: Seq<int>,
    snap: Seq<CellState>,
    size: int,
) -> bool {
    valid_line(lv, clue, size) && row_compatible(snap, lv)
}

pub open spec fn some_candidate(clue: Seq<int>, snap: Seq<CellState>, size: int) -> bool {
    exists|lv: Seq<CellState>| line_candidate(lv, clue, snap, size)
}

/// Every remaining candidate of the line holds `v` at position `b`.
pub open spec fn candidates_force(
    clue: Seq<int>,
    snap: Seq<CellState>,
    size: int,
    b: int,
    v: CellState,
) -> bool {
    forall|lv: Seq<CellState>| line_candidate(lv, clue, snap, size) ==> lv[b] == v
}

/// One intersection step on a line: every Unknown position that all
/// remaining candidates agree on becomes that agreed cell.
pub open spec fn forced_line(
    clue: Seq<int>,
    snap: Seq<CellState>,
    row: Seq<CellState>,
    size: int,
) -> Seq<CellState> {
    Seq::new(
        row.len(),
        |b: int|
            if row[b] is Unknown && candidates_force(clue, snap, size, b, CellState::Empty) {
                CellState::Empty
            } else if row[b] is Unknown && !candidates_force(clue, snap, size, b, CellState::Empty)
                && candidates_force(clue, snap, size, b, CellState::Filled) {
                CellState::Filled
            } else {
                row[b]
            },
    )
}

/// The propagation state is well-shaped and the snapshots are earlier
/// knowledge: every cell a snapshot has determined still stands in the grid.
pub open spec fn prop_wf(st: PropState, rows: Seq<Seq<int>>, cols: Seq<Seq<int>>) -> bool {
    let h = rows.len() as int;
    let w = cols.len() as int;
    &&& st.grid.len() == h
    &&& forall|i: int| 0 <= i < h ==> (#[trigger] st.grid[i]).len() == w
    &&& st.row_snaps.len() == h
    &&& forall|i: int| 0 <= i < h ==> (#[trigger] st.row_snaps[i]).len() == w
    &&& st.col_snaps.len() == w
    &&& forall|j: int| 0 <= j < w ==> (#[trigger] st.col_snaps[j]).len() == h
    &&& forall|i: int, b: int|
        0 <= i < h && 0 <= b < w && !((#[trigger] st.row_snaps[i][b]) is Unknown)
            ==> st.grid[i][b] == st.row_snaps[i][b]
    &&& forall|j: int, a: int|
        0 <= j < w && 0 <= a < h && !((#[trigger] st.col_snaps[j][a]) is Unknown)
            ==> st.grid[a][j] == st.col_snaps[j][a]
}

/// One pass step on row `i`: skip a line with no surviving candidates, else
/// write its forced cells and re-snapshot it.
pub open spec fn prop_row_step(
    st: PropState,
    rows: Seq<Seq<int>>,
    cols: Seq<Seq<int>>,
    i: int,
) -> (PropState, bool) {
    let w = cols.len() as int;
    if !some_candidate(rows[i], st.row_snaps[i], w) {
        (st, false)
    } else {
        let newrow = forced_line(rows[i], st.row_snaps[i], st.grid[i], w);
        let st2 = PropState {
            grid: st.grid.update(i, newrow),
            row_snaps: st.row_snaps.update(i, newrow),
            col_snaps: st.col_snaps,
        };
        let ch = newrow != st.grid[i] || (exists|lv: Seq<CellState>|
            line_candidate(lv, rows[i], st.row_snaps[i], w) && !row_compatible(newrow, lv));
        (st2, ch)
    }
}

/// One pass step on column `j`, the mirror image of the row step.
pub open spec fn prop_col_step(
    st: PropState,
    rows: Seq<Seq<int>>,
    cols: Seq<Seq<int>>,
    j: int,
) -> (PropState, bool) {
    let h = rows.len() as int;
    if !some_candidate(cols[j], st.col_snaps[j], h) {
        (st, false)
    } else {
        let oldcol = col_cells(st.grid, j);
        let newcol = forced_line(cols[j], st.col_snaps[j], oldcol, h);
        let st2 = PropState {
            grid: Seq::new(st.grid.len(), |a: int| st.grid[a].update(j, newcol[a])),
            row_snaps: st.row_snaps,
            col_snaps: st.col_snaps.update(j, newcol),
        };
        let ch = newcol != oldcol || (exists|lv: Seq<CellState>|
            line_candidate(lv, cols[j], st.col_snaps[j], h) && !row_compatible(newcol, lv));
        (st2, ch)
    }
}

/// The pass steps applied to the first `i` rows, in order.
pub open spec fn prop_rows(st: PropState, rows: Seq<Seq<int>>, cols: Seq<Seq<int>>, i: int) -> (
    PropState,
    bool,
)
    decreases i,
{
    if i <= 0 {
        (st, false)
    } else {
        let r1 = prop_rows(st, rows, cols, i - 1);
        let r2 = prop_row_step(r1.0, rows, cols, i - 1);
        (r2.0, r1.1 || r2.1)
    }
}

/// The pass steps applied to the first `j` columns, in order.
pub open spec fn prop_cols(st: PropState, rows: Seq<Seq<int>>, cols: Seq<Seq<int>>, j: int) -> (
    PropState,
    bool,
)
    decreases j,
{
    if j <= 0 {
        (st, false)
    } else {
        let r1 = prop_cols(st, rows, cols, j - 1);
        let r2 = prop_col_step(r1.0, rows, cols, j - 1);
        (r2.0, r1.1 || r2.1)
    }
}

/// One full pass: every row in order, then every column in order, with a
/// flag saying whether anything changed.
pub open spec fn prop_pass(st: PropState, rows: Seq<Seq<int>>, cols: Seq<Seq<int>>) -> (
    PropState,
    bool,
) {
    let r1 = prop_rows(st, rows, cols, rows.len() as int);
    let r2 = prop_cols(r1.0, rows, cols, cols.len() as int);
    (r2.0, r1.1 || r2.1)
}

/// No cell of the grid is Unknown.
pub open spec fn grid_determined(v: Seq<Seq<CellState>>) -> bool {
    forall|i: int| 0 <= i < v.len() ==> determined(#[trigger] v[i])
}

/// Work the propagation can still do: Unknown cells of the grid and of
/// every snapshot.
pub open spec fn prop_measure(st: PropState) -> int {
    unknowns_grid(st.grid) + unknowns_grid(st.row_snaps) + unknowns_grid(st.col_snaps)
}

/// The knowledge grid the propagation ends on: passes repeat until the grid
/// is fully determined or a pass changes nothing.
pub open spec fn prop_limit(st: PropState, rows: Seq<Seq<int>>, cols: Seq<Seq<int>>) -> Seq<
    Seq<CellState>,
>
    decreases prop_measure(st),
    when prop_wf(st, rows, cols)
    via prop_limit_dec
{
    let r = prop_pass(st, rows, cols);
    if grid_determined(r.0.grid) {
        r.0.grid
    } else if !r.1 {
        r.0.grid
    } else {
        prop_limit(r.0, rows, cols)
    }
}

#[via_fn]
proof fn prop_limit_dec(st: PropState, rows: Seq<Seq<int>>, cols: Seq<Seq<int>>) {
    lemma_prop_pass_measure(st, rows, cols);
    lemma_unknowns_grid_nonneg(prop_pass(st, rows, cols).0.grid);
    lemma_unknowns_grid_nonneg(prop_pass(st, rows, cols).0.row_snaps);
    lemma_unknowns_grid_nonneg(prop_pass(st, rows, cols).0.col_snaps);
}

/// The propagation's starting state: an all-Unknown grid, with every line's
/// snapshot equally all-Unknown (so every valid line is still a candidate).
pub open spec fn initial_prop_state(rows: Seq<Seq<int>>, cols: Seq<Seq<int>>) -> PropState {
    let h = rows.len() as int;
    let w = cols.len() as int;
    PropState {
        grid: Seq::new(h as nat, |i: int| Seq::new(w as nat, |b: int| CellState::Unknown)),
        row_snaps: Seq::new(h as nat, |i: int| Seq::new(w as nat, |b: int| CellState::Unknown)),
        col_snaps: Seq::new(w as nat, |j: int| Seq::new(h as nat, |a: int| CellState::Unknown)),
    }
}

/// The grid knowledge that iterated line-local propagation reaches from
/// nothing, for the given row and column clues.
pub open spec fn propagation_fixpoint(rows: Seq<Seq<int>>, cols: Seq<Seq<int>>) -> Seq<
    Seq<CellState>,
> {
    prop_limit(initial_prop_state(rows, cols), rows, cols)
}

/// A line that only gains knowledge loses Unknown cells, strictly so when
/// some cell was actually determined.
proof fn lemma_unknowns_pointwise(r1: Seq<CellState>, r2: Seq<CellState>)
    requires
        r1.len() == r2.len(),
        forall|b: int| 0 <= b < r2.len() && (#[trigger] r2[b]) is Unknown ==> r1[b] is Unknown,
    ensures
        unknowns_row(r2) <= unknowns_row(r1),
        (exists|b: int| 0 <= b < r1.len() && (#[trigger] r1[b]) is Unknown && !(r2[b] is Unknown))
            ==> unknowns_row(r2) < unknowns_row(r1),
    decreases r1.len(),
{
    if r1.len() > 0 {
        let t1 = r1.drop_first();
        let t2 = r2.drop_first();
        assert(forall|b: int| 0 <= b < t2.len() ==> #[trigger] t2[b] == r2[b + 1]);
        assert(forall|b: int| 0 <= b < t1.len() ==> #[trigger] t1[b] == r1[b + 1]);
        lemma_unknowns_pointwise(t1, t2);
        if exists|b: int|
            0 <= b < r1.len() && (#[trigger] r1[b]) is Unknown && !(r2[b] is Unknown) {
            let b = choose|b: int|
                0 <= b < r1.len() && (#[trigger] r1[b]) is Unknown && !(r2[b] is Unknown);
            if b == 0 {
            } else {
                assert(t1[b - 1] is Unknown && !(t2[b - 1] is Unknown));
            }
        }
    }
}

/// The forcing step keeps every determined cell.
proof fn lemma_forced_line_keeps(
    clue: Seq<int>,
    snap: Seq<CellState>,
    row: Seq<CellState>,
    size: int,
)
    ensures
        forced_line(clue, snap, row, size).len() == row.len(),
        forall|b: int|
            0 <= b < row.len() && !((#[trigger] row[b]) is Unknown) ==> forced_line(
                clue,
                snap,
                row,
                size,
            )[b] == row[b],
        forall|b: int|
            0 <= b < row.len() && (#[trigger] forced_line(clue, snap, row, size)[b]) is Unknown
                ==> row[b] is Unknown,
{
}

/// A snapshot's determined cells survive the forcing of the line it
/// dominates.
proof fn lemma_forced_line_snap(
    clue: Seq<int>,
    snap: Seq<CellState>,
    row: Seq<CellState>,
    size: int,
)
    requires
        snap.len() == row.len(),
        forall|b: int|
            0 <= b < row.len() && !((#[trigger] snap[b]) is Unknown) ==> row[b] == snap[b],
    ensures
        forall|b: int|
            0 <= b < row.len() && !((#[trigger] snap[b]) is Unknown) ==> forced_line(
                clue,
                snap,
                row,
                size,
            )[b] == snap[b],
{
    lemma_forced_line_keeps(clue, snap, row, size);
}

/// One row step never creates work and strictly removes some when it
/// reports a change; it also preserves the state's well-formedness.
proof fn lemma_prop_row_step_measure(
    st: PropState,
    rows: Seq<Seq<int>>,
    cols: Seq<Seq<int>>,
    i: int,
)
    requires
        prop_wf(st, rows, cols),
        0 <= i < rows.len(),
    ensures
        prop_wf(prop_row_step(st, rows, cols, i).0, rows, cols),
        prop_measure(prop_row_step(st, rows, cols, i).0) <= prop_measure(st),
        prop_row_step(st, rows, cols, i).1 ==> prop_measure(prop_row_step(st, rows, cols, i).0)
            < prop_measure(st),
{
    let w = cols.len() as int;
    let r = prop_row_step(st, rows, cols, i);
    if some_candidate(rows[i], st.row_snaps[i], w) {
        let snap = st.row_snaps[i];
        let newrow = forced_line(rows[i], snap, st.grid[i], w);
        lemma_forced_line_keeps(rows[i], snap, st.grid[i], w);
        lemma_forced_line_snap(rows[i], snap, st.grid[i], w);
        lemma_unknowns_grid_update(st.grid, i, newrow);
        lemma_unknowns_grid_update(st.row_snaps, i, newrow);
        lemma_unknowns_pointwise(st.grid[i], newrow);
        lemma_unknowns_pointwise(snap, newrow);
        assert(forall|b: int|
            0 <= b < w && (#[trigger] newrow[b]) is Unknown ==> snap[b] is Unknown);
        assert(prop_wf(r.0, rows, cols)) by {
            assert(forall|a: int, b: int|
                0 <= a < rows.len() && 0 <= b < w && a != i ==> #[trigger] r.0.grid[a][b]
                    == st.grid[a][b]);
            assert forall|j: int, a: int|
                0 <= j < w && 0 <= a < rows.len() && !((#[trigger] r.0.col_snaps[j][a])
                    is Unknown) implies r.0.grid[a][j] == r.0.col_snaps[j][a] by {
                assert(st.col_snaps[j][a] == r.0.col_snaps[j][a]);
                assert(st.grid[a][j] == st.col_snaps[j][a]);
                if a == i {
                    assert(r.0.grid[i][j] == newrow[j]);
                    assert(newrow[j] == st.grid[i][j]);
                }
            }
        }
        if r.1 {
            if newrow != st.grid[i] {
                assert(exists|b: int|
                    0 <= b < st.grid[i].len() && (#[trigger] st.grid[i][b]) is Unknown && !(
                    newrow[b] is Unknown)) by {
                    assert(newrow.len() == st.grid[i].len());
                    if forall|b: int| 0 <= b < newrow.len() ==> #[trigger] newrow[b] == st.grid[i][b] {
                        assert(newrow =~= st.grid[i]);
                    }
                    let b = choose|b: int|
                        0 <= b < newrow.len() && #[trigger] newrow[b] != st.grid[i][b];
                    assert(st.grid[i][b] is Unknown && !(newrow[b] is Unknown));
                }
            } else {
                let lv = choose|lv: Seq<CellState>|
                    line_candidate(lv, rows[i], snap, w) && !row_compatible(newrow, lv);
                assert(exists|b: int|
                    0 <= b < snap.len() && (#[trigger] snap[b]) is Unknown && !(newrow[b]
                        is Unknown)) by {
                    let b = choose|b: int|
                        0 <= b < newrow.len() && b < lv.len() && !(#[trigger] newrow[b]
                            is Unknown) && newrow[b] != lv[b];
                    assert(row_compatible(snap, lv));
                    if !(snap[b] is Unknown) {
                        assert(newrow[b] == snap[b]);
                        assert(snap[b] == lv[b]);
                    }
                }
            }
        }
    }
}

/// One column step never creates work and strictly removes some when it
/// reports a change; it also preserves the state's well-formedness.
proof fn lemma_prop_col_step_measure(
    st: PropState,
    rows: Seq<Seq<int>>,
    cols: Seq<Seq<int>>,
    j: int,
)
    requires
        prop_wf(st, rows, cols),
        0 <= j < cols.len(),
    ensures
        prop_wf(prop_col_step(st, rows, cols, j).0, rows, cols),
        prop_measure(prop_col_step(st, rows, cols, j).0) <= prop_measure(st),
        prop_col_step(st, rows, cols, j).1 ==> prop_measure(prop_col_step(st, rows, cols, j).0)
            < prop_measure(st),
{
    let h = rows.len() as int;
    let r = prop_col_step(st, rows, cols, j);
    if some_candidate(cols[j], st.col_snaps[j], h) {
        let snap = st.col_snaps[j];
        let oldcol = col_cells(st.grid, j);
        let newcol = forced_line(cols[j], snap, oldcol, h);
        lemma_forced_line_keeps(cols[j], snap, oldcol, h);
        lemma_forced_line_snap(cols[j], snap, oldcol, h);
        lemma_unknowns_grid_update(st.col_snaps, j, newcol);
        lemma_unknowns_pointwise(snap, newcol);
        assert(forall|a: int|
            0 <= a < h && (#[trigger] newcol[a]) is Unknown ==> snap[a] is Unknown);
        // the grid changes one cell per row, in column `j` only
        assert forall|a: int| 0 <= a < h implies unknowns_row(#[trigger] r.0.grid[a])
            <= unknowns_row(st.grid[a]) && (!(newcol[a] == oldcol[a]) ==> unknowns_row(
            r.0.grid[a],
        ) < unknowns_row(st.grid[a])) by {
            assert(r.0.grid[a] == st.grid[a].update(j, newcol[a]));
            assert(forall|b: int|
                0 <= b < st.grid[a].len() && ((#[trigger] r.0.grid[a][b]) is Unknown)
                    ==> st.grid[a][b] is Unknown);
            lemma_unknowns_pointwise(st.grid[a], r.0.grid[a]);
            if !(newcol[a] == oldcol[a]) {
                assert(st.grid[a][j] is Unknown && !(r.0.grid[a][j] is Unknown));
            }
        }
        lemma_unknowns_grid_pointwise(st.grid, r.0.grid);
        assert(prop_wf(r.0, rows, cols)) by {
            assert(forall|a: int| 0 <= a < h ==> (#[trigger] r.0.grid[a]).len() == cols.len());
            assert forall|i2: int, b: int|
                0 <= i2 < h && 0 <= b < cols.len() && !((#[trigger] r.0.row_snaps[i2][b])
                    is Unknown) implies r.0.grid[i2][b] == r.0.row_snaps[i2][b] by {
                assert(st.grid[i2][b] == st.row_snaps[i2][b]);
                if b == j {
                    assert(r.0.grid[i2][j] == newcol[i2]);
                    assert(oldcol[i2] == st.grid[i2][j]);
                    assert(newcol[i2] == oldcol[i2]);
                }
            }
            assert forall|j2: int, a: int|
                0 <= j2 < cols.len() && 0 <= a < h && !((#[trigger] r.0.col_snaps[j2][a])
                    is Unknown) implies r.0.grid[a][j2] == r.0.col_snaps[j2][a] by {
                if j2 == j {
                    assert(r.0.col_snaps[j][a] == newcol[a]);
                    assert(r.0.grid[a][j] == newcol[a]);
                } else {
                    assert(r.0.col_snaps[j2][a] == st.col_snaps[j2][a]);
                    assert(st.grid[a][j2] == st.col_snaps[j2][a]);
                    assert(r.0.grid[a][j2] == st.grid[a][j2]);
                }
            }
        }
        if r.1 {
            if newcol != oldcol {
                if forall|a: int| 0 <= a < newcol.len() ==> #[trigger] newcol[a] == oldcol[a] {
                    assert(newcol =~= oldcol);
                }
                let a = choose|a: int|
                    0 <= a < newcol.len() && #[trigger] newcol[a] != oldcol[a];
                assert(unknowns_row(r.0.grid[a]) < unknowns_row(st.grid[a]));
                lemma_unknowns_grid_pointwise_strict(st.grid, r.0.grid, a);
            } else {
                let lv = choose|lv: Seq<CellState>|
                    line_candidate(lv, cols[j], snap, h) && !row_compatible(newcol, lv);
                assert(exists|a: int|
                    0 <= a < snap.len() && (#[trigger] snap[a]) is Unknown && !(newcol[a]
                        is Unknown)) by {
                    let a = choose|a: int|
                        0 <= a < newcol.len() && a < lv.len() && !(#[trigger] newcol[a]
                            is Unknown) && newcol[a] != lv[a];
                    assert(row_compatible(snap, lv));
                    if !(snap[a] is Unknown) {
                        assert(newcol[a] == snap[a]);
                        assert(snap[a] == lv[a]);
                    }
                }
            }
        }
    }
}

/// Row-wise dominance of whole grids, summed.
proof fn lemma_unknowns_grid_pointwise(g1: Seq<Seq<CellState>>, g2: Seq<Seq<CellState>>)
    requires
        g1.len() == g2.len(),
        forall|a: int| 0 <= a < g1.len() ==> unknowns_row(#[trigger] g2[a]) <= unknowns_row(g1[a]),
    ensures
        unknowns_grid(g2) <= unknowns_grid(g1),
    decreases g1.len(),
{
    if g1.len() > 0 {
        let t1 = g1.drop_first();
        let t2 = g2.drop_first();
        assert(forall|a: int| 0 <= a < t1.len() ==> #[trigger] t1[a] == g1[a + 1]);
        assert(forall|a: int| 0 <= a < t2.len() ==> #[trigger] t2[a] == g2[a + 1]);
        lemma_unknowns_grid_pointwise(t1, t2);
    }
}

/// As above, strictly, given one strictly shrinking row.
proof fn lemma_unknowns_grid_pointwise_strict(
    g1: Seq<Seq<CellState>>,
    g2: Seq<Seq<CellState>>,
    a0: int,
)
    requires
        g1.len() == g2.len(),
        forall|a: int| 0 <= a < g1.len() ==> unknowns_row(#[trigger] g2[a]) <= unknowns_row(g1[a]),
        0 <= a0 < g1.len(),
        unknowns_row(g2[a0]) < unknowns_row(g1[a0]),
    ensures
        unknowns_grid(g2) < unknowns_grid(g1),
    decreases g1.len(),
{
    let t1 = g1.drop_first();
    let t2 = g2.drop_first();
    assert(forall|a: int| 0 <= a < t1.len() ==> #[trigger] t1[a] == g1[a + 1]);
    assert(forall|a: int| 0 <= a < t2.len() ==> #[trigger] t2[a] == g2[a + 1]);
    if a0 == 0 {
        lemma_unknowns_grid_pointwise(t1, t2);
    } else {
        lemma_unknowns_grid_pointwise_strict(t1, t2, a0 - 1);
    }
}

/// The row phase never creates work; a reported change removes some.
proof fn lemma_prop_rows_measure(st: PropState, rows: Seq<Seq<int>>, cols: Seq<Seq<int>>, i: int)
    requires
        prop_wf(st, rows, cols),
        0 <= i <= rows.len(),
    ensures
        prop_wf(prop_rows(st, rows, cols, i).0, rows, cols),
        prop_measure(prop_rows(st, rows, cols, i).0) <= prop_measure(st),
        prop_rows(st, rows, cols, i).1 ==> prop_measure(prop_rows(st, rows, cols, i).0)
            < prop_measure(st),
    decreases i,
{
    if i > 0 {
        lemma_prop_rows_measure(st, rows, cols, i - 1);
        lemma_prop_row_step_measure(prop_rows(st, rows, cols, i - 1).0, rows, cols, i - 1);
    }
}

/// The column phase never creates work; a reported change removes some.
proof fn lemma_prop_cols_measure(st: PropState, rows: Seq<Seq<int>>, cols: Seq<Seq<int>>, j: int)
    requires
        prop_wf(st, rows, cols),
        0 <= j <= cols.len(),
    ensures
        prop_wf(prop_cols(st, rows, cols, j).0, rows, cols),
        prop_measure(prop_cols(st, rows, cols, j).0) <= prop_measure(st),
        prop_cols(st, rows, cols, j).1 ==> prop_measure(prop_cols(st, rows, cols, j).0)
            < prop_measure(st),
    decreases j,
{
    if j > 0 {
        lemma_prop_cols_measure(st, rows, cols, j - 1);
        lemma_prop_col_step_measure(prop_cols(st, rows, cols, j - 1).0, rows, cols, j - 1);
    }
}

/// A full pass never creates work and strictly removes some when it
/// reports a change.
pub proof fn lemma_prop_pass_measure(st: PropState, rows: Seq<Seq<int>>, cols: Seq<Seq<int>>)
    requires
        prop_wf(st, rows, cols),
    ensures
        prop_wf(prop_pass(st, rows, cols).0, rows, cols),
        prop_measure(prop_pass(st, rows, cols).0) <= prop_measure(st),
        prop_pass(st, rows, cols).1 ==> prop_measure(prop_pass(st, rows, cols).0)
            < prop_measure(st),
{
    lemma_prop_rows_measure(st, rows, cols, rows.len() as int);
    lemma_prop_cols_measure(prop_rows(st, rows, cols, rows.len() as int).0, rows, cols, cols.len() as int);
}

/// Every candidate view holds `v` at position `b`.
pub open spec fn views_force(views: Seq<Seq<CellState>>, b: int, v: CellState) -> bool {
    forall|t: int| 0 <= t < views.len() ==> (#[trigger] views[t])[b] == v
}

/// The row after writing every newly forced cell, over the candidate views.
pub open spec fn force_views(views: Seq<Seq<CellState>>, row: Seq<CellState>) -> Seq<CellState> {
    Seq::new(
        row.len(),
        |b: int|
            if row[b] is Unknown && views_force(views, b, CellState::Empty) {
                CellState::Empty
            } else if row[b] is Unknown && !views_force(views, b, CellState::Empty) && views_force(
                views,
                b,
                CellState::Filled,
            ) {
                CellState::Filled
            } else {
                row[b]
            },
    )
}

/// What sits in the intersection list: exactly one pair per position that
/// all candidates agree on, Empty before Filled, in index order.
proof fn lemma_common_spec_char(states: Seq<StateRow>, upto: int)
    requires
        0 <= upto <= usize::MAX,
    ensures
        forall|t1: int, t2: int|
            0 <= t1 < t2 < common_spec(states, upto).len() ==> (#[trigger] common_spec(
                states,
                upto,
            )[t1]).0 < (#[trigger] common_spec(states, upto)[t2]).0,
        forall|b: int|
            0 <= b < upto && forced_at(states, b, CellState::Empty) ==> exists|t: int|
                0 <= t < common_spec(states, upto).len() && #[trigger] common_spec(
                    states,
                    upto,
                )[t] == ((b as usize), CellState::Empty),
        forall|b: int|
            0 <= b < upto && !forced_at(states, b, CellState::Empty) && forced_at(
                states,
                b,
                CellState::Filled,
            ) ==> exists|t: int|
                0 <= t < common_spec(states, upto).len() && #[trigger] common_spec(
                    states,
                    upto,
                )[t] == ((b as usize), CellState::Filled),
        forall|t: int|
            0 <= t < common_spec(states, upto).len() ==> ((#[trigger] common_spec(
                states,
                upto,
            )[t]).1 == CellState::Empty ==> forced_at(
                states,
                common_spec(states, upto)[t].0 as int,
                CellState::Empty,
            )),
        forall|t: int|
            0 <= t < common_spec(states, upto).len() ==> ((#[trigger] common_spec(
                states,
                upto,
            )[t]).1 == CellState::Filled ==> forced_at(
                states,
                common_spec(states, upto)[t].0 as int,
                CellState::Filled,
            ) && !forced_at(states, common_spec(states, upto)[t].0 as int, CellState::Empty)),
        forall|t: int|
            0 <= t < common_spec(states, upto).len() ==> (#[trigger] common_spec(
                states,
                upto,
            )[t]).0 < upto && !((common_spec(states, upto)[t]).1 is Unknown),
    decreases upto,
{
    if upto > 0 {
        lemma_common_spec_char(states, upto - 1);
        let prev = common_spec(states, upto - 1);
        let cur = common_spec(states, upto);
        if forced_at(states, upto - 1, CellState::Empty) {
            assert(cur == prev.push((((upto - 1) as usize), CellState::Empty)));
            assert(cur[cur.len() - 1] == (((upto - 1) as usize), CellState::Empty));
            assert(cur[cur.len() - 1].0 as int == upto - 1);
            assert(forall|t: int| 0 <= t < prev.len() ==> #[trigger] cur[t] == prev[t]);
        } else if forced_at(states, upto - 1, CellState::Filled) {
            assert(cur == prev.push((((upto - 1) as usize), CellState::Filled)));
            assert(cur[cur.len() - 1] == (((upto - 1) as usize), CellState::Filled));
            assert(cur[cur.len() - 1].0 as int == upto - 1);
            assert(forall|t: int| 0 <= t < prev.len() ==> #[trigger] cur[t] == prev[t]);
        } else {
            assert(cur == prev);
        }
        assert forall|t1: int, t2: int| 0 <= t1 < t2 < cur.len() implies (#[trigger] cur[t1]).0 < (
        #[trigger] cur[t2]).0 by {
            if t2 < prev.len() {
                assert(cur[t1] == prev[t1] && cur[t2] == prev[t2]);
            } else {
                assert(cur[t1] == prev[t1]);
                assert(prev[t1].0 < upto - 1);
            }
        }
        assert forall|t: int|
            0 <= t < cur.len() implies ((#[trigger] cur[t]).1 == CellState::Filled ==> forced_at(
            states,
            cur[t].0 as int,
            CellState::Filled,
        ) && !forced_at(states, cur[t].0 as int, CellState::Empty)) by {
            if t < prev.len() {
                assert(cur[t] == prev[t]);
            }
        }
        assert forall|b: int|
            0 <= b < upto && forced_at(states, b, CellState::Empty) implies exists|t: int|
            0 <= t < cur.len() && #[trigger] cur[t] == ((b as usize), CellState::Empty) by {
            if b < upto - 1 {
                let t = choose|t: int|
                    0 <= t < prev.len() && #[trigger] prev[t] == ((b as usize), CellState::Empty);
                assert(cur[t] == ((b as usize), CellState::Empty));
            } else {
                assert(cur[cur.len() - 1] == ((b as usize), CellState::Empty));
            }
        }
        assert forall|b: int|
            0 <= b < upto && !forced_at(states, b, CellState::Empty) && forced_at(
                states,
                b,
                CellState::Filled,
            ) implies exists|t: int|
            0 <= t < cur.len() && #[trigger] cur[t] == ((b as usize), CellState::Filled) by {
            if b < upto - 1 {
                let t = choose|t: int|
                    0 <= t < prev.len() && #[trigger] prev[t] == ((b as usize), CellState::Filled);
                assert(cur[t] == ((b as usize), CellState::Filled));
            } else {
                assert(cur[cur.len() - 1] == ((b as usize), CellState::Filled));
            }
        }
    }
}

/// The candidate list holds exactly the candidates the snapshot admits.
pub open spec fn list_matches(
    cands: Seq<StateRow>,
    clue: Seq<int>,
    snap: Seq<CellState>,
    size: int,
) -> bool {
    forall|lv: Seq<CellState>|
        #![trigger holds_line(cands, lv)]
        #![trigger line_candidate(lv, clue, snap, size)]
        holds_line(cands, lv) <==> line_candidate(lv, clue, snap, size)
}

/// Dropping exactly the incompatible candidates shrinks the list exactly
/// when one was incompatible.
proof fn lemma_pruned_shrink(known: Seq<CellState>, views: Seq<Seq<CellState>>)
    ensures
        (pruned(known, views).len() < views.len()) == (exists|t: int|
            0 <= t < views.len() && !row_compatible(known, #[trigger] views[t])),
    decreases views.len(),
{
    if views.len() > 0 {
        lemma_pruned_shrink(known, views.drop_last());
        lemma_pruned_len(known, views.drop_last());
        if row_compatible(known, views.last()) {
            if pruned(known, views).len() < views.len() {
                let t = choose|t: int|
                    0 <= t < views.drop_last().len() && !row_compatible(
                        known,
                        #[trigger] views.drop_last()[t],
                    );
                assert(!row_compatible(known, views[t]));
            }
            if exists|t: int| 0 <= t < views.len() && !row_compatible(known, #[trigger] views[t]) {
                let t = choose|t: int|
                    0 <= t < views.len() && !row_compatible(known, #[trigger] views[t]);
                assert(t < views.len() - 1);
                assert(!row_compatible(known, views.drop_last()[t]));
            }
        } else {
            assert(!row_compatible(known, views[views.len() - 1]));
        }
    }
}

/// Through a matching list, the per-line operations of the pass mean
/// exactly what the spec-level pass states over the candidate set.
proof fn lemma_step_bridge(
    cands: Seq<StateRow>,
    clue: Seq<int>,
    snap: Seq<CellState>,
    size: int,
    row: Seq<CellState>,
)
    requires
        list_matches(cands, clue, snap, size),
    ensures
        (cands.len() > 0) == some_candidate(clue, snap, size),
        force_views(views_of(cands), row) == forced_line(clue, snap, row, size),
{
    assert(views_of(cands).len() == cands.len());
    if cands.len() > 0 {
        assert(holds_line(cands, cands[0]@)) by {
            assert((cands[0])@ == cands[0]@);
        }
        assert(line_candidate(cands[0]@, clue, snap, size));
    }
    if some_candidate(clue, snap, size) {
        let lv = choose|lv: Seq<CellState>| line_candidate(lv, clue, snap, size);
        assert(holds_line(cands, lv));
        let t = choose|t: int| 0 <= t < cands.len() && (#[trigger] cands[t])@ == lv;
        assert(cands.len() > 0);
    }
    assert forall|b: int, v: CellState|
        views_force(views_of(cands), b, v) == candidates_force(clue, snap, size, b, v) by {
        if views_force(views_of(cands), b, v) {
            assert forall|lv: Seq<CellState>|
                line_candidate(lv, clue, snap, size) implies lv[b] == v by {
                assert(holds_line(cands, lv));
                let t = choose|t: int| 0 <= t < cands.len() && (#[trigger] cands[t])@ == lv;
                assert(views_of(cands)[t] == lv);
            }
        }
        if candidates_force(clue, snap, size, b, v) {
            assert forall|t: int| 0 <= t < views_of(cands).len() implies (#[trigger] views_of(
                cands,
            )[t])[b] == v by {
                assert(views_of(cands)[t] == cands[t]@);
                assert(holds_line(cands, cands[t]@)) by {
                    assert((cands[t])@ == cands[t]@);
                }
                assert(line_candidate(cands[t]@, clue, snap, size));
            }
        }
    }
    assert(force_views(views_of(cands), row) =~= forced_line(clue, snap, row, size));
}

/// Through a matching list, the pruning against the freshly forced line
/// shrinks exactly when the spec-level step reports a candidate lost, and
/// the kept list matches the new snapshot.
proof fn lemma_prune_bridge(
    cands: Seq<StateRow>,
    clue: Seq<int>,
    snap: Seq<CellState>,
    size: int,
    newrow: Seq<CellState>,
)
    requires
        list_matches(cands, clue, snap, size),
        snap.len() == newrow.len(),
        forall|b: int|
            0 <= b < snap.len() && !((#[trigger] snap[b]) is Unknown) ==> newrow[b] == snap[b],
    ensures
        (pruned(newrow, views_of(cands)).len() < cands.len()) == (exists|lv: Seq<CellState>|
            #[trigger] line_candidate(lv, clue, snap, size) && !row_compatible(newrow, lv)),
        forall|lv: Seq<CellState>|
            ((exists|s: int|
                0 <= s < pruned(newrow, views_of(cands)).len() && #[trigger] pruned(
                    newrow,
                    views_of(cands),
                )[s] == lv) <==> line_candidate(lv, clue, newrow, size)),
{
    let views = views_of(cands);
    assert(views.len() == cands.len());
    lemma_pruned_shrink(newrow, views);
    lemma_pruned_elems(newrow, views);
    // a line that agrees with the refined knowledge agreed with the old
    assert forall|lv: Seq<CellState>|
        #[trigger] row_compatible(newrow, lv) implies row_compatible(snap, lv) by {
        assert forall|b: int|
            0 <= b < snap.len() && b < lv.len() implies (snap[b] is Unknown || snap[b]
                == lv[b]) by {
            if !(snap[b] is Unknown) {
                assert(newrow[b] == snap[b]);
            }
        }
    }
    assert forall|t: int|
        0 <= t < views.len() implies (row_compatible(newrow, #[trigger] views[t])
            == !(line_candidate(views[t], clue, snap, size) && !row_compatible(
            newrow,
            views[t],
        ))) by {
        assert(holds_line(cands, views[t])) by {
            assert(views[t] == cands[t]@);
            assert((cands[t])@ == cands[t]@);
        }
        assert(line_candidate(views[t], clue, snap, size));
    }
    if pruned(newrow, views).len() < cands.len() {
        let t = choose|t: int| 0 <= t < views.len() && !row_compatible(newrow, #[trigger] views[t]);
        assert(line_candidate(views[t], clue, snap, size) && !row_compatible(newrow, views[t]));
    }
    if exists|lv: Seq<CellState>|
        #[trigger] line_candidate(lv, clue, snap, size) && !row_compatible(newrow, lv) {
        let lv = choose|lv: Seq<CellState>|
            #[trigger] line_candidate(lv, clue, snap, size) && !row_compatible(newrow, lv);
        assert(holds_line(cands, lv));
        let t = choose|t: int| 0 <= t < cands.len() && (#[trigger] cands[t])@ == lv;
        assert(views[t] == lv);
        assert(!row_compatible(newrow, views[t]));
    }
    assert forall|lv: Seq<CellState>|
        ((exists|s: int|
            0 <= s < pruned(newrow, views).len() && #[trigger] pruned(newrow, views)[s] == lv)
            <==> line_candidate(lv, clue, newrow, size)) by {
        if exists|s: int|
            0 <= s < pruned(newrow, views).len() && #[trigger] pruned(newrow, views)[s] == lv {
            let s = choose|s: int|
                0 <= s < pruned(newrow, views).len() && #[trigger] pruned(newrow, views)[s] == lv;
            assert(row_compatible(newrow, lv));
            let t = choose|t: int| 0 <= t < views.len() && views[t] == pruned(newrow, views)[s];
            assert(holds_line(cands, lv)) by {
                assert(views[t] == cands[t]@);
            }
            assert(line_candidate(lv, clue, snap, size));
        }
        if line_candidate(lv, clue, newrow, size) {
            assert(row_compatible(snap, lv));
            assert(line_candidate(lv, clue, snap, size));
            assert(holds_line(cands, lv));
            let t = choose|t: int| 0 <= t < cands.len() && (#[trigger] cands[t])@ == lv;
            assert(views[t] == lv);
            lemma_pruned_keeps(newrow, views, t);
        }
    }
}

} // verus!
