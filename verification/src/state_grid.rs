//! The grid store: a bounds-checked two-dimensional store of tri-state
//! cells with row and column snapshots and a global completion check.
//!
//! Writes to out-of-range positions are silent no-ops by design, not
//! errors; callers needing strict bounds checking must validate indices
//! before calling.

use vstd::prelude::*;

use crate::solution::{determined, CellState};
use crate::state_row::StateRow;

verus! {

pub struct StateGrid {
    pub height: usize,
    pub width: usize,
    pub cells: Vec<Vec<CellState>>,
}

impl View for StateGrid {
    type V = Seq<Seq<CellState>>;

    open spec fn view(&self) -> Seq<Seq<CellState>> {
        self.cells@.map_values(|r: Vec<CellState>| r@)
    }
}

impl StateGrid {
    /// The stored cells form a `height` by `width` rectangle.
    pub open spec fn wf(&self) -> bool {
        &&& self@.len() == self.height
        &&& forall|i: int| 0 <= i < self@.len() ==> (#[trigger] self@[i]).len() == self.width
    }

    /// A grid of the given dimensions with every cell Unknown.
    pub fn new(height: usize, width: usize) -> (g: StateGrid)
        ensures
            g.wf(),
            g.height == height,
            g.width == width,
            forall|i: int, j: int|
                0 <= i < height && 0 <= j < width ==> #[trigger] g@[i][j] is Unknown,
    {
        let mut cells: Vec<Vec<CellState>> = Vec::new();
        let mut i: usize = 0;
        while i < height
            invariant
                i <= height,
                cells@.len() == i,
                forall|a: int|
                    0 <= a < i ==> (#[trigger] cells@[a])@.len() == width && forall|b: int|
                        0 <= b < width ==> cells@[a]@[b] is Unknown,
            decreases height - i,
        {
            let mut row: Vec<CellState> = Vec::new();
            let mut j: usize = 0;
            while j < width
                invariant
                    j <= width,
                    row@.len() == j,
                    forall|b: int| 0 <= b < j ==> row@[b] is Unknown,
                decreases width - j,
            {
                row.push(CellState::Unknown);
                j = j + 1;
            }
            cells.push(row);
            i = i + 1;
        }
        StateGrid { height, width, cells }
    }

    /// Writes the cell when the position is in range, and silently does
    /// nothing when it is not.
    pub fn set(&mut self, i: usize, j: usize, state: CellState)
        requires
            old(self).wf(),
        ensures
            final(self).wf(),
            final(self).height == old(self).height,
            final(self).width == old(self).width,
            i < old(self).height && j < old(self).width ==> forall|a: int, b: int|
                0 <= a < old(self)@.len() && 0 <= b < old(self)@[a].len()
                    ==> #[trigger] final(self)@[a][b] == (if a == i && b == j {
                    state
                } else {
                    old(self)@[a][b]
                }),
            !(i < old(self).height && j < old(self).width) ==> final(self)@ == old(self)@,
    {
        if i < self.height && j < self.width {
            proof {
                assert(self.cells@[i as int]@ == self@[i as int]);
            }
            self.cells[i][j] = state;
            proof {
                assert(forall|a: int|
                    0 <= a < self@.len() && a != i ==> self@[a] == old(self)@[a]);
            }
        }
    }

    /// The cell at the position, or nothing when it is out of range.
    pub fn get(&self, i: usize, j: usize) -> (r: Option<CellState>)
        requires
            self.wf(),
        ensures
            r == if i < self.height && j < self.width {
                Some(self@[i as int][j as int])
            } else {
                None::<CellState>
            },
    {
        if i < self.height && j < self.width {
            proof {
                assert(self.cells@[i as int]@ == self@[i as int]);
            }
            Some(self.cells[i][j])
        } else {
            None
        }
    }

    /// A snapshot of row `i`.
    pub fn get_row(&self, i: usize) -> (r: StateRow)
        requires
            self.wf(),
            i < self.height,
        ensures
            r@ == self@[i as int],
    {
        let mut cells: Vec<CellState> = Vec::new();
        let mut j: usize = 0;
        while j < self.width
            invariant
                self.wf(),
                i < self.height,
                j <= self.width,
                cells@ =~= self@[i as int].take(j as int),
            decreases self.width - j,
        {
            cells.push(self.cells[i][j]);
            j = j + 1;
        }
        proof {
            assert(cells@ =~= self@[i as int]);
        }
        StateRow(cells)
    }

    /// A snapshot of column `j`.
    pub fn get_column(&self, j: usize) -> (r: StateRow)
        requires
            self.wf(),
            j < self.width,
        ensures
            r@.len() == self.height,
            forall|i: int| 0 <= i < self.height ==> #[trigger] r@[i] == self@[i][j as int],
    {
        let mut cells: Vec<CellState> = Vec::new();
        let mut i: usize = 0;
        while i < self.height
            invariant
                self.wf(),
                j < self.width,
                i <= self.height,
                cells@.len() == i,
                forall|a: int| 0 <= a < i ==> #[trigger] cells@[a] == self@[a][j as int],
            decreases self.height - i,
        {
            proof {
                assert(self.cells@[i as int]@ == self@[i as int]);
            }
            cells.push(self.cells[i][j]);
            i = i + 1;
        }
        StateRow(cells)
    }

    /// True iff no cell anywhere in the grid is Unknown.
    pub fn is_known(&self) -> (r: bool)
        requires
            self.wf(),
        ensures
            r == forall|i: int| 0 <= i < self@.len() ==> determined(#[trigger] self@[i]),
    {
        let mut i: usize = 0;
        while i < self.height
            invariant
                self.wf(),
                i <= self.height,
                forall|a: int| 0 <= a < i ==> determined(#[trigger] self@[a]),
            decreases self.height - i,
        {
            let mut j: usize = 0;
            while j < self.width
                invariant
                    self.wf(),
                    i < self.height,
                    j <= self.width,
                    forall|b: int| 0 <= b < j ==> !(#[trigger] self@[i as int][b] is Unknown),
                decreases self.width - j,
            {
                if matches!(self.cells[i][j], CellState::Unknown) {
                    return false;
                }
                j = j + 1;
            }
            i = i + 1;
        }
        true
    }
}

} // verus!
