//! A nonogram (picture-logic) puzzle library.
//!
//! The heart of the crate is a line-based constraint-propagation solver:
//! an enumerator for the candidate states of a single line, per-line
//! intersection and pruning rules, and a grid-wide fixpoint loop that
//! tightens knowledge about the grid until it is fully determined or no
//! further deduction is possible.  Around it sits a thin puzzle model:
//! random generation, a checksum, and a JSON persistence format.

use vstd::prelude::*;

use ndarray_rand::RandomExt;

pub mod clues;
pub mod codec;
pub mod lookup;
pub mod solution;
pub mod state;
pub mod state_grid;
pub mod state_row;

use crate::clues::{bit_row, build_clue, clue_fits, clue_of, ints_of};
use crate::solution::{clues_of, grid_matches};

verus! {

/// Relies on ndarray-rand's `RandomExt::random` with rand's
/// `Uniform::new_inclusive(0, 1)`: a freshly sampled matrix of the given
/// shape whose entries all lie in `{0, 1}`.  Which entries are set is up
/// to the thread's random number generator, so nothing more is promised.
#[verifier::external_body]
fn random_binary_grid(height: usize, width: usize) -> (r: Vec<Vec<u8>>)
    requires
        height as int * width as int <= 0x7fff_ffff_ffff_ffff,
    ensures
        r@.len() == height,
        forall|i: int| 0 <= i < height ==> (#[trigger] r@[i])@.len() == width,
        forall|i: int, j: int|
            0 <= i < height && 0 <= j < width ==> #[trigger] r@[i]@[j] == 0 || r@[i]@[j] == 1,
{
    let grid = ndarray::Array2::<u8>::random(
        (height, width),
        rand::distributions::Uniform::new_inclusive(0u8, 1u8),
    );
    grid.outer_iter().map(|row| row.to_vec()).collect()
}

/// The name of the checksum an outside library computes for us: the
/// CRC-64/ECMA digest of a byte string.
pub uninterp spec fn crc64_ecma(data: Seq<u8>) -> u64;

/// Relies on crc's `crc64::checksum_ecma`: the digest depends on the bytes
/// alone.
#[verifier::external_body]
fn checksum_of_bytes(data: &Vec<u8>) -> (r: u64)
    ensures
        r == crc64_ecma(data@),
{
    crc::crc64::checksum_ecma(data.as_slice())
}

/// Column `j` of a binary grid, read as a binary line.
pub open spec fn col_bits(g: Seq<Vec<u8>>, j: int) -> Seq<bool> {
    Seq::new(g.len(), |i: int| g[i]@[j] != 0)
}

/// The grid's cells in row-major order.
pub open spec fn flat_cells(g: Seq<Vec<u8>>) -> Seq<u8>
    decreases g.len(),
{
    if g.len() == 0 {
        Seq::empty()
    } else {
        flat_cells(g.drop_last()) + g.last()@
    }
}

/// The clues of every row of a binary grid.
fn build_row_clues(grid: &Vec<Vec<u8>>) -> (r: Vec<Vec<usize>>)
    ensures
        r@.len() == grid@.len(),
        forall|i: int|
            0 <= i < r@.len() ==> ints_of((#[trigger] r@[i])@) == clue_of(bit_row(grid@[i]@)),
{
    let mut r: Vec<Vec<usize>> = Vec::new();
    let mut i: usize = 0;
    while i < grid.len()
        invariant
            i <= grid@.len(),
            r@.len() == i,
            forall|k: int|
                0 <= k < i ==> ints_of((#[trigger] r@[k])@) == clue_of(bit_row(grid@[k]@)),
        decreases grid@.len() - i,
    {
        r.push(build_clue(&grid[i]));
        i = i + 1;
    }
    r
}

/// The clues of every column of a rectangular binary grid.
fn build_column_clues(grid: &Vec<Vec<u8>>, width: usize) -> (r: Vec<Vec<usize>>)
    requires
        forall|i: int| 0 <= i < grid@.len() ==> (#[trigger] grid@[i])@.len() == width,
    ensures
        r@.len() == width,
        forall|j: int|
            0 <= j < width ==> ints_of((#[trigger] r@[j])@) == clue_of(col_bits(grid@, j)),
{
    let mut r: Vec<Vec<usize>> = Vec::new();
    let mut j: usize = 0;
    while j < width
        invariant
            j <= width,
            r@.len() == j,
            forall|i: int| 0 <= i < grid@.len() ==> (#[trigger] grid@[i])@.len() == width,
            forall|k: int|
                0 <= k < j ==> ints_of((#[trigger] r@[k])@) == clue_of(col_bits(grid@, k)),
        decreases width - j,
    {
        let mut column: Vec<u8> = Vec::new();
        let mut i: usize = 0;
        while i < grid.len()
            invariant
                i <= grid@.len(),
                j < width,
                forall|k: int| 0 <= k < grid@.len() ==> (#[trigger] grid@[k])@.len() == width,
                column@.len() == i,
                forall|k: int| 0 <= k < i ==> column@[k] == grid@[k]@[j as int],
            decreases grid@.len() - i,
        {
            column.push(grid[i][j]);
            i = i + 1;
        }
        proof {
            assert(bit_row(column@) =~= col_bits(grid@, j as int));
        }
        r.push(build_clue(&column));
        j = j + 1;
    }
    r
}

/// A nonogram puzzle: a ground-truth binary grid together with the row and
/// column clues it derives.
#[derive(Debug, Clone)]
pub struct Nonogram {
    pub row_segments: Vec<Vec<usize>>,
    pub column_segments: Vec<Vec<usize>>,
    pub completed_grid: Vec<Vec<u8>>,
}

impl Nonogram {
    /// The number of rows of the grid.
    pub open spec fn spec_height(self) -> int {
        self.completed_grid@.len() as int
    }

    /// The number of columns of the grid.
    pub open spec fn spec_width(self) -> int {
        if self.completed_grid@.len() == 0 {
            0
        } else {
            self.completed_grid@[0]@.len() as int
        }
    }

    /// The grid is rectangular with binary cells.
    pub open spec fn grid_wf(self) -> bool {
        &&& forall|i: int|
            0 <= i < self.completed_grid@.len() ==> (#[trigger] self.completed_grid@[i])@.len()
                == self.spec_width()
        &&& forall|i: int, j: int|
            0 <= i < self.spec_height() && 0 <= j < self.spec_width()
                ==> #[trigger] self.completed_grid@[i]@[j] == 0 || self.completed_grid@[i]@[j] == 1
    }

    /// The stored clues are exactly the clues the grid derives.
    pub open spec fn clues_wf(self) -> bool {
        &&& self.row_segments@.len() == self.spec_height()
        &&& forall|i: int|
            0 <= i < self.spec_height() ==> ints_of((#[trigger] self.row_segments@[i])@)
                == clue_of(bit_row(self.completed_grid@[i]@))
        &&& self.column_segments@.len() == self.spec_width()
        &&& forall|j: int|
            0 <= j < self.spec_width() ==> ints_of((#[trigger] self.column_segments@[j])@)
                == clue_of(col_bits(self.completed_grid@, j))
    }

    /// Every stored clue can be laid out in its line.
    pub open spec fn clues_fit(self) -> bool {
        &&& forall|i: int|
            0 <= i < self.row_segments@.len() ==> clue_fits(
                #[trigger] clues_of(self.row_segments@)[i],
                self.column_segments@.len() as int,
            )
        &&& forall|j: int|
            0 <= j < self.column_segments@.len() ==> clue_fits(
                #[trigger] clues_of(self.column_segments@)[j],
                self.row_segments@.len() as int,
            )
    }

    /// Generates a random nonogram with the given dimensions.
    ///
    /// The generated puzzle is not checked for solvability.
    pub fn generate(width: usize, height: usize) -> (p: Nonogram)
        requires
            height as int * width as int <= 0x7fff_ffff_ffff_ffff,
        ensures
            p.spec_height() == height,
            height > 0 ==> p.spec_width() == width,
            p.grid_wf(),
            height > 0 ==> p.clues_wf(),
            p.row_segments@.len() == height,
            forall|i: int|
                0 <= i < height ==> ints_of((#[trigger] p.row_segments@[i])@) == clue_of(
                    bit_row(p.completed_grid@[i]@),
                ),
            p.column_segments@.len() == width,
            forall|j: int|
                0 <= j < width ==> ints_of((#[trigger] p.column_segments@[j])@) == clue_of(
                    col_bits(p.completed_grid@, j),
                ),
    {
        let completed_grid = random_binary_grid(height, width);
        let row_segments = build_row_clues(&completed_grid);
        let column_segments = build_column_clues(&completed_grid, width);
        Nonogram { row_segments, column_segments, completed_grid }
    }

    /// Provides the height of the puzzle.
    pub fn height(&self) -> (r: usize)
        ensures
            r == self.spec_height(),
    {
        self.completed_grid.len()
    }

    /// Provides the width of the puzzle.
    pub fn width(&self) -> (r: usize)
        ensures
            r == self.spec_width(),
    {
        if self.completed_grid.len() == 0 {
            0
        } else {
            self.completed_grid[0].len()
        }
    }

    /// Determines whether or not the puzzle is solvable.
    ///
    /// This method attempts to programmatically solve the puzzle by pure
    /// line-local deduction.  It returns true exactly when iterated
    /// propagation over the clues — repeatedly writing every cell all of a
    /// line's surviving candidates agree on and pruning candidates against
    /// the known cells, until a pass changes nothing — fully determines the
    /// grid; in that case the clues admit at most one solution.  If it
    /// reaches a dead-end instead, the method returns false.
    pub fn solvable(&self) -> (r: bool)
        requires
            self.clues_fit(),
        ensures
            r ==> forall|g1: Seq<Seq<bool>>, g2: Seq<Seq<bool>>|
                grid_matches(g1, clues_of(self.row_segments@), clues_of(self.column_segments@))
                    && grid_matches(
                    g2,
                    clues_of(self.row_segments@),
                    clues_of(self.column_segments@),
                ) ==> g1 =~~= g2,
            r == crate::solution::grid_determined(
                crate::solution::propagation_fixpoint(
                    clues_of(self.row_segments@),
                    clues_of(self.column_segments@),
                ),
            ),
    {
        crate::solution::has_single_solution(&self.row_segments, &self.column_segments)
    }

    /// Generates a checksum for quickly determining equivalence between
    /// puzzles of like dimensions: the CRC-64/ECMA digest of the grid's
    /// cells in row-major order.
    ///
    /// This is *not* meant to check equivalence between all puzzles, only
    /// those with the same dimensions.
    pub fn generate_checksum(&self) -> (r: u64)
        ensures
            r == crc64_ecma(flat_cells(self.completed_grid@)),
    {
        let mut aggregate: Vec<u8> = Vec::new();
        let mut i: usize = 0;
        proof {
            assert(aggregate@ =~= flat_cells(self.completed_grid@.take(0)));
        }
        while i < self.completed_grid.len()
            invariant
                i <= self.completed_grid@.len(),
                aggregate@ == flat_cells(self.completed_grid@.take(i as int)),
            decreases self.completed_grid@.len() - i,
        {
            let row = &self.completed_grid[i];
            let mut j: usize = 0;
            while j < row.len()
                invariant
                    i < self.completed_grid@.len(),
                    row == self.completed_grid@[i as int],
                    j <= row@.len(),
                    aggregate@ == flat_cells(self.completed_grid@.take(i as int)) + row@.take(
                        j as int,
                    ),
                decreases row@.len() - j,
            {
                aggregate.push(row[j]);
                proof {
                    assert(aggregate@ =~= flat_cells(self.completed_grid@.take(i as int))
                        + row@.take(j as int + 1));
                }
                j = j + 1;
            }
            proof {
                let t = self.completed_grid@.take(i as int + 1);
                assert(t.drop_last() =~= self.completed_grid@.take(i as int));
                assert(t.last() == self.completed_grid@[i as int]);
                assert(row@.take(row@.len() as int) =~= row@);
                assert(aggregate@ =~= flat_cells(self.completed_grid@.take(i as int + 1)));
            }
            i = i + 1;
        }
        proof {
            assert(self.completed_grid@.take(self.completed_grid@.len() as int)
                =~= self.completed_grid@);
        }
        checksum_of_bytes(&aggregate)
    }

    /// Serializes the nonogram as its canonical JSON document.
    pub fn as_json(&self) -> (r: String)
        ensures
            r@ == crate::codec::doc_of(
                crc64_ecma(flat_cells(self.completed_grid@)) as int,
                self.spec_height(),
                self.spec_width(),
                clues_of(self.row_segments@),
                clues_of(self.column_segments@),
                crate::codec::grid_ints(self.completed_grid@),
            ),
    {
        let checksum = self.generate_checksum();
        let height = self.height();
        let width = self.width();
        crate::codec::encode_document(
            checksum,
            height,
            width,
            &self.row_segments,
            &self.column_segments,
            &self.completed_grid,
        )
    }

    /// Reads a puzzle back from its canonical JSON document.
    ///
    /// Malformed documents are parse errors; a well-formed document whose
    /// grid does not form a height by width matrix is a shape error.  The
    /// stored clues and checksum are taken from the document as they stand,
    /// not re-derived from the grid.
    pub fn from_json(serialized: &str) -> (r: Result<Nonogram, String>)
        ensures
            r matches Ok(q) ==> crate::codec::sound_decode(serialized@, q),
            crate::codec::decode_accepts(serialized@, r),
    {
        crate::codec::decode_document(serialized)
    }

    /// Two puzzles count as the same when their dimensions and checksums
    /// agree.
    pub open spec fn same_puzzle(self, other: Nonogram) -> bool {
        &&& self.spec_height() == other.spec_height()
        &&& self.spec_width() == other.spec_width()
        &&& crc64_ecma(flat_cells(self.completed_grid@)) == crc64_ecma(
            flat_cells(other.completed_grid@),
        )
    }
}

/// Clues that were derived from an actual grid can always be laid out in
/// their lines: a run list of a line of length `n` always fits in `n`
/// cells.  In particular a generated puzzle always meets `solvable`'s
/// precondition.
pub proof fn lemma_derived_clues_fit(p: Nonogram)
    requires
        p.grid_wf(),
        p.clues_wf(),
    ensures
        p.clues_fit(),
{
    assert forall|i: int| 0 <= i < p.row_segments@.len() implies clue_fits(
        #[trigger] clues_of(p.row_segments@)[i],
        p.column_segments@.len() as int,
    ) by {
        let bits = bit_row(p.completed_grid@[i]@);
        assert(clues_of(p.row_segments@)[i] == ints_of(p.row_segments@[i]@));
        assert(ints_of(p.row_segments@[i]@) == clue_of(bits));
        crate::clues::lemma_clue_pos(bits);
        crate::clues::lemma_clue_fit(bits);
        assert(bits.len() == p.spec_width());
    }
    assert forall|j: int| 0 <= j < p.column_segments@.len() implies clue_fits(
        #[trigger] clues_of(p.column_segments@)[j],
        p.row_segments@.len() as int,
    ) by {
        let bits = col_bits(p.completed_grid@, j);
        assert(clues_of(p.column_segments@)[j] == ints_of(p.column_segments@[j]@));
        assert(ints_of(p.column_segments@[j]@) == clue_of(bits));
        crate::clues::lemma_clue_pos(bits);
        crate::clues::lemma_clue_fit(bits);
        assert(bits.len() == p.spec_height());
    }
}

impl PartialEq for Nonogram {
    fn eq(&self, other: &Nonogram) -> (r: bool)
        ensures
            r == self.same_puzzle(*other),
    {
        self.height() == other.height() && self.width() == other.width()
            && self.generate_checksum() == other.generate_checksum()
    }
}

impl vstd::std_specs::cmp::PartialEqSpecImpl for Nonogram {
    open spec fn obeys_eq_spec() -> bool {
        true
    }

    open spec fn eq_spec(&self, other: &Nonogram) -> bool {
        self.same_puzzle(*other)
    }
}

impl Eq for Nonogram {

}

impl core::hash::Hash for Nonogram {
    /// Relies on std's `Hasher`: hashes the same (height, width, checksum)
    /// triple that `eq` compares, so equal puzzles hash alike.
    #[verifier::external_body]
    fn hash<H: core::hash::Hasher>(&self, state: &mut H) {
        self.height().hash(state);
        self.width().hash(state);
        self.generate_checksum().hash(state);
    }
}

} // verus!
