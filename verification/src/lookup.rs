//! A memoization table for candidate counts, keyed by the free space of a
//! line and the number of gap segments in it.  It is headroom for callers
//! that want to reject lines whose candidate sets would be too large before
//! running the full enumeration; nothing in the crate populates it yet.

use vstd::prelude::*;

use crate::clues::{clue_fits, ints_of, isum};

verus! {

/// Smallest puzzle dimension the table is meant to cover.
pub const MIN_DIMENSION: usize = 3;

/// Largest puzzle dimension the table is meant to cover.
pub const MAX_DIMENSION: usize = 20;

/// The free space of a line and the number of gap segments in it.
#[derive(PartialEq, Eq, Structural, Copy, Clone, Debug)]
pub struct CombinationKey {
    pub spaces: usize,
    pub parts: usize,
}

/// Precomputed candidate counts, stored as an association list with one
/// entry per key.
pub struct PossibilitiesTable {
    pub entries: Vec<(CombinationKey, usize)>,
    pub min_dimension: usize,
    pub max_dimension: usize,
}

/// The count stored for a key, if any: the first entry with that key.
pub open spec fn lookup_count(
    entries: Seq<(CombinationKey, usize)>,
    key: CombinationKey,
) -> Option<usize>
    decreases entries.len(),
{
    if entries.len() == 0 {
        None
    } else if entries[0].0 == key {
        Some(entries[0].1)
    } else {
        lookup_count(entries.drop_first(), key)
    }
}

impl PossibilitiesTable {
    /// An empty table over the supported dimensions.
    pub fn new() -> (r: PossibilitiesTable)
        ensures
            r.entries@.len() == 0,
            r.min_dimension == MIN_DIMENSION,
            r.max_dimension == MAX_DIMENSION,
    {
        PossibilitiesTable {
            entries: Vec::new(),
            min_dimension: MIN_DIMENSION,
            max_dimension: MAX_DIMENSION,
        }
    }

    /// The memoized number of candidates for this clue in a line of `size`
    /// cells, if the table holds it.
    pub fn num_possible(&self, size: usize, clue: &[usize]) -> (r: Option<usize>)
        requires
            clue@.len() > 0,
            clue_fits(ints_of(clue@), size as int),
        ensures
            r == lookup_count(
                self.entries@,
                CombinationKey {
                    spaces: (size - (isum(ints_of(clue@)) + clue@.len() - 1)) as usize,
                    parts: (clue@.len() + 1) as usize,
                },
            ),
    {
        let cluev = Ghost(ints_of(clue@));
        let mut sum: usize = 0;
        let mut t: usize = 0;
        proof {
            assert(cluev@.skip(0) =~= cluev@);
            crate::clues::lemma_isum_lower(cluev@);
        }
        while t < clue.len()
            invariant
                t <= clue@.len(),
                cluev@ == ints_of(clue@),
                clue@.len() > 0,
                clue_fits(cluev@, size as int),
                sum + isum(cluev@.skip(t as int)) == isum(cluev@),
                sum <= isum(cluev@),
                isum(cluev@) + clue@.len() - 1 <= size,
            decreases clue@.len() - t,
        {
            proof {
                crate::clues::lemma_isum_skip(cluev@, t as int);
                crate::clues::lemma_skip_pos(cluev@, t as int + 1);
                crate::clues::lemma_isum_lower(cluev@.skip(t as int + 1));
                assert(cluev@.skip(t as int + 1).len() == cluev@.len() - t - 1);
                assert(cluev@[t as int] == clue@[t as int] as int);
            }
            sum = sum + clue[t];
            t = t + 1;
        }
        proof {
            assert(cluev@.skip(clue@.len() as int) =~= Seq::<int>::empty());
            crate::clues::lemma_isum_lower(cluev@);
        }
        proof {
            assert(sum == isum(cluev@));
            assert(2 * clue@.len() - 1 <= size);
        }
        let key = CombinationKey { spaces: size - (sum + (clue.len() - 1)), parts: clue.len() + 1 };
        proof {
            assert(key.spaces == (size - (isum(ints_of(clue@)) + clue@.len() - 1)) as usize);
            assert(key.parts == (clue@.len() + 1) as usize);
            assert(self.entries@.skip(0) =~= self.entries@);
        }
        let mut i: usize = 0;
        while i < self.entries.len()
            invariant
                i <= self.entries@.len(),
                key == (CombinationKey {
                    spaces: (size - (isum(ints_of(clue@)) + clue@.len() - 1)) as usize,
                    parts: (clue@.len() + 1) as usize,
                }),
                lookup_count(self.entries@, key) == lookup_count(
                    self.entries@.skip(i as int),
                    key,
                ),
            decreases self.entries@.len() - i,
        {
            let ghost rest = self.entries@.skip(i as int);
            proof {
                assert(rest.len() > 0);
                assert(rest[0] == self.entries@[i as int]);
                assert(rest.drop_first() =~= self.entries@.skip(i as int + 1));
            }
            let (k, count) = self.entries[i];
            if k == key {
                return Some(count);
            }
            i = i + 1;
        }
        proof {
            assert(self.entries@.skip(self.entries@.len() as int) =~= Seq::<
                (CombinationKey, usize),
            >::empty());
        }
        None
    }
}

} // verus!
