//! Finding the cells that are next in line: the uncollapsed cells with the
//! fewest candidates.

use rand::rngs::StdRng;
use vstd::prelude::*;
use crate::candidates::{lemma_filter_members, lemma_filter_take_next};
use crate::error::WfcError;
use crate::grid::{Grid, GridView};
use crate::random::random_below;

verus! {

impl GridView {
    /// Whether the cell at position `i` is uncollapsed and no uncollapsed
    /// cell has fewer candidates.
    pub open spec fn is_lowest(self, i: int) -> bool {
        &&& 0 <= i < self.cells.len()
        &&& !self.cells[i].collapsed
        &&& forall|j: int|
            0 <= j < self.cells.len() && !(#[trigger] self.cells[j]).collapsed
                ==> self.cells[i].candidates.len() <= self.cells[j].candidates.len()
    }

    /// [`GridView::is_lowest`] as a predicate on positions.
    pub open spec fn lowest(self) -> spec_fn(int) -> bool {
        |i: int| self.is_lowest(i)
    }

    /// The positions of the uncollapsed cells with the fewest candidates,
    /// in rising order.
    pub open spec fn lowest_positions(self) -> Seq<int> {
        Seq::new(self.cells.len(), |i: int| i).filter(self.lowest())
    }

    /// Whether the cell at (`row`, `col`) is uncollapsed and no uncollapsed
    /// cell has fewer candidates.
    pub open spec fn lowest_at(self, row: int, col: int) -> bool {
        self.in_bounds(row, col) && self.is_lowest(self.index(row, col))
    }
}

/// The positions as mathematical integers.
pub open spec fn as_ints(positions: Seq<usize>) -> Seq<int> {
    positions.map_values(|i: usize| i as int)
}

/// The list of lowest positions holds exactly the lowest positions, and it
/// is empty exactly when every cell is collapsed.
pub proof fn lemma_lowest_positions(g: GridView)
    ensures
        forall|i: int| #[trigger] g.lowest_positions().contains(i) <==> g.is_lowest(i),
        g.lowest_positions().len() == 0 ==> g.is_complete(),
        g.is_complete() ==> g.lowest_positions().len() == 0,
{
    let all = Seq::new(g.cells.len(), |i: int| i);
    lemma_filter_members(all, g.lowest());
    assert forall|i: int| #[trigger] g.lowest_positions().contains(i) <==> g.is_lowest(i) by {
        if g.is_lowest(i) {
            assert(all[i] == i);
            assert(all.contains(i));
        }
    }
    if g.is_complete() {
        if g.lowest_positions().len() > 0 {
            let i = g.lowest_positions()[0];
            assert(g.lowest_positions().contains(i));
            assert(g.is_lowest(i));
        }
    } else {
        let len = g.cells.len() as int;
        lemma_minimum_exists(g, len);
        let w = choose|w: int| lowest_among(g, w, len);
        assert(g.is_lowest(w));
        assert(g.lowest_positions().contains(w));
    }
}

/// Whether the cell at position `w` is uncollapsed and has no more
/// candidates than any uncollapsed cell among the first `k`.
pub open spec fn lowest_among(g: GridView, w: int, k: int) -> bool {
    &&& 0 <= w < k
    &&& !g.cells[w].collapsed
    &&& forall|j: int|
        0 <= j < k && !(#[trigger] g.cells[j]).collapsed ==> g.cells[w].candidates.len()
            <= g.cells[j].candidates.len()
}

/// Among the first `k` cells, if one is uncollapsed then one of the
/// uncollapsed has the fewest candidates.
pub proof fn lemma_minimum_exists(g: GridView, k: int)
    requires
        0 <= k <= g.cells.len(),
    ensures
        (exists|j: int| 0 <= j < k && !(#[trigger] g.cells[j]).collapsed) ==> exists|w: int|
            lowest_among(g, w, k),
    decreases k,
{
    if k > 0 {
        let before = k - 1;
        lemma_minimum_exists(g, before);
        if exists|j: int| 0 <= j < before && !(#[trigger] g.cells[j]).collapsed {
            let w = choose|w: int| lowest_among(g, w, before);
            if !g.cells[k - 1].collapsed && g.cells[k - 1].candidates.len()
                < g.cells[w].candidates.len() {
                assert(lowest_among(g, k - 1, k));
            } else {
                assert(lowest_among(g, w, k));
            }
        } else if !g.cells[k - 1].collapsed {
            assert(lowest_among(g, k - 1, k));
        }
    }
}

impl Grid {
    /// The smallest number of candidates that an uncollapsed cell has, if
    /// any cell is uncollapsed.
    pub fn lowest_entropy(&self) -> (r: Option<usize>)
        requires
            self.wf(),
        ensures
            r is None <==> self@.is_complete(),
            r matches Some(m) ==> exists|w: int|
                self@.is_lowest(w) && self@.cells[w].candidates.len() == m,
    {
        let len: usize = self.cell_count();
        let mut lowest: Option<usize> = None;
        let ghost mut at: int = 0;
        let mut i: usize = 0;
        while i < len
            invariant
                self.wf(),
                len == self@.cells.len(),
                0 <= i <= len,
                lowest is None ==> forall|j: int|
                    0 <= j < i ==> (#[trigger] self@.cells[j]).collapsed,
                lowest matches Some(m) ==> lowest_among(self@, at, i as int)
                    && self@.cells[at].candidates.len() == m,
            decreases len - i,
        {
            let cell = self.cell_at(i);
            if !cell.collapsed {
                let count: usize = cell.candidates.len();
                match lowest {
                    Some(m) => {
                        if count < m {
                            lowest = Some(count);
                            proof {
                                at = i as int;
                            }
                        }
                    },
                    None => {
                        lowest = Some(count);
                        proof {
                            at = i as int;
                        }
                    },
                }
            }
            i += 1;
        }
        proof {
            if lowest is Some {
                assert(self@.is_lowest(at));
                assert(!self@.cells[at].collapsed);
            }
        }
        lowest
    }

    /// The positions of the uncollapsed cells with the fewest candidates,
    /// in rising order.  These are the cells that may be collapsed next.
    pub fn low_entropy_cells(&self) -> (r: Vec<usize>)
        requires
            self.wf(),
        ensures
            as_ints(r@) == self@.lowest_positions(),
            forall|k: int| 0 <= k < r@.len() ==> self@.is_lowest(#[trigger] r@[k] as int),
            r@.len() == 0 <==> self@.is_complete(),
    {
        let len: usize = self.cell_count();
        let mut out: Vec<usize> = Vec::new();
        let ghost all = Seq::new(self@.cells.len(), |i: int| i);
        proof {
            lemma_lowest_positions(self@);
        }
        match self.lowest_entropy() {
            None => {
                proof {
                    assert(as_ints(out@) =~= self@.lowest_positions());
                }
            },
            Some(m) => {
                let ghost w = choose|w: int|
                    self@.is_lowest(w) && self@.cells[w].candidates.len() == m;
                let mut i: usize = 0;
                proof {
                    reveal(Seq::filter);
                    assert(all.take(0).filter(self@.lowest()) =~= as_ints(out@));
                }
                while i < len
                    invariant
                        self.wf(),
                        len == self@.cells.len(),
                        0 <= i <= len,
                        all == Seq::new(self@.cells.len(), |i: int| i),
                        self@.is_lowest(w),
                        self@.cells[w].candidates.len() == m,
                        as_ints(out@) == all.take(i as int).filter(self@.lowest()),
                    decreases len - i,
                {
                    let cell = self.cell_at(i);
                    proof {
                        lemma_filter_take_next(all, self@.lowest(), i as int);
                        assert(all[i as int] == i);
                    }
                    if !cell.collapsed && cell.candidates.len() == m {
                        proof {
                            assert(self@.is_lowest(i as int));
                            assert(as_ints(out@.push(i)) =~= as_ints(out@).push(i as int));
                        }
                        out.push(i);
                    } else {
                        proof {
                            if self@.is_lowest(i as int) {
                                assert(!self@.cells[w].collapsed);
                                assert(!self@.cells[i as int].collapsed);
                            }
                            assert(!self@.is_lowest(i as int));
                        }
                    }
                    i += 1;
                }
                proof {
                    assert(all.take(len as int) =~= all);
                }
            },
        }
        proof {
            assert(as_ints(out@).len() == out@.len());
            assert forall|k: int| 0 <= k < out@.len() implies self@.is_lowest(
                #[trigger] out@[k] as int,
            ) by {
                assert(as_ints(out@)[k] == out@[k] as int);
                assert(self@.lowest_positions().contains(as_ints(out@)[k]));
            }
        }
        out
    }

    /// Coordinates of the cell that stands at place `k` of the list of
    /// uncollapsed cells with the fewest candidates, if the list is that
    /// long.
    pub fn pick_nth_low_entropy_cell(&self, k: usize) -> (r: Option<(usize, usize)>)
        requires
            self.wf(),
        ensures
            r is Some <==> k < self@.lowest_positions().len(),
            r matches Some((row, col)) ==> self@.lowest_at(row as int, col as int) && self@.index(
                row as int,
                col as int,
            ) == self@.lowest_positions()[k as int],
    {
        let cells: Vec<usize> = self.low_entropy_cells();
        assert(as_ints(cells@).len() == cells@.len());
        if k < cells.len() {
            let i: usize = cells[k];
            assert(as_ints(cells@)[k as int] == i as int);
            Some(self.coordinates(i))
        } else {
            None
        }
    }

    /// Picks at random one of the uncollapsed cells with the fewest
    /// candidates and returns its row and column.  Fails with
    /// `NoCandidateCell` exactly when every cell is collapsed.
    pub fn pick_low_entropy_cell(&self, rng: &mut StdRng) -> (r: Result<(usize, usize), WfcError>)
        requires
            self.wf(),
        ensures
            r is Err <==> self@.is_complete(),
            r matches Err(e) ==> e == WfcError::NoCandidateCell,
            r matches Ok((row, col)) ==> self@.lowest_at(row as int, col as int),
    {
        let count: usize = self.low_entropy_cells().len();
        if count == 0 {
            return Err(WfcError::NoCandidateCell);
        }
        let k: usize = random_below(rng, count);
        match self.pick_nth_low_entropy_cell(k) {
            Some(cell) => Ok(cell),
            None => Err(WfcError::NoCandidateCell),
        }
    }
}

} // verus!
