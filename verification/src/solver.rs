//! The driver: seed one cell, then pick, choose, collapse and propagate
//! until every cell is collapsed or no tile fits.

use rand::rngs::StdRng;
use vstd::prelude::*;
use crate::consistency::{cell_shrinks, lemma_fresh_supported, lemma_propagation_consistent,
    lemma_propagation_shrinks, lemma_single_cell_supported, lemma_supported_consistent};
use crate::error::WfcError;
use crate::grid::{lemma_collapse_wf, lemma_index, lemma_propagation_at, lemma_propagation_stages,
    side_towards, CellView, Grid, GridView};
use crate::candidates::{lemma_filter_members, lemma_same_tiles};
use crate::lookahead::{lemma_feasible_collapse_consistent, lemma_feasible_not_blocked,
    lemma_reorder_keeps};
use crate::progress::{lemma_collapse_extends, lemma_collapse_open_cells,
    lemma_complete_no_open_cells, lemma_extends_transitive, lemma_open_cells_bound,
    lemma_propagation_open_cells, open_weight};
use crate::random::random_below;
use crate::tile::{allowed_by, allows, Side, Variant, VariantSet};

verus! {

/// The tile that fits beside the edge of `v` on `side` in either alphabet.
pub open spec fn partner(v: Variant, side: Side) -> Variant {
    if !v.marked_spec(side) {
        Variant::Blank
    } else if side == Side::Bottom {
        Variant::Left
    } else {
        Variant::Down
    }
}

/// Seeding a grid on which nothing is decided meets no contradiction
/// exactly when the seed belongs to the alphabet or the grid has a single
/// cell.
pub proof fn lemma_seed_outcome(n: int, set: VariantSet, row: int, col: int, seed: Variant)
    requires
        1 <= n,
        0 <= row < n,
        0 <= col < n,
    ensures
        GridView::fresh(n, set).collapsed_to(row, col, seed).first_blocked(row, col) is None <==> (n
            == 1 || set.has_spec(seed)),
{
    let g = GridView::fresh(n, set);
    let h = g.collapsed_to(row, col, seed);
    lemma_index(n, row, col);
    assert(h.tile(row, col) == seed);
    assert forall|side: Side| h.blocked(row, col, side) <==> h.has_neighbour(row, col, side)
        && !set.has_spec(seed) by {
        if h.has_neighbour(row, col, side) {
            let nr = row + side.d_row();
            let nc = col + side.d_col();
            lemma_index(n, nr, nc);
            assert(h.neighbour(row, col, side) == g.cells[g.index(nr, nc)]);
            let keep = h.keeps(row, col, side);
            let kept = set.alphabet().filter(keep);
            lemma_filter_members(set.alphabet(), keep);
            if set.has_spec(seed) {
                let w = partner(seed, side);
                assert(allows(set, seed, side, w));
                assert(set.alphabet().contains(w)) by {
                    assert(set.alphabet()[0] == Variant::Blank);
                    assert(set.alphabet()[1] == Variant::Down);
                    assert(set.alphabet()[2] == Variant::Left);
                }
                assert(kept.contains(w));
            } else {
                if kept.len() > 0 {
                    assert(kept.contains(kept[0]));
                }
            }
        }
    }
    if n >= 2 {
        if col > 0 {
            assert(h.has_neighbour(row, col, Side::Left));
        } else {
            assert(h.has_neighbour(row, col, Side::Right));
        }
    }
}

/// The cell at (`r`, `c`) of a grid of side `n` that was seeded with `seed`
/// at (`row`, `col`): the seeded cell holds the seed alone, a cell next to
/// it holds the tiles of the alphabet that the seed permits on that side,
/// and every other cell holds the whole alphabet.
pub open spec fn seeded_cell(
    n: int,
    set: VariantSet,
    row: int,
    col: int,
    seed: Variant,
    r: int,
    c: int,
) -> CellView {
    let fresh = GridView::fresh(n, set).at(r, c);
    if r == row && c == col {
        fresh.fixed(seed)
    } else {
        match side_towards(row, col, r, c) {
            Some(side) => CellView {
                candidates: set.alphabet().filter(allowed_by(set, seed, side)),
                ..fresh
            },
            None => fresh,
        }
    }
}

/// Every cell of a newly made grid keeps a candidate.  On a grid on which
/// nothing is decided every cell holds the whole alphabet.  A seeded grid
/// is well formed and only its seeded cell is collapsed; where the seed
/// belongs to the alphabet, or the grid has a single cell, its cells are
/// those that [`seeded_cell`] describes.
pub proof fn lemma_seeded_cells(n: int, set: VariantSet, row: int, col: int, seed: Variant)
    requires
        1 <= n,
        0 <= row < n,
        0 <= col < n,
    ensures
        GridView::fresh(n, set).wf(),
        forall|r: int, c: int|
            0 <= r < n && 0 <= c < n ==> (#[trigger] GridView::fresh(n, set).at(r, c)).candidates
                == set.alphabet(),
        ({
            let g = GridView::fresh(n, set).collapsed_to(row, col, seed).after_propagation(
                row,
                col,
            );
            &&& g.wf()
            &&& g.n == n
            &&& g.set == set
            &&& forall|r: int, c: int|
                0 <= r < n && 0 <= c < n ==> {
                    &&& (#[trigger] g.at(r, c)).candidates.len() >= 1
                    &&& g.at(r, c).collapsed <==> r == row && c == col
                }
            &&& n == 1 || set.has_spec(seed) ==> forall|r: int, c: int|
                0 <= r < n && 0 <= c < n ==> #[trigger] g.at(r, c) == seeded_cell(
                    n,
                    set,
                    row,
                    col,
                    seed,
                    r,
                    c,
                )
            &&& g.is_complete() <==> n == 1
        }),
{
    let fresh = GridView::fresh(n, set);
    let h = fresh.collapsed_to(row, col, seed);
    let g = h.after_propagation(row, col);
    lemma_fresh_supported(n, set);
    lemma_collapse_wf(fresh, row, col, seed);
    lemma_propagation_stages(h, row, col);
    lemma_propagation_shrinks(h, row, col);
    lemma_seed_outcome(n, set, row, col, seed);
    lemma_index(n, row, col);
    assert forall|r: int, c: int| 0 <= r < n && 0 <= c < n implies (#[trigger] fresh.at(
        r,
        c,
    )).candidates == set.alphabet() && !fresh.at(r, c).collapsed by {
        lemma_index(n, r, c);
    }
    assert forall|r: int, c: int| 0 <= r < n && 0 <= c < n implies {
        &&& (#[trigger] g.at(r, c)).candidates.len() >= 1
        &&& g.at(r, c).collapsed <==> r == row && c == col
    } by {
        lemma_index(n, r, c);
        assert(g.cells[g.index(r, c)].wf());
        assert(cell_shrinks(h.at(r, c), g.at(r, c)));
        if r != row || c != col {
            assert(h.at(r, c) == fresh.at(r, c));
        }
    }
    if n == 1 || set.has_spec(seed) {
        assert forall|r: int, c: int| 0 <= r < n && 0 <= c < n implies #[trigger] g.at(r, c)
            == seeded_cell(n, set, row, col, seed, r, c) by {
            lemma_index(n, r, c);
            lemma_propagation_at(h, row, col, r, c);
            if r != row || c != col {
                assert(h.at(r, c) == fresh.at(r, c));
            }
            assert(h.tile(row, col) == seed);
        }
    }
    if n == 1 {
        assert(g.cells.len() == g.n * g.n);
        assert(g.n * g.n == 1) by (nonlinear_arith)
            requires
                g.n == 1,
        ;
        assert(g.index(row, col) == 0) by (nonlinear_arith)
            requires
                g.index(row, col) == row * g.n + col,
                row == 0,
                col == 0,
        ;
        assert(g.at(row, col).collapsed);
        assert(g.cells[0].collapsed);
        assert(g.is_complete());
    } else {
        let c = if col > 0 {
            col - 1
        } else {
            col + 1
        };
        lemma_index(n, row, c);
        assert(!g.at(row, c).collapsed);
        assert(!g.cells[g.index(row, c)].collapsed);
        assert(!g.is_complete());
    }
}

/// A tile of the alphabet `set`, drawn at random.
pub fn random_variant(set: VariantSet, rng: &mut StdRng) -> (v: Variant)
    ensures
        set.has_spec(v),
        set.alphabet().contains(v),
{
    let k: usize = random_below(rng, set.count());
    set.variant_at(k)
}

impl Grid {
    /// A grid of side `n` whose cell at (`row`, `col`) is collapsed to
    /// `seed` and whose neighbours have been narrowed accordingly; every
    /// other cell has the whole alphabet as its candidates.  A seed from
    /// outside the alphabet permits nothing beside it, so it is accepted
    /// only on a grid of a single cell.
    pub fn seeded_at(n: usize, set: VariantSet, row: usize, col: usize, seed: Variant) -> (r:
        Result<Grid, WfcError>)
        requires
            1 <= n,
            n * n <= usize::MAX,
            row < n,
            col < n,
        ensures
            r is Ok <==> (n == 1 || set.has_spec(seed)),
            r matches Ok(g) ==> {
                &&& g.wf()
                &&& g@ == GridView::fresh(n as int, set).collapsed_to(
                    row as int,
                    col as int,
                    seed,
                ).after_propagation(row as int, col as int)
                &&& g@.n == n
                &&& g@.set == set
                &&& g@.supported()
                &&& g@.is_complete() <==> n == 1
            },
            r matches Err(e) ==> Err::<(), WfcError>(e) == GridView::fresh(
                n as int,
                set,
            ).collapsed_to(row as int, col as int, seed).propagation_outcome(
                row as int,
                col as int,
            ),
    {
        let mut g: Grid = Grid::new(n, set);
        proof {
            lemma_fresh_supported(n as int, set);
            lemma_seed_outcome(n as int, set, row as int, col as int, seed);
            lemma_index(n as int, row as int, col as int);
            if set.has_spec(seed) {
                assert(set.alphabet().contains(seed)) by {
                    assert(set.alphabet()[seed.rank() as int] == seed);
                }
            } else if n == 1 {
                lemma_single_cell_supported(g@, seed);
            }
            lemma_seeded_cells(n as int, set, row as int, col as int, seed);
        }
        match g.collapse_and_propagate(row, col, seed) {
            Ok(()) => Ok(g),
            Err(e) => Err(e),
        }
    }

    /// Like [`Grid::seeded_at`], with the seeded cell drawn at random.
    pub fn seeded(n: usize, set: VariantSet, seed: Variant, rng: &mut StdRng) -> (r: Result<
        Grid,
        WfcError,
    >)
        requires
            1 <= n,
            n * n <= usize::MAX,
        ensures
            r is Ok <==> (n == 1 || set.has_spec(seed)),
            r matches Ok(g) ==> {
                &&& g.wf()
                &&& g@.n == n
                &&& g@.set == set
                &&& g@.supported()
                &&& g@.is_complete() <==> n == 1
                &&& exists|row: int, col: int|
                    0 <= row < n && 0 <= col < n && g@ == #[trigger] GridView::fresh(
                        n as int,
                        set,
                    ).collapsed_to(row, col, seed).after_propagation(row, col)
            },
            r matches Err(e) ==> exists|row: int, col: int|
                0 <= row < n && 0 <= col < n && Err::<(), WfcError>(e) == #[trigger] GridView::fresh(
                    n as int,
                    set,
                ).collapsed_to(row, col, seed).propagation_outcome(row, col),
    {
        let row: usize = random_below(rng, n);
        let col: usize = random_below(rng, n);
        Grid::seeded_at(n, set, row, col, seed)
    }

    /// Chooses a tile for the cell at (`row`, `col`) with the lookahead,
    /// collapses the cell to it and propagates.  Returns the tile.  Where no
    /// candidate of the cell passes the lookahead the grid is left as it
    /// was.  There is never a contradiction, because the lookahead has seen
    /// the four neighbours.
    pub fn collapse_cell(&mut self, row: usize, col: usize, rng: &mut StdRng) -> (r: Result<
        Variant,
        WfcError,
    >)
        requires
            old(self).wf(),
            old(self)@.in_bounds(row as int, col as int),
        ensures
            final(self).wf(),
            r is Ok <==> exists|w: Variant|
                old(self)@.at(row as int, col as int).candidates.contains(w) && old(
                    self,
                )@.feasible(row as int, col as int, w),
            match r {
                Ok(v) => {
                    &&& old(self)@.at(row as int, col as int).candidates.contains(v)
                    &&& old(self)@.feasible(row as int, col as int, v)
                    &&& old(self)@.collapsed_to(row as int, col as int, v).first_blocked(
                        row as int,
                        col as int,
                    ) is None
                    &&& final(self)@ == old(self)@.collapsed_to(
                        row as int,
                        col as int,
                        v,
                    ).after_propagation(row as int, col as int)
                    &&& final(self)@.extends(old(self)@)
                    &&& final(self)@.open_cells() + open_weight(
                        old(self)@.at(row as int, col as int),
                    ) == old(self)@.open_cells()
                    &&& old(self)@.supported() ==> final(self)@.supported()
                },
                Err(e) => {
                    &&& e == (WfcError::NoFeasibleVariant { row, col })
                    &&& final(self)@ == old(self)@
                },
            },
            old(self)@.consistent() ==> final(self)@.consistent(),
    {
        let ghost g0 = self@;
        let v: Variant = match self.choose_variant(row, col, rng) {
            Ok(v) => v,
            Err(e) => {
                return Err(e);
            },
        };
        proof {
            let order = self@.at(row as int, col as int).candidates;
            lemma_reorder_keeps(g0, row as int, col as int, order);
            lemma_feasible_not_blocked(g0, row as int, col as int, v);
            lemma_collapse_open_cells(g0, row as int, col as int, v);
            lemma_collapse_extends(g0, row as int, col as int, v);
            lemma_index(g0.n, row as int, col as int);
            lemma_collapse_wf(g0, row as int, col as int, v);
            lemma_propagation_open_cells(
                g0.collapsed_to(row as int, col as int, v),
                row as int,
                col as int,
            );
            lemma_same_tiles(g0.at(row as int, col as int).candidates, order);
            if g0.consistent() {
                lemma_feasible_collapse_consistent(g0, row as int, col as int, v);
                lemma_propagation_consistent(
                    g0.collapsed_to(row as int, col as int, v),
                    row as int,
                    col as int,
                );
            }
        }
        match self.collapse_and_propagate(row, col, v) {
            Ok(()) => Ok(v),
            Err(e) => Err(e),
        }
    }

    /// One round of the solver: picks at random one of the open cells with
    /// the fewest candidates and collapses it as [`Grid::collapse_cell`]
    /// does.  Returns the cell and its tile.  A round that succeeds closes
    /// exactly one cell; a round that fails leaves the grid as it was.
    pub fn step(&mut self, rng: &mut StdRng) -> (r: Result<(usize, usize, Variant), WfcError>)
        requires
            old(self).wf(),
        ensures
            final(self).wf(),
            old(self)@.is_complete() <==> r == Err::<(usize, usize, Variant), WfcError>(
                WfcError::NoCandidateCell,
            ),
            match r {
                Ok((row, col, v)) => {
                    &&& old(self)@.lowest_at(row as int, col as int)
                    &&& old(self)@.at(row as int, col as int).candidates.contains(v)
                    &&& old(self)@.feasible(row as int, col as int, v)
                    &&& final(self)@ == old(self)@.collapsed_to(
                        row as int,
                        col as int,
                        v,
                    ).after_propagation(row as int, col as int)
                    &&& final(self)@.extends(old(self)@)
                    &&& final(self)@.open_cells() == old(self)@.open_cells() - 1
                    &&& old(self)@.supported() ==> final(self)@.supported()
                },
                Err(WfcError::NoCandidateCell) => final(self)@ == old(self)@,
                Err(WfcError::NoFeasibleVariant { row, col }) => {
                    &&& final(self)@ == old(self)@
                    &&& old(self)@.lowest_at(row as int, col as int)
                    &&& forall|w: Variant|
                        old(self)@.at(row as int, col as int).candidates.contains(w) ==> !old(
                            self,
                        )@.feasible(row as int, col as int, w)
                },
                Err(WfcError::Contradiction { .. }) => false,
            },
            old(self)@.consistent() ==> final(self)@.consistent(),
    {
        let (row, col) = match self.pick_low_entropy_cell(rng) {
            Ok(rc) => rc,
            Err(e) => {
                return Err(e);
            },
        };
        match self.collapse_cell(row, col, rng) {
            Ok(v) => Ok((row, col, v)),
            Err(e) => Err(e),
        }
    }

    /// Runs rounds of the solver until every cell is collapsed or a round
    /// fails, and returns the number of rounds that succeeded.  Each round
    /// closes one cell, so a run that succeeds takes as many rounds as
    /// there were open cells.  The cells that were collapsed before stay as
    /// they were.  A run fails only where the lookahead finds no tile for
    /// the cell that a round picked; the error names that cell, and the grid
    /// is left as that round found it.
    pub fn run(&mut self, rng: &mut StdRng) -> (r: Result<usize, WfcError>)
        requires
            old(self).wf(),
        ensures
            final(self).wf(),
            final(self)@.extends(old(self)@),
            r matches Ok(rounds) ==> final(self)@.is_complete() && rounds == old(
                self,
            )@.open_cells(),
            old(self)@.is_complete() ==> r is Ok,
            r matches Err(e) ==> e is NoFeasibleVariant && !final(self)@.is_complete(),
            r matches Err(WfcError::NoFeasibleVariant { row, col }) ==> {
                &&& final(self)@.lowest_at(row as int, col as int)
                &&& forall|w: Variant| #[trigger]
                    final(self)@.at(row as int, col as int).candidates.contains(w)
                        ==> !final(self)@.feasible(row as int, col as int, w)
            },
            old(self)@.supported() ==> final(self)@.supported() && final(self)@.consistent(),
            old(self)@.consistent() ==> final(self)@.consistent(),
    {
        let mut rounds: usize = 0;
        let cells: usize = self.cell_count();
        proof {
            lemma_open_cells_bound(self@);
        }
        loop
            invariant
                self.wf(),
                self@.extends(old(self)@),
                old(self)@.supported() ==> self@.supported(),
                old(self)@.consistent() ==> self@.consistent(),
                rounds == 0 ==> self@ == old(self)@,
                rounds + self@.open_cells() == old(self)@.open_cells(),
                old(self)@.open_cells() <= cells,
            decreases self@.open_cells(),
        {
            proof {
                if self@.supported() {
                    lemma_supported_consistent(self@);
                }
                lemma_complete_no_open_cells(self@);
            }
            if self.is_complete() {
                return Ok(rounds);
            }
            let ghost before = self@;
            match self.step(rng) {
                Ok(_) => {
                    proof {
                        lemma_extends_transitive(old(self)@, before, self@);
                    }
                    rounds += 1;
                },
                Err(e) => {
                    return Err(e);
                },
            }
        }
    }
}

/// Generates a tiling of a grid of side `n` over the alphabet `set`: seeds
/// a random cell with a random tile and runs the solver.  On success every
/// cell is collapsed, every two adjacent tiles fit, and the tile of the
/// seeded cell is the seed.  The only failure is that the lookahead finds no
/// tile for some cell, which the error names; there is no backtracking, so
/// the caller starts afresh.  A grid of a single cell never fails.
pub fn generate(n: usize, set: VariantSet, rng: &mut StdRng) -> (r: Result<Grid, WfcError>)
    requires
        1 <= n,
        n * n <= usize::MAX,
    ensures
        n == 1 ==> r is Ok,
        r matches Ok(g) ==> {
            &&& g.wf()
            &&& g@.n == n
            &&& g@.set == set
            &&& g@.is_complete()
            &&& g@.supported()
            &&& g@.consistent()
            &&& exists|row: int, col: int, seed: Variant|
                0 <= row < n && 0 <= col < n && set.has_spec(seed) && g@.extends(
                    #[trigger] GridView::fresh(n as int, set).collapsed_to(
                        row,
                        col,
                        seed,
                    ).after_propagation(row, col),
                )
        },
        r matches Err(e) ==> e is NoFeasibleVariant,
        r matches Err(WfcError::NoFeasibleVariant { row, col }) ==> row < n && col < n,
{
    let seed: Variant = random_variant(set, rng);
    let mut g: Grid = match Grid::seeded(n, set, seed, rng) {
        Ok(g) => g,
        Err(e) => {
            return Err(e);
        },
    };
    let ghost seeded = g@;
    match g.run(rng) {
        Ok(_) => {
            proof {
                let (row, col) = choose|row: int, col: int|
                    0 <= row < n && 0 <= col < n && seeded == #[trigger] GridView::fresh(
                        n as int,
                        set,
                    ).collapsed_to(row, col, seed).after_propagation(row, col);
                assert(g@.extends(
                    GridView::fresh(n as int, set).collapsed_to(row, col, seed).after_propagation(
                        row,
                        col,
                    ),
                ));
            }
            Ok(g)
        },
        Err(e) => Err(e),
    }
}

} // verus!
