//! Choosing the tile of a cell with a straight-line lookahead.
//!
//! Propagation narrows only the four cells next to a collapse.  Before a
//! tile is accepted for a cell, the lookahead therefore walks from the cell
//! towards each edge of the grid and follows the chain of cells that the
//! tile would force, without writing anything.

use rand::rngs::StdRng;
use vstd::prelude::*;
use crate::candidates::{duplicate, intersection, member_of, lemma_filter_agree,
    lemma_filter_members, lemma_same_tiles};
use crate::consistency::{cell_shrinks, grid_shrinks, lemma_shrink_backs};
use crate::error::WfcError;
use crate::grid::{lemma_index, Grid, GridView};
use crate::progress::lemma_count_open_update;
use crate::random::shuffle_variants;
use crate::tile::{allowed_by, allows, lemma_allows_symmetric, permitted, Side, Variant};

verus! {

impl GridView {
    /// Number of cells between (`row`, `col`) and the edge of the grid on
    /// `side`.
    pub open spec fn room(self, row: int, col: int, side: Side) -> int {
        match side {
            Side::Left => col,
            Side::Right => self.n - 1 - col,
            Side::Top => row,
            Side::Bottom => self.n - 1 - row,
        }
    }

    /// The lookahead along one ray.  Standing at (`row`, `col`) with the
    /// tile `cur` in mind, look at the next cell towards `side` and at
    /// those of its candidates that `cur` permits there.  With none left
    /// the ray fails.  With exactly one left that tile is forced: the walk
    /// moves to the next cell with it in mind.  With two or more the ray
    /// succeeds at once, as it does at the edge of the grid.
    pub open spec fn ray_ok(self, row: int, col: int, cur: Variant, side: Side) -> bool
        decreases self.room(row, col, side),
    {
        if self.in_bounds(row, col) && self.has_neighbour(row, col, side) {
            let left = self.neighbour(row, col, side).candidates.filter(
                allowed_by(self.set, cur, side),
            );
            if left.len() == 0 {
                false
            } else if left.len() == 1 {
                self.ray_ok(row + side.d_row(), col + side.d_col(), left[0], side)
            } else {
                true
            }
        } else {
            true
        }
    }

    /// Whether the tile `v` passes the lookahead for the cell at (`row`,
    /// `col`): all four rays succeed.
    pub open spec fn feasible(self, row: int, col: int, v: Variant) -> bool {
        &&& self.ray_ok(row, col, v, Side::Left)
        &&& self.ray_ok(row, col, v, Side::Right)
        &&& self.ray_ok(row, col, v, Side::Top)
        &&& self.ray_ok(row, col, v, Side::Bottom)
    }

    /// Whether position `i` of `order` holds the first tile of `order` that
    /// passes the lookahead for the cell at (`row`, `col`).
    pub open spec fn is_first_feasible(self, row: int, col: int, order: Seq<Variant>, i: int) -> bool {
        &&& 0 <= i < order.len()
        &&& self.feasible(row, col, order[i])
        &&& forall|j: int| 0 <= j < i ==> !self.feasible(row, col, #[trigger] order[j])
    }
}

/// A tile that passes the lookahead can be collapsed without a
/// contradiction: the first step of each ray is the narrowing of the
/// neighbour on that side.
pub proof fn lemma_feasible_not_blocked(g: GridView, row: int, col: int, v: Variant)
    requires
        g.wf(),
        g.in_bounds(row, col),
        g.feasible(row, col, v),
    ensures
        g.collapsed_to(row, col, v).first_blocked(row, col) is None,
{
    let h = g.collapsed_to(row, col, v);
    lemma_index(g.n, row, col);
    assert(h.tile(row, col) == v);
    assert forall|side: Side| !h.blocked(row, col, side) by {
        if h.has_neighbour(row, col, side) {
            lemma_index(g.n, row + side.d_row(), col + side.d_col());
            assert(h.neighbour(row, col, side) == g.neighbour(row, col, side));
            assert(g.ray_ok(row, col, v, side));
        }
    }
}

/// A tile that passes the lookahead fits beside every collapsed neighbour:
/// the first step of the ray towards a collapsed neighbour finds that
/// neighbour's tile among those that the new tile permits.
pub proof fn lemma_feasible_fits(g: GridView, row: int, col: int, v: Variant, side: Side)
    requires
        g.wf(),
        g.in_bounds(row, col),
        g.feasible(row, col, v),
        g.has_neighbour(row, col, side),
        g.neighbour(row, col, side).collapsed,
    ensures
        allows(g.set, v, side, g.neighbour(row, col, side).candidates[0]),
{
    let nb = g.neighbour(row, col, side);
    lemma_index(g.n, row + side.d_row(), col + side.d_col());
    assert(nb.wf());
    assert(g.ray_ok(row, col, v, side));
    let kept = nb.candidates.filter(allowed_by(g.set, v, side));
    lemma_filter_members(nb.candidates, allowed_by(g.set, v, side));
    assert(kept.contains(kept[0]));
    assert(nb.candidates.contains(kept[0]));
    assert(kept[0] == nb.candidates[0]);
}

/// Collapsing a cell to a tile that passes the lookahead keeps adjacent
/// collapsed cells in agreement.
pub proof fn lemma_feasible_collapse_consistent(g: GridView, row: int, col: int, v: Variant)
    requires
        g.wf(),
        g.in_bounds(row, col),
        g.consistent(),
        g.feasible(row, col, v),
    ensures
        g.collapsed_to(row, col, v).consistent(),
{
    let h = g.collapsed_to(row, col, v);
    lemma_index(g.n, row, col);
    assert(h.tile(row, col) == v);
    assert forall|r: int, c: int, side: Side| #[trigger] h.pair_agrees(r, c, side) by {
        assert(g.pair_agrees(r, c, side));
        if h.in_bounds(r, c) && h.has_neighbour(r, c, side) {
            let nr = r + side.d_row();
            let nc = c + side.d_col();
            lemma_index(g.n, r, c);
            lemma_index(g.n, nr, nc);
            if r == row && c == col {
                assert(h.neighbour(r, c, side) == g.neighbour(row, col, side));
                if g.neighbour(row, col, side).collapsed {
                    lemma_feasible_fits(g, row, col, v, side);
                }
            } else if nr == row && nc == col {
                let back = side.opposite_spec();
                assert(h.at(r, c) == g.at(r, c));
                assert(row + back.d_row() == r && col + back.d_col() == c);
                assert(g.neighbour(row, col, back) == g.at(r, c));
                if g.at(r, c).collapsed {
                    lemma_feasible_fits(g, row, col, v, back);
                    lemma_allows_symmetric(g.set, v, back, g.at(r, c).candidates[0]);
                }
            } else {
                assert(h.at(r, c) == g.at(r, c));
                assert(h.neighbour(r, c, side) == g.neighbour(r, c, side));
            }
        }
    }
}

/// Putting the candidates of a cell in another order does not change the
/// number of open cells nor what a collapse of that cell gives, keeps a
/// supported grid supported, and leaves every collapsed cell as it was.
pub proof fn lemma_reorder_keeps(g: GridView, row: int, col: int, order: Seq<Variant>)
    requires
        g.wf(),
        g.in_bounds(row, col),
        order.to_multiset() == g.at(row, col).candidates.to_multiset(),
    ensures
        g.reordered(row, col, order).open_cells() == g.open_cells(),
        forall|v: Variant|
            g.reordered(row, col, order).collapsed_to(row, col, v) == g.collapsed_to(row, col, v),
        g.supported() ==> g.reordered(row, col, order).supported(),
        g.reordered(row, col, order).extends(g),
{
    let h = g.reordered(row, col, order);
    lemma_index(g.n, row, col);
    let i = g.index(row, col);
    lemma_count_open_update(g.cells, i, h.cells[i]);
    lemma_same_tiles(order, g.at(row, col).candidates);
    assert(g.at(row, col).wf());
    if g.at(row, col).collapsed {
        assert(order.contains(order[0]));
        assert(g.at(row, col).candidates.contains(order[0]));
        assert(order =~= g.at(row, col).candidates);
    }
    assert forall|v: Variant| h.collapsed_to(row, col, v) == g.collapsed_to(row, col, v) by {
        assert(h.collapsed_to(row, col, v).cells =~= g.collapsed_to(row, col, v).cells);
    }
    if g.supported() {
        assert forall|r: int, c: int| g.in_bounds(r, c) implies cell_shrinks(
            g.at(r, c),
            #[trigger] h.at(r, c),
        ) by {
            lemma_index(g.n, r, c);
        }
        assert(grid_shrinks(g, h));
        assert forall|r: int, c: int, side: Side| #[trigger] h.backs(r, c, side) by {
            assert(g.backs(r, c, side));
            lemma_shrink_backs(g, h, r, c, side);
        }
    }
}

impl Grid {
    /// The lookahead along the ray from (`row`, `col`) towards `side` for
    /// the tile `v`.
    pub fn ray_feasible(&self, row: usize, col: usize, v: Variant, side: Side) -> (ok: bool)
        requires
            self.wf(),
            self@.in_bounds(row as int, col as int),
        ensures
            ok == self@.ray_ok(row as int, col as int, v, side),
    {
        let mut r: usize = row;
        let mut c: usize = col;
        let mut cur: Variant = v;
        loop
            invariant
                self.wf(),
                self@.in_bounds(r as int, c as int),
                self@.ray_ok(row as int, col as int, v, side) == self@.ray_ok(
                    r as int,
                    c as int,
                    cur,
                    side,
                ),
            decreases self@.room(r as int, c as int, side),
        {
            match self.neighbour_of(r, c, side) {
                None => {
                    return true;
                },
                Some((nr, nc)) => {
                    let allowed: Vec<Variant> = permitted(self.variant_set(), cur, side);
                    let left: Vec<Variant> = intersection(&self.cell(nr, nc).candidates, &allowed);
                    proof {
                        lemma_filter_agree(
                            self@.at(nr as int, nc as int).candidates,
                            member_of(allowed@),
                            allowed_by(self@.set, cur, side),
                        );
                    }
                    if left.len() == 0 {
                        return false;
                    } else if left.len() == 1 {
                        cur = left[0];
                        r = nr;
                        c = nc;
                    } else {
                        return true;
                    }
                },
            }
        }
    }

    /// The lookahead for the tile `v` at (`row`, `col`): the rays to the
    /// left, to the right, upwards and downwards must all succeed.
    pub fn is_feasible(&self, row: usize, col: usize, v: Variant) -> (ok: bool)
        requires
            self.wf(),
            self@.in_bounds(row as int, col as int),
        ensures
            ok == self@.feasible(row as int, col as int, v),
    {
        self.ray_feasible(row, col, v, Side::Left) && self.ray_feasible(row, col, v, Side::Right)
            && self.ray_feasible(row, col, v, Side::Top) && self.ray_feasible(
            row,
            col,
            v,
            Side::Bottom,
        )
    }

    /// The first tile of `order` that passes the lookahead for the cell at
    /// (`row`, `col`), if there is one.
    pub fn first_feasible_variant(&self, row: usize, col: usize, order: &Vec<Variant>) -> (r:
        Option<Variant>)
        requires
            self.wf(),
            self@.in_bounds(row as int, col as int),
        ensures
            match r {
                Some(v) => exists|i: int|
                    self@.is_first_feasible(row as int, col as int, order@, i) && v == order@[i],
                None => forall|i: int|
                    0 <= i < order@.len() ==> !self@.feasible(
                        row as int,
                        col as int,
                        #[trigger] order@[i],
                    ),
            },
    {
        let mut i: usize = 0;
        while i < order.len()
            invariant
                self.wf(),
                self@.in_bounds(row as int, col as int),
                0 <= i <= order.len(),
                forall|j: int|
                    0 <= j < i ==> !self@.feasible(row as int, col as int, #[trigger] order@[j]),
            decreases order.len() - i,
        {
            let v: Variant = order[i];
            if self.is_feasible(row, col, v) {
                assert(self@.is_first_feasible(row as int, col as int, order@, i as int));
                return Some(v);
            }
            i += 1;
        }
        None
    }

    /// Chooses the tile for the cell at (`row`, `col`): the candidates of
    /// the cell are put in a random order, and the first of them that
    /// passes the lookahead is returned.  The cell keeps the new order of
    /// its candidates; nothing else changes.  Where no candidate passes,
    /// the grid is left exactly as it was.
    pub fn choose_variant(&mut self, row: usize, col: usize, rng: &mut StdRng) -> (r: Result<
        Variant,
        WfcError,
    >)
        requires
            old(self).wf(),
            old(self)@.in_bounds(row as int, col as int),
        ensures
            final(self).wf(),
            r is Ok <==> exists|w: Variant|
                old(self)@.at(row as int, col as int).candidates.contains(w) && old(
                    self,
                )@.feasible(row as int, col as int, w),
            match r {
                Ok(v) => {
                    let order = final(self)@.at(row as int, col as int).candidates;
                    &&& order.to_multiset() == old(self)@.at(
                        row as int,
                        col as int,
                    ).candidates.to_multiset()
                    &&& final(self)@ == old(self)@.reordered(row as int, col as int, order)
                    &&& final(self)@.extends(old(self)@)
                    &&& old(self)@.supported() ==> final(self)@.supported()
                    &&& exists|i: int|
                        old(self)@.is_first_feasible(row as int, col as int, order, i) && v
                            == order[i]
                    &&& old(self)@.at(row as int, col as int).candidates.contains(v)
                    &&& old(self)@.feasible(row as int, col as int, v)
                },
                Err(e) => {
                    &&& e == (WfcError::NoFeasibleVariant { row, col })
                    &&& final(self)@ == old(self)@
                },
            },
    {
        let mut order: Vec<Variant> = duplicate(&self.cell(row, col).candidates);
        shuffle_variants(&mut order, rng);
        let ghost before = self@.at(row as int, col as int).candidates;
        proof {
            lemma_same_tiles(before, order@);
            lemma_same_tiles(order@, before);
        }
        match self.first_feasible_variant(row, col, &order) {
            Some(v) => {
                proof {
                    let i = choose|i: int|
                        self@.is_first_feasible(row as int, col as int, order@, i) && v
                            == order@[i];
                    assert(order@.contains(order@[i]));
                }
                proof {
                    lemma_reorder_keeps(self@, row as int, col as int, order@);
                }
                self.reorder_candidates(row, col, order);
                proof {
                    lemma_index(self@.n, row as int, col as int);
                }
                Ok(v)
            },
            None => {
                proof {
                    assert forall|w: Variant| before.contains(w) implies !self@.feasible(
                        row as int,
                        col as int,
                        w,
                    ) by {
                        assert(order@.contains(w));
                        let k = choose|k: int| 0 <= k < order@.len() && order@[k] == w;
                        assert(!self@.feasible(row as int, col as int, order@[k]));
                    }
                }
                Err(WfcError::NoFeasibleVariant { row, col })
            },
        }
    }
}

} // verus!
