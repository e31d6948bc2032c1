//! What a grid promises about tiles that lie side by side, and why
//! collapsing and propagating keep that promise.

use vstd::prelude::*;
use crate::candidates::{lemma_filter_members, lemma_filter_twice};
use crate::grid::{lemma_collapse_wf, lemma_index, lemma_narrow_side_frame,
    lemma_narrow_side_keeps_blocked, lemma_narrow_side_wf, lemma_propagation_stages, CellView,
    GridView};
use crate::tile::{allows, lemma_allows_symmetric, Side, Variant, VariantSet};

verus! {

impl GridView {
    /// Where the cell at (`row`, `col`) and its neighbour on `side` are both
    /// collapsed, the rule allows the neighbour's tile on that side.
    pub open spec fn pair_agrees(self, row: int, col: int, side: Side) -> bool {
        self.in_bounds(row, col) && self.has_neighbour(row, col, side) && self.at(
            row,
            col,
        ).collapsed && self.neighbour(row, col, side).collapsed ==> allows(
            self.set,
            self.tile(row, col),
            side,
            self.neighbour(row, col, side).candidates[0],
        )
    }

    /// Every two orthogonally adjacent collapsed cells carry tiles that the
    /// rule allows side by side.
    pub open spec fn consistent(self) -> bool {
        forall|row: int, col: int, side: Side| #[trigger] self.pair_agrees(row, col, side)
    }

    /// Where the cell at (`row`, `col`) is collapsed, its tile allows every
    /// candidate of its neighbour on `side`.
    pub open spec fn backs(self, row: int, col: int, side: Side) -> bool {
        self.in_bounds(row, col) && self.has_neighbour(row, col, side) && self.at(
            row,
            col,
        ).collapsed ==> forall|w: Variant|
            self.neighbour(row, col, side).candidates.contains(w) ==> allows(
                self.set,
                self.tile(row, col),
                side,
                w,
            )
    }

    /// Every candidate of every cell is allowed by each collapsed cell next
    /// to it.  This is what propagation establishes around a collapsed
    /// cell, and what makes the next collapse safe.
    pub open spec fn supported(self) -> bool {
        forall|row: int, col: int, side: Side| #[trigger] self.backs(row, col, side)
    }

    /// The state between a collapse at (`row`, `col`) and the end of the
    /// propagation from it: every other collapsed cell backs its
    /// neighbours, and the collapsed cell agrees with its collapsed
    /// neighbours.
    pub open spec fn supported_around(self, row: int, col: int) -> bool {
        &&& forall|r: int, c: int, side: Side|
            r != row || c != col ==> #[trigger] self.backs(r, c, side)
        &&& forall|side: Side| #[trigger] self.pair_agrees(row, col, side)
    }
}

/// Whether the cell `b` is the cell `a` with some candidates taken away:
/// the collapsed flag is the same, a collapsed cell is untouched, and `b`
/// has no candidate that `a` lacks.
pub open spec fn cell_shrinks(a: CellView, b: CellView) -> bool {
    &&& b.collapsed == a.collapsed
    &&& a.collapsed ==> b == a
    &&& forall|w: Variant| #[trigger] b.candidates.contains(w) ==> a.candidates.contains(w)
}

/// Whether `h` is `g` with some candidates taken away from some cells.
pub open spec fn grid_shrinks(g: GridView, h: GridView) -> bool {
    &&& h.n == g.n
    &&& h.set == g.set
    &&& forall|r: int, c: int|
        g.in_bounds(r, c) ==> cell_shrinks(g.at(r, c), #[trigger] h.at(r, c))
}

/// Taking candidates away does not break backing.
pub proof fn lemma_shrink_backs(g: GridView, h: GridView, row: int, col: int, side: Side)
    requires
        grid_shrinks(g, h),
        g.backs(row, col, side),
    ensures
        h.backs(row, col, side),
{
    if h.in_bounds(row, col) && h.has_neighbour(row, col, side) && h.at(row, col).collapsed {
        assert(cell_shrinks(g.at(row, col), h.at(row, col)));
        assert(cell_shrinks(
            g.at(row + side.d_row(), col + side.d_col()),
            h.at(row + side.d_row(), col + side.d_col()),
        ));
        assert(h.tile(row, col) == g.tile(row, col));
        assert forall|w: Variant| h.neighbour(row, col, side).candidates.contains(w) implies allows(
            h.set,
            h.tile(row, col),
            side,
            w,
        ) by {
            assert(g.neighbour(row, col, side).candidates.contains(w));
        }
    }
}

/// Taking candidates away does not break the agreement of collapsed cells.
pub proof fn lemma_shrink_agrees(g: GridView, h: GridView, row: int, col: int, side: Side)
    requires
        grid_shrinks(g, h),
        g.pair_agrees(row, col, side),
    ensures
        h.pair_agrees(row, col, side),
{
    if h.in_bounds(row, col) && h.has_neighbour(row, col, side) {
        assert(cell_shrinks(g.at(row, col), h.at(row, col)));
        assert(cell_shrinks(
            g.at(row + side.d_row(), col + side.d_col()),
            h.at(row + side.d_row(), col + side.d_col()),
        ));
    }
}

/// Narrowing a neighbour only takes candidates away.
pub proof fn lemma_narrow_side_shrinks(g: GridView, row: int, col: int, side: Side)
    requires
        g.wf(),
        g.in_bounds(row, col),
    ensures
        grid_shrinks(g, g.narrow_side(row, col, side)),
{
    let h = g.narrow_side(row, col, side);
    assert forall|r: int, c: int| g.in_bounds(r, c) implies cell_shrinks(
        g.at(r, c),
        #[trigger] h.at(r, c),
    ) by {
        if r != row + side.d_row() || c != col + side.d_col() {
            lemma_narrow_side_frame(g, row, col, side, r, c);
        } else {
            lemma_index(g.n, r, c);
            lemma_filter_members(g.at(r, c).candidates, g.keeps(row, col, side));
        }
    }
}

/// Taking candidates away twice is taking candidates away.
pub proof fn lemma_shrinks_transitive(a: GridView, b: GridView, c: GridView)
    requires
        grid_shrinks(a, b),
        grid_shrinks(b, c),
    ensures
        grid_shrinks(a, c),
{
    assert forall|row: int, col: int| a.in_bounds(row, col) implies cell_shrinks(
        a.at(row, col),
        #[trigger] c.at(row, col),
    ) by {
        assert(cell_shrinks(a.at(row, col), b.at(row, col)));
        assert(cell_shrinks(b.at(row, col), c.at(row, col)));
    }
}

/// Propagation only takes candidates away.
pub proof fn lemma_propagation_shrinks(g: GridView, row: int, col: int)
    requires
        g.wf(),
        g.in_bounds(row, col),
    ensures
        grid_shrinks(g, g.after_propagation(row, col)),
{
    lemma_propagation_stages(g, row, col);
    lemma_narrow_side_shrinks(g, row, col, Side::Left);
    assert(grid_shrinks(g, g)) by {
        assert forall|r: int, c: int| g.in_bounds(r, c) implies cell_shrinks(
            g.at(r, c),
            #[trigger] g.at(r, c),
        ) by {}
    }
    if !g.blocked(row, col, Side::Left) {
        let g1 = g.narrow_side(row, col, Side::Left);
        lemma_narrow_side_shrinks(g1, row, col, Side::Right);
        if !g.blocked(row, col, Side::Right) {
            let g2 = g1.narrow_side(row, col, Side::Right);
            lemma_shrinks_transitive(g, g1, g2);
            lemma_narrow_side_shrinks(g2, row, col, Side::Top);
            if !g.blocked(row, col, Side::Top) {
                let g3 = g2.narrow_side(row, col, Side::Top);
                lemma_shrinks_transitive(g, g2, g3);
                lemma_narrow_side_shrinks(g3, row, col, Side::Bottom);
                if !g.blocked(row, col, Side::Bottom) {
                    lemma_shrinks_transitive(g, g3, g3.narrow_side(row, col, Side::Bottom));
                }
            }
        }
    }
}

/// Propagation keeps adjacent collapsed cells in agreement: it touches no
/// collapsed cell.
pub proof fn lemma_propagation_consistent(g: GridView, row: int, col: int)
    requires
        g.wf(),
        g.in_bounds(row, col),
        g.consistent(),
    ensures
        g.after_propagation(row, col).consistent(),
{
    let h = g.after_propagation(row, col);
    lemma_propagation_shrinks(g, row, col);
    assert forall|r: int, c: int, side: Side| #[trigger] h.pair_agrees(r, c, side) by {
        assert(g.pair_agrees(r, c, side));
        lemma_shrink_agrees(g, h, r, c, side);
    }
}

/// A grid on which nothing is collapsed is supported.
pub proof fn lemma_fresh_supported(n: int, set: VariantSet)
    requires
        n >= 1,
    ensures
        GridView::fresh(n, set).wf(),
        GridView::fresh(n, set).supported(),
        !GridView::fresh(n, set).is_complete(),
{
    let g = GridView::fresh(n, set);
    assert(n * n >= 1) by (nonlinear_arith)
        requires
            n >= 1,
    ;
    assert(set.alphabet().no_duplicates());
    assert forall|row: int, col: int, side: Side| #[trigger] g.backs(row, col, side) by {
        if g.in_bounds(row, col) {
            lemma_index(n, row, col);
        }
    }
    assert(!g.cells[0].collapsed);
}

/// A grid of a single cell is supported whatever its cell holds.
pub proof fn lemma_single_cell_supported(g: GridView, v: Variant)
    requires
        g.wf(),
        g.n == 1,
    ensures
        g.collapsed_to(0, 0, v).after_propagation(0, 0).supported(),
        g.collapsed_to(0, 0, v).after_propagation(0, 0).consistent(),
{
    let h = g.collapsed_to(0, 0, v).after_propagation(0, 0);
    assert(h.n == 1);
    assert forall|r: int, c: int, side: Side| #[trigger] h.backs(r, c, side) by {}
    assert forall|r: int, c: int, side: Side| #[trigger] h.pair_agrees(r, c, side) by {}
}

/// In a supported grid adjacent collapsed cells agree.
pub proof fn lemma_supported_consistent(g: GridView)
    requires
        g.wf(),
        g.supported(),
    ensures
        g.consistent(),
{
    assert forall|row: int, col: int, side: Side| #[trigger] g.pair_agrees(row, col, side) by {
        assert(g.backs(row, col, side));
        if g.in_bounds(row, col) && g.has_neighbour(row, col, side) {
            lemma_index(g.n, row + side.d_row(), col + side.d_col());
            let nb = g.neighbour(row, col, side);
            assert(nb.wf());
            assert(nb.candidates.contains(nb.candidates[0]));
        }
    }
}

/// Between collapse and propagation adjacent collapsed cells agree.
pub proof fn lemma_around_consistent(g: GridView, row: int, col: int)
    requires
        g.wf(),
        g.supported_around(row, col),
    ensures
        g.consistent(),
{
    assert forall|r: int, c: int, side: Side| #[trigger] g.pair_agrees(r, c, side) by {
        if r != row || c != col {
            assert(g.backs(r, c, side));
            if g.in_bounds(r, c) && g.has_neighbour(r, c, side) {
                lemma_index(g.n, r + side.d_row(), c + side.d_col());
                let nb = g.neighbour(r, c, side);
                assert(nb.wf());
                assert(nb.candidates.contains(nb.candidates[0]));
            }
        } else {
            assert(g.pair_agrees(row, col, side));
        }
    }
}

/// Collapsing a cell of a supported grid to one of its candidates leaves
/// every other collapsed cell backing its neighbours, and the new tile in
/// agreement with the collapsed cells around it.
pub proof fn lemma_collapse_supported_around(g: GridView, row: int, col: int, v: Variant)
    requires
        g.wf(),
        g.supported(),
        g.in_bounds(row, col),
        g.at(row, col).candidates.contains(v),
    ensures
        g.collapsed_to(row, col, v).wf(),
        g.collapsed_to(row, col, v).supported_around(row, col),
{
    let h = g.collapsed_to(row, col, v);
    lemma_index(g.n, row, col);
    lemma_collapse_wf(g, row, col, v);
    assert forall|r: int, c: int, side: Side| r != row || c != col implies #[trigger] h.backs(
        r,
        c,
        side,
    ) by {
        assert(g.backs(r, c, side));
        if h.in_bounds(r, c) && h.has_neighbour(r, c, side) {
            let nr = r + side.d_row();
            let nc = c + side.d_col();
            lemma_index(g.n, r, c);
            lemma_index(g.n, nr, nc);
            assert(h.at(r, c) == g.at(r, c));
            if nr == row && nc == col {
                assert(h.neighbour(r, c, side).candidates =~= seq![v]);
                assert forall|w: Variant|
                    h.neighbour(r, c, side).candidates.contains(w) implies g.neighbour(
                    r,
                    c,
                    side,
                ).candidates.contains(w) by {
                    assert(w == seq![v][0]);
                }
            } else {
                assert(h.neighbour(r, c, side) == g.neighbour(r, c, side));
            }
            assert(h.tile(r, c) == g.tile(r, c));
        }
    }
    assert forall|side: Side| #[trigger] h.pair_agrees(row, col, side) by {
        if h.has_neighbour(row, col, side) {
            let nr = row + side.d_row();
            let nc = col + side.d_col();
            lemma_index(g.n, nr, nc);
            assert(h.neighbour(row, col, side) == g.at(nr, nc));
            if g.at(nr, nc).collapsed {
                let back = side.opposite_spec();
                assert(g.backs(nr, nc, back));
                assert(nr + back.d_row() == row && nc + back.d_col() == col);
                assert(g.has_neighbour(nr, nc, back));
                assert(g.neighbour(nr, nc, back) == g.at(row, col));
                lemma_allows_symmetric(g.set, g.tile(nr, nc), back, v);
                assert(h.tile(row, col) == v);
            }
        }
    }
}

/// Narrowing one neighbour of the collapsed cell at (`row`, `col`) keeps
/// what the collapse left true, and makes the cell back that neighbour.
pub proof fn lemma_narrow_side_supports(g: GridView, row: int, col: int, side: Side)
    requires
        g.wf(),
        g.in_bounds(row, col),
        g.at(row, col).collapsed,
        g.supported_around(row, col),
        !g.blocked(row, col, side),
    ensures
        g.narrow_side(row, col, side).wf(),
        g.narrow_side(row, col, side).supported_around(row, col),
        g.narrow_side(row, col, side).backs(row, col, side),
        forall|other: Side|
            g.backs(row, col, other) ==> g.narrow_side(row, col, side).backs(row, col, other),
{
    let h = g.narrow_side(row, col, side);
    lemma_narrow_side_wf(g, row, col, side);
    lemma_narrow_side_shrinks(g, row, col, side);
    assert forall|r: int, c: int, s: Side| r != row || c != col implies #[trigger] h.backs(
        r,
        c,
        s,
    ) by {
        assert(g.backs(r, c, s));
        lemma_shrink_backs(g, h, r, c, s);
    }
    assert forall|s: Side| #[trigger] h.pair_agrees(row, col, s) by {
        assert(g.pair_agrees(row, col, s));
        lemma_shrink_agrees(g, h, row, col, s);
    }
    assert forall|other: Side| g.backs(row, col, other) implies h.backs(row, col, other) by {
        lemma_shrink_backs(g, h, row, col, other);
    }
    lemma_narrow_side_backs(g, row, col, side);
}

/// After the neighbour on `side` has been narrowed, the collapsed cell
/// backs it.
pub proof fn lemma_narrow_side_backs(g: GridView, row: int, col: int, side: Side)
    requires
        g.wf(),
        g.in_bounds(row, col),
        g.at(row, col).collapsed,
        g.pair_agrees(row, col, side),
    ensures
        g.narrow_side(row, col, side).backs(row, col, side),
{
    let h = g.narrow_side(row, col, side);
    if g.has_neighbour(row, col, side) {
        let nr = row + side.d_row();
        let nc = col + side.d_col();
        lemma_index(g.n, nr, nc);
        lemma_index(g.n, row, col);
        lemma_narrow_side_frame(g, row, col, side, row, col);
        let keep = g.keeps(row, col, side);
        let before = g.at(nr, nc);
        assert(h.at(nr, nc) == before.narrowed(keep));
        assert(h.tile(row, col) == g.tile(row, col));
        if before.collapsed {
            assert(before.wf());
            assert forall|w: Variant| before.candidates.contains(w) implies w
                == before.candidates[0] by {}
        } else {
            lemma_filter_members(before.candidates, keep);
        }
    }
}

/// A grid in which the collapsed cell at (`row`, `col`) backs all four
/// neighbours, and every other collapsed cell backs its own, is supported.
pub proof fn lemma_around_supported(g: GridView, row: int, col: int)
    requires
        g.supported_around(row, col),
        forall|side: Side| g.backs(row, col, side),
    ensures
        g.supported(),
{
    assert forall|r: int, c: int, side: Side| #[trigger] g.backs(r, c, side) by {
        if r == row && c == col {
            assert(g.backs(row, col, side));
        }
    }
}

/// Propagation after a collapse keeps adjacent collapsed cells in
/// agreement, and where it meets no contradiction the grid is supported
/// again.
pub proof fn lemma_propagation_supports(g: GridView, row: int, col: int)
    requires
        g.wf(),
        g.in_bounds(row, col),
        g.at(row, col).collapsed,
        g.supported_around(row, col),
    ensures
        g.after_propagation(row, col).wf(),
        g.after_propagation(row, col).consistent(),
        g.first_blocked(row, col) is None ==> g.after_propagation(row, col).supported(),
{
    lemma_propagation_stages(g, row, col);
    lemma_around_consistent(g, row, col);
    if !g.blocked(row, col, Side::Left) {
        let g1 = g.narrow_side(row, col, Side::Left);
        lemma_narrow_side_supports(g, row, col, Side::Left);
        lemma_around_consistent(g1, row, col);
        if !g.blocked(row, col, Side::Right) {
            let g2 = g1.narrow_side(row, col, Side::Right);
            lemma_narrow_side_supports(g1, row, col, Side::Right);
            lemma_around_consistent(g2, row, col);
            if !g.blocked(row, col, Side::Top) {
                let g3 = g2.narrow_side(row, col, Side::Top);
                lemma_narrow_side_supports(g2, row, col, Side::Top);
                lemma_around_consistent(g3, row, col);
                if !g.blocked(row, col, Side::Bottom) {
                    let g4 = g3.narrow_side(row, col, Side::Bottom);
                    lemma_narrow_side_supports(g3, row, col, Side::Bottom);
                    lemma_around_consistent(g4, row, col);
                    assert forall|side: Side| g4.backs(row, col, side) by {
                        match side {
                            Side::Left => {
                                assert(g1.backs(row, col, Side::Left));
                                assert(g2.backs(row, col, Side::Left));
                                assert(g3.backs(row, col, Side::Left));
                            },
                            Side::Right => {
                                assert(g2.backs(row, col, Side::Right));
                                assert(g3.backs(row, col, Side::Right));
                            },
                            Side::Top => {
                                assert(g3.backs(row, col, Side::Top));
                            },
                            Side::Bottom => {},
                        }
                    }
                    lemma_around_supported(g4, row, col);
                }
            }
        }
    }
}

/// Propagating twice from the same collapsed cell does no more than
/// propagating once: the second propagation changes nothing and reports
/// what the first one reported.
pub proof fn lemma_propagation_idempotent(g: GridView, row: int, col: int)
    requires
        g.wf(),
        g.in_bounds(row, col),
        g.at(row, col).collapsed,
    ensures
        g.after_propagation(row, col).after_propagation(row, col) == g.after_propagation(
            row,
            col,
        ),
        g.after_propagation(row, col).propagation_outcome(row, col) == g.propagation_outcome(
            row,
            col,
        ),
{
    lemma_propagation_stages(g, row, col);
    let h = g.after_propagation(row, col);
    lemma_index(g.n, row, col);
    if !g.blocked(row, col, Side::Left) {
        let g1 = g.narrow_side(row, col, Side::Left);
        lemma_narrow_side_settled(g, row, col, Side::Left);
        if !g.blocked(row, col, Side::Right) {
            let g2 = g1.narrow_side(row, col, Side::Right);
            lemma_narrow_side_settled(g1, row, col, Side::Right);
            lemma_narrow_side_apart(g1, row, col, Side::Right, Side::Left);
            if !g.blocked(row, col, Side::Top) {
                let g3 = g2.narrow_side(row, col, Side::Top);
                lemma_narrow_side_settled(g2, row, col, Side::Top);
                lemma_narrow_side_apart(g2, row, col, Side::Top, Side::Left);
                lemma_narrow_side_apart(g2, row, col, Side::Top, Side::Right);
                if !g.blocked(row, col, Side::Bottom) {
                    let g4 = g3.narrow_side(row, col, Side::Bottom);
                    lemma_narrow_side_settled(g3, row, col, Side::Bottom);
                    lemma_narrow_side_apart(g3, row, col, Side::Bottom, Side::Left);
                    lemma_narrow_side_apart(g3, row, col, Side::Bottom, Side::Right);
                    lemma_narrow_side_apart(g3, row, col, Side::Bottom, Side::Top);
                }
            }
        }
    }
}

/// Whether narrowing on `side` from (`row`, `col`) has nothing left to do:
/// it would change nothing and would not empty the neighbour.
pub open spec fn settled(g: GridView, row: int, col: int, side: Side) -> bool {
    g.narrow_side(row, col, side) == g && !g.blocked(row, col, side)
}

/// Once a neighbour has been narrowed, narrowing it again has nothing left
/// to do.
pub proof fn lemma_narrow_side_settled(g: GridView, row: int, col: int, side: Side)
    requires
        g.wf(),
        g.in_bounds(row, col),
        !g.blocked(row, col, side),
    ensures
        settled(g.narrow_side(row, col, side), row, col, side),
{
    let h = g.narrow_side(row, col, side);
    if g.has_neighbour(row, col, side) {
        let nr = row + side.d_row();
        let nc = col + side.d_col();
        lemma_index(g.n, nr, nc);
        lemma_index(g.n, row, col);
        lemma_narrow_side_frame(g, row, col, side, row, col);
        let keep = g.keeps(row, col, side);
        assert(h.keeps(row, col, side) == keep);
        lemma_filter_twice(g.at(nr, nc).candidates, keep);
        assert(h.at(nr, nc).narrowed(keep) == h.at(nr, nc));
        assert(h.narrow_side(row, col, side).cells =~= h.cells);
    }
}

/// Narrowing on one side does not undo that another side is settled.
pub proof fn lemma_narrow_side_apart(g: GridView, row: int, col: int, done: Side, other: Side)
    requires
        g.wf(),
        g.in_bounds(row, col),
        done != other,
        settled(g, row, col, other),
    ensures
        settled(g.narrow_side(row, col, done), row, col, other),
{
    let h = g.narrow_side(row, col, done);
    lemma_narrow_side_keeps_blocked(g, row, col, done, other);
    lemma_index(g.n, row, col);
    if g.has_neighbour(row, col, other) {
        let nr = row + other.d_row();
        let nc = col + other.d_col();
        lemma_index(g.n, nr, nc);
        lemma_narrow_side_frame(g, row, col, done, nr, nc);
        assert(g.narrow_side(row, col, other).cells[g.index(nr, nc)] == g.cells[g.index(
            nr,
            nc,
        )]);
        if g.has_neighbour(row, col, done) {
            lemma_index(g.n, row + done.d_row(), col + done.d_col());
        }
        assert(h.keeps(row, col, other) == g.keeps(row, col, other));
        assert(h.narrow_side(row, col, other).cells =~= h.cells);
    }
}

} // verus!
