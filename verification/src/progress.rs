//! The measure of the solver: the number of cells that are still open.
//! Collapsing an open cell lowers it by one and propagation leaves it as it
//! is, which is why the solver stops.

use vstd::prelude::*;
use crate::candidates::lemma_filter_members;
use crate::grid::{count_open, lemma_collapse_wf, lemma_index, lemma_propagation_stages,
    CellView, GridView};
use crate::tile::{Side, Variant};

verus! {

/// What a cell adds to the number of open cells.
pub open spec fn open_weight(c: CellView) -> nat {
    if c.collapsed {
        0
    } else {
        1
    }
}

/// Replacing one cell changes the number of open cells by the difference
/// between what the new cell adds and what the old one added.
pub proof fn lemma_count_open_update(cells: Seq<CellView>, i: int, c: CellView)
    requires
        0 <= i < cells.len(),
    ensures
        count_open(cells.update(i, c)) + open_weight(cells[i]) == count_open(cells) + open_weight(
            c,
        ),
    decreases cells.len(),
{
    if i == cells.len() - 1 {
        assert(cells.update(i, c).drop_last() =~= cells.drop_last());
    } else {
        lemma_count_open_update(cells.drop_last(), i, c);
        assert(cells.update(i, c).drop_last() =~= cells.drop_last().update(i, c));
    }
}

/// No cell is open exactly when every cell is collapsed.
pub proof fn lemma_count_open_zero(cells: Seq<CellView>)
    ensures
        count_open(cells) == 0 <==> forall|i: int|
            0 <= i < cells.len() ==> (#[trigger] cells[i]).collapsed,
    decreases cells.len(),
{
    if cells.len() > 0 {
        let rest = cells.drop_last();
        lemma_count_open_zero(rest);
        if count_open(cells) == 0 {
            assert forall|i: int| 0 <= i < cells.len() implies (#[trigger] cells[i]).collapsed by {
                if i < cells.len() - 1 {
                    assert(rest[i].collapsed);
                }
            }
        }
        if forall|i: int| 0 <= i < cells.len() ==> (#[trigger] cells[i]).collapsed {
            assert forall|i: int| 0 <= i < rest.len() implies (#[trigger] rest[i]).collapsed by {
                assert(cells[i].collapsed);
            }
            assert(cells[cells.len() - 1].collapsed);
        }
    }
}

/// There are no more open cells than cells.
pub proof fn lemma_count_open_bound(cells: Seq<CellView>)
    ensures
        count_open(cells) <= cells.len(),
    decreases cells.len(),
{
    if cells.len() > 0 {
        lemma_count_open_bound(cells.drop_last());
    }
}

/// There are no more open cells than cells.
pub proof fn lemma_open_cells_bound(g: GridView)
    ensures
        g.open_cells() <= g.cells.len(),
{
    lemma_count_open_bound(g.cells);
}

/// A grid is complete exactly when it has no open cell.
pub proof fn lemma_complete_no_open_cells(g: GridView)
    ensures
        g.is_complete() <==> g.open_cells() == 0,
{
    lemma_count_open_zero(g.cells);
}

/// Collapsing an open cell lowers the number of open cells by one;
/// collapsing a collapsed cell again leaves it as it is.
pub proof fn lemma_collapse_open_cells(g: GridView, row: int, col: int, v: Variant)
    requires
        g.wf(),
        g.in_bounds(row, col),
    ensures
        g.collapsed_to(row, col, v).open_cells() + open_weight(g.at(row, col)) == g.open_cells(),
{
    lemma_index(g.n, row, col);
    lemma_count_open_update(g.cells, g.index(row, col), g.at(row, col).fixed(v));
}

/// Narrowing a neighbour opens and closes no cell.
pub proof fn lemma_narrow_side_open_cells(g: GridView, row: int, col: int, side: Side)
    requires
        g.wf(),
        g.in_bounds(row, col),
    ensures
        g.narrow_side(row, col, side).open_cells() == g.open_cells(),
{
    if g.has_neighbour(row, col, side) {
        let nr = row + side.d_row();
        let nc = col + side.d_col();
        lemma_index(g.n, nr, nc);
        lemma_count_open_update(
            g.cells,
            g.index(nr, nc),
            g.at(nr, nc).narrowed(g.keeps(row, col, side)),
        );
    }
}

/// Propagation opens and closes no cell.
pub proof fn lemma_propagation_open_cells(g: GridView, row: int, col: int)
    requires
        g.wf(),
        g.in_bounds(row, col),
    ensures
        g.after_propagation(row, col).open_cells() == g.open_cells(),
{
    lemma_propagation_stages(g, row, col);
    lemma_narrow_side_open_cells(g, row, col, Side::Left);
    if !g.blocked(row, col, Side::Left) {
        let g1 = g.narrow_side(row, col, Side::Left);
        lemma_narrow_side_open_cells(g1, row, col, Side::Right);
        if !g.blocked(row, col, Side::Right) {
            let g2 = g1.narrow_side(row, col, Side::Right);
            lemma_narrow_side_open_cells(g2, row, col, Side::Top);
            if !g.blocked(row, col, Side::Top) {
                let g3 = g2.narrow_side(row, col, Side::Top);
                lemma_narrow_side_open_cells(g3, row, col, Side::Bottom);
            }
        }
    }
}

impl GridView {
    /// Whether this grid can have come from `earlier` by collapsing and
    /// narrowing: the shape is the same, every cell that was collapsed is
    /// untouched, and no cell has a candidate that it lacked before.
    pub open spec fn extends(self, earlier: GridView) -> bool {
        &&& self.n == earlier.n
        &&& self.set == earlier.set
        &&& self.cells.len() == earlier.cells.len()
        &&& forall|i: int|
            0 <= i < self.cells.len() ==> {
                &&& earlier.cells[i].collapsed ==> (#[trigger] self.cells[i]) == earlier.cells[i]
                &&& forall|w: Variant|
                    self.cells[i].candidates.contains(w) ==> earlier.cells[i].candidates.contains(
                        w,
                    )
            }
    }
}

/// Narrowing a neighbour extends the grid.
pub proof fn lemma_narrow_side_extends(g: GridView, row: int, col: int, side: Side)
    requires
        g.wf(),
        g.in_bounds(row, col),
    ensures
        g.narrow_side(row, col, side).extends(g),
{
    if g.has_neighbour(row, col, side) {
        let nr = row + side.d_row();
        let nc = col + side.d_col();
        lemma_index(g.n, nr, nc);
        lemma_filter_members(g.at(nr, nc).candidates, g.keeps(row, col, side));
    }
}

/// Extending is transitive.
pub proof fn lemma_extends_transitive(a: GridView, b: GridView, c: GridView)
    requires
        b.extends(a),
        c.extends(b),
    ensures
        c.extends(a),
{
    assert forall|i: int| 0 <= i < c.cells.len() implies {
        &&& a.cells[i].collapsed ==> (#[trigger] c.cells[i]) == a.cells[i]
        &&& forall|w: Variant|
            c.cells[i].candidates.contains(w) ==> a.cells[i].candidates.contains(w)
    } by {
        let bi = b.cells[i];
        assert(a.cells[i].collapsed ==> bi == a.cells[i]);
        assert forall|w: Variant| c.cells[i].candidates.contains(w) implies a.cells[
            i
        ].candidates.contains(w) by {
            assert(bi.candidates.contains(w));
        }
    }
}

/// Propagation extends the grid.
pub proof fn lemma_propagation_extends(g: GridView, row: int, col: int)
    requires
        g.wf(),
        g.in_bounds(row, col),
    ensures
        g.after_propagation(row, col).extends(g),
{
    lemma_propagation_stages(g, row, col);
    lemma_narrow_side_extends(g, row, col, Side::Left);
    if !g.blocked(row, col, Side::Left) {
        let g1 = g.narrow_side(row, col, Side::Left);
        lemma_narrow_side_extends(g1, row, col, Side::Right);
        if !g.blocked(row, col, Side::Right) {
            let g2 = g1.narrow_side(row, col, Side::Right);
            lemma_extends_transitive(g, g1, g2);
            lemma_narrow_side_extends(g2, row, col, Side::Top);
            if !g.blocked(row, col, Side::Top) {
                let g3 = g2.narrow_side(row, col, Side::Top);
                lemma_extends_transitive(g, g2, g3);
                lemma_narrow_side_extends(g3, row, col, Side::Bottom);
                if !g.blocked(row, col, Side::Bottom) {
                    lemma_extends_transitive(g, g3, g3.narrow_side(row, col, Side::Bottom));
                }
            }
        }
    }
}

/// Collapsing a cell to one of its candidates, then propagating, extends
/// the grid.
pub proof fn lemma_collapse_extends(g: GridView, row: int, col: int, v: Variant)
    requires
        g.wf(),
        g.in_bounds(row, col),
        g.at(row, col).candidates.contains(v),
    ensures
        g.collapsed_to(row, col, v).after_propagation(row, col).extends(g),
{
    let h = g.collapsed_to(row, col, v);
    lemma_index(g.n, row, col);
    lemma_collapse_wf(g, row, col, v);
    assert(h.extends(g)) by {
        let i = g.index(row, col);
        assert(g.cells[i].wf());
        if g.cells[i].collapsed {
            assert(g.cells[i].candidates =~= seq![v]);
        }
        assert forall|w: Variant| h.cells[i].candidates.contains(w) implies g.cells[
            i
        ].candidates.contains(w) by {
            assert(w == seq![v][0]);
        }
    }
    lemma_propagation_extends(h, row, col);
    lemma_extends_transitive(g, h, h.after_propagation(row, col));
}

} // verus!
