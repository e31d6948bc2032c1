//! The grid of cells and the narrowing of neighbours after a collapse.

use vstd::prelude::*;
use vstd::arithmetic::div_mod::{lemma_fundamental_div_mod, lemma_fundamental_div_mod_converse};
use crate::candidates::{intersection, member_of, lemma_filter_agree,
    lemma_filter_no_duplicates, lemma_same_tiles};
use crate::consistency::{lemma_collapse_supported_around, lemma_fresh_supported,
    lemma_propagation_consistent, lemma_propagation_supports};
use crate::error::WfcError;
use crate::tile::{allowed_by, permitted, Side, Variant, VariantSet};

verus! {

/// One cell of the grid.
#[derive(Clone, Debug)]
pub struct Cell {
    /// Whether the tile of this cell has been fixed.
    pub collapsed: bool,
    /// The tiles still possible here, without repetition.
    pub candidates: Vec<Variant>,
    /// Row of the cell, counted from the top.
    pub row: usize,
    /// Column of the cell, counted from the left.
    pub col: usize,
}

/// The mathematical content of a [`Cell`].
pub struct CellView {
    pub collapsed: bool,
    pub candidates: Seq<Variant>,
    pub row: int,
    pub col: int,
}

impl View for Cell {
    type V = CellView;

    open spec fn view(&self) -> CellView {
        CellView {
            collapsed: self.collapsed,
            candidates: self.candidates@,
            row: self.row as int,
            col: self.col as int,
        }
    }
}

impl CellView {
    /// The invariant of a cell: at least one candidate, none twice, and
    /// exactly one once the cell is collapsed.
    pub open spec fn wf(self) -> bool {
        &&& self.candidates.len() >= 1
        &&& self.candidates.no_duplicates()
        &&& self.collapsed ==> self.candidates.len() == 1
    }

    /// The cell with its candidates cut down to those that pass `keep`;
    /// a collapsed cell stays as it is.
    pub open spec fn narrowed(self, keep: spec_fn(Variant) -> bool) -> CellView {
        if self.collapsed {
            self
        } else {
            CellView { candidates: self.candidates.filter(keep), ..self }
        }
    }

    /// The cell fixed to the tile `v`.
    pub open spec fn fixed(self, v: Variant) -> CellView {
        CellView { collapsed: true, candidates: seq![v], ..self }
    }
}

/// Number of cells in `cells` that are not collapsed.
pub open spec fn count_open(cells: Seq<CellView>) -> nat
    decreases cells.len(),
{
    if cells.len() == 0 {
        0
    } else {
        count_open(cells.drop_last()) + if cells.last().collapsed {
            0nat
        } else {
            1nat
        }
    }
}

/// The mathematical content of a [`Grid`]: its side, its alphabet and its
/// cells in row-major order.
pub struct GridView {
    pub n: int,
    pub set: VariantSet,
    pub cells: Seq<CellView>,
}

impl GridView {
    /// Whether (`row`, `col`) names a cell of the grid.
    pub open spec fn in_bounds(self, row: int, col: int) -> bool {
        0 <= row < self.n && 0 <= col < self.n
    }

    /// Position of the cell (`row`, `col`) in `cells`.
    pub open spec fn index(self, row: int, col: int) -> int {
        row * self.n + col
    }

    /// The cell at (`row`, `col`).
    pub open spec fn at(self, row: int, col: int) -> CellView {
        self.cells[self.index(row, col)]
    }

    /// The tile of the cell at (`row`, `col`), meaningful once it is
    /// collapsed: its first candidate.
    pub open spec fn tile(self, row: int, col: int) -> Variant {
        self.at(row, col).candidates[0]
    }

    /// The invariant of a grid: a positive side, one cell per position,
    /// every cell well formed and labelled with its own coordinates.
    pub open spec fn wf(self) -> bool {
        &&& self.n >= 1
        &&& self.cells.len() == self.n * self.n
        &&& forall|i: int|
            0 <= i < self.cells.len() ==> {
                &&& (#[trigger] self.cells[i]).wf()
                &&& self.cells[i].row == i / self.n
                &&& self.cells[i].col == i % self.n
            }
    }

    /// The grid of side `n` on which nothing has been decided: every cell
    /// uncollapsed, with the whole alphabet as its candidates.
    pub open spec fn fresh(n: int, set: VariantSet) -> GridView {
        GridView {
            n,
            set,
            cells: Seq::new(
                (n * n) as nat,
                |i: int|
                    CellView {
                        collapsed: false,
                        candidates: set.alphabet(),
                        row: i / n,
                        col: i % n,
                    },
            ),
        }
    }

    /// Whether every cell is collapsed.
    pub open spec fn is_complete(self) -> bool {
        forall|i: int| 0 <= i < self.cells.len() ==> (#[trigger] self.cells[i]).collapsed
    }

    /// Number of cells that are not collapsed yet.
    pub open spec fn open_cells(self) -> nat {
        count_open(self.cells)
    }

    /// The grid with the cell at (`row`, `col`) replaced by `cell`.
    pub open spec fn with_cell(self, row: int, col: int, cell: CellView) -> GridView {
        GridView { cells: self.cells.update(self.index(row, col), cell), ..self }
    }

    /// The grid after the cell at (`row`, `col`) is fixed to `v`.
    pub open spec fn collapsed_to(self, row: int, col: int, v: Variant) -> GridView {
        self.with_cell(row, col, self.at(row, col).fixed(v))
    }

    /// The grid with the candidates of the cell at (`row`, `col`) put in
    /// the order `order`.
    pub open spec fn reordered(self, row: int, col: int, order: Seq<Variant>) -> GridView {
        self.with_cell(row, col, CellView { candidates: order, ..self.at(row, col) })
    }

    /// Whether the cell at (`row`, `col`) has a neighbour on `side`.
    pub open spec fn has_neighbour(self, row: int, col: int, side: Side) -> bool {
        self.in_bounds(row + side.d_row(), col + side.d_col())
    }

    /// The neighbour of (`row`, `col`) on `side`.
    pub open spec fn neighbour(self, row: int, col: int, side: Side) -> CellView {
        self.at(row + side.d_row(), col + side.d_col())
    }

    /// What the tile of the collapsed cell at (`row`, `col`) permits on
    /// `side`, as a predicate on tiles.
    pub open spec fn keeps(self, row: int, col: int, side: Side) -> spec_fn(Variant) -> bool {
        allowed_by(self.set, self.tile(row, col), side)
    }

    /// Whether narrowing the neighbour on `side` of the collapsed cell at
    /// (`row`, `col`) would leave that neighbour without a candidate.
    pub open spec fn blocked(self, row: int, col: int, side: Side) -> bool {
        &&& self.has_neighbour(row, col, side)
        &&& !self.neighbour(row, col, side).collapsed
        &&& self.neighbour(row, col, side).candidates.filter(self.keeps(row, col, side)).len()
            == 0
    }

    /// The grid after the neighbour on `side` of the collapsed cell at
    /// (`row`, `col`) is narrowed to what that cell permits there.  Without
    /// a neighbour on that side, or with a collapsed one, nothing changes.
    pub open spec fn narrow_side(self, row: int, col: int, side: Side) -> GridView {
        if self.has_neighbour(row, col, side) {
            self.with_cell(
                row + side.d_row(),
                col + side.d_col(),
                self.neighbour(row, col, side).narrowed(self.keeps(row, col, side)),
            )
        } else {
            self
        }
    }

    /// The first side, in the order left, right, top, bottom, on which
    /// narrowing would empty the neighbour.
    pub open spec fn first_blocked(self, row: int, col: int) -> Option<Side> {
        if self.blocked(row, col, Side::Left) {
            Some(Side::Left)
        } else if self.blocked(row, col, Side::Right) {
            Some(Side::Right)
        } else if self.blocked(row, col, Side::Top) {
            Some(Side::Top)
        } else if self.blocked(row, col, Side::Bottom) {
            Some(Side::Bottom)
        } else {
            None
        }
    }

    /// The grid after propagation from the collapsed cell at (`row`,
    /// `col`): the neighbours are narrowed in the order left, right, top,
    /// bottom, up to but not including the first one that would be emptied.
    pub open spec fn after_propagation(self, row: int, col: int) -> GridView {
        let left = self.narrow_side(row, col, Side::Left);
        let right = left.narrow_side(row, col, Side::Right);
        let top = right.narrow_side(row, col, Side::Top);
        match self.first_blocked(row, col) {
            Some(Side::Left) => self,
            Some(Side::Right) => left,
            Some(Side::Top) => right,
            Some(Side::Bottom) => top,
            None => top.narrow_side(row, col, Side::Bottom),
        }
    }

    /// What propagation from the collapsed cell at (`row`, `col`) reports:
    /// success, or the contradiction at the first neighbour that would be
    /// emptied, together with the tile that empties it.
    pub open spec fn propagation_outcome(self, row: int, col: int) -> Result<(), WfcError> {
        match self.first_blocked(row, col) {
            Some(side) => Err(
                WfcError::Contradiction {
                    row: (row + side.d_row()) as usize,
                    col: (col + side.d_col()) as usize,
                    variant: self.tile(row, col),
                },
            ),
            None => Ok(()),
        }
    }
}

/// Narrowing one neighbour leaves every other cell as it was.
pub proof fn lemma_narrow_side_frame(g: GridView, row: int, col: int, side: Side, r: int, c: int)
    requires
        g.wf(),
        g.in_bounds(row, col),
        g.in_bounds(r, c),
        r != row + side.d_row() || c != col + side.d_col(),
    ensures
        g.narrow_side(row, col, side).at(r, c) == g.at(r, c),
{
    lemma_index(g.n, r, c);
    if g.has_neighbour(row, col, side) {
        lemma_index(g.n, row + side.d_row(), col + side.d_col());
    }
}

/// Narrowing the neighbour on one side does not change whether narrowing
/// on another side would empty the neighbour there, nor the tile that
/// propagates.
pub proof fn lemma_narrow_side_keeps_blocked(
    g: GridView,
    row: int,
    col: int,
    done: Side,
    other: Side,
)
    requires
        g.wf(),
        g.in_bounds(row, col),
        done != other,
    ensures
        g.narrow_side(row, col, done).blocked(row, col, other) == g.blocked(row, col, other),
        g.narrow_side(row, col, done).tile(row, col) == g.tile(row, col),
        g.narrow_side(row, col, done).at(row, col) == g.at(row, col),
{
    lemma_narrow_side_frame(g, row, col, done, row, col);
    if g.has_neighbour(row, col, other) {
        lemma_narrow_side_frame(
            g,
            row,
            col,
            done,
            row + other.d_row(),
            col + other.d_col(),
        );
    }
}

/// Narrowing one neighbour keeps the grid well formed as long as that
/// neighbour is not emptied.
pub proof fn lemma_narrow_side_wf(g: GridView, row: int, col: int, side: Side)
    requires
        g.wf(),
        g.in_bounds(row, col),
        !g.blocked(row, col, side),
    ensures
        g.narrow_side(row, col, side).wf(),
        g.narrow_side(row, col, side).n == g.n,
        g.narrow_side(row, col, side).set == g.set,
{
    if g.has_neighbour(row, col, side) {
        let r = row + side.d_row();
        let c = col + side.d_col();
        lemma_index(g.n, r, c);
        let old_cell = g.at(r, c);
        let new_cell = old_cell.narrowed(g.keeps(row, col, side));
        lemma_filter_no_duplicates(old_cell.candidates, g.keeps(row, col, side));
        assert(new_cell.wf());
        let h = g.narrow_side(row, col, side);
        assert forall|i: int| 0 <= i < h.cells.len() implies {
            &&& (#[trigger] h.cells[i]).wf()
            &&& h.cells[i].row == i / h.n
            &&& h.cells[i].col == i % h.n
        } by {
            if i != g.index(r, c) {
                assert(h.cells[i] == g.cells[i]);
            }
        }
    }
}

/// The side of (`row`, `col`) on which the cell (`r`, `c`) lies, if the two
/// are orthogonally adjacent.
pub open spec fn side_towards(row: int, col: int, r: int, c: int) -> Option<Side> {
    if r == row && c == col - 1 {
        Some(Side::Left)
    } else if r == row && c == col + 1 {
        Some(Side::Right)
    } else if r == row - 1 && c == col {
        Some(Side::Top)
    } else if r == row + 1 && c == col {
        Some(Side::Bottom)
    } else {
        None
    }
}

/// Narrowing on `side` changes the neighbour on that side as
/// [`CellView::narrowed`] says and no other cell.
pub proof fn lemma_narrow_side_at(g: GridView, row: int, col: int, side: Side, r: int, c: int)
    requires
        g.wf(),
        g.in_bounds(row, col),
        g.in_bounds(r, c),
    ensures
        g.narrow_side(row, col, side).at(r, c) == if side_towards(row, col, r, c) == Some(side) {
            g.at(r, c).narrowed(g.keeps(row, col, side))
        } else {
            g.at(r, c)
        },
{
    lemma_index(g.n, r, c);
    if side_towards(row, col, r, c) != Some(side) {
        lemma_narrow_side_frame(g, row, col, side, r, c);
    }
}

/// Propagation that meets no contradiction, cell by cell: each neighbour
/// of the collapsed cell is narrowed to what that cell permits on its side,
/// and every other cell is as it was.
pub proof fn lemma_propagation_at(g: GridView, row: int, col: int, r: int, c: int)
    requires
        g.wf(),
        g.in_bounds(row, col),
        g.in_bounds(r, c),
        g.first_blocked(row, col) is None,
    ensures
        g.after_propagation(row, col).at(r, c) == match side_towards(row, col, r, c) {
            Some(side) => g.at(r, c).narrowed(g.keeps(row, col, side)),
            None => g.at(r, c),
        },
{
    lemma_propagation_stages(g, row, col);
    let left = g.narrow_side(row, col, Side::Left);
    let right = left.narrow_side(row, col, Side::Right);
    let top = right.narrow_side(row, col, Side::Top);
    lemma_narrow_side_at(g, row, col, Side::Left, r, c);
    lemma_narrow_side_at(left, row, col, Side::Right, r, c);
    lemma_narrow_side_at(right, row, col, Side::Top, r, c);
    lemma_narrow_side_at(top, row, col, Side::Bottom, r, c);
}

/// The grids that propagation passes through.  As long as no neighbour
/// has been found that would be emptied, each grid on the way is well
/// formed, and narrowing one side has not changed whether a later side
/// would be emptied.  The grid at the end is well formed, and the cell that
/// propagates is as it was.
pub proof fn lemma_propagation_stages(g: GridView, row: int, col: int)
    requires
        g.wf(),
        g.in_bounds(row, col),
    ensures
        ({
            let left = g.narrow_side(row, col, Side::Left);
            let right = left.narrow_side(row, col, Side::Right);
            let top = right.narrow_side(row, col, Side::Top);
            let bottom = top.narrow_side(row, col, Side::Bottom);
            &&& !g.blocked(row, col, Side::Left) ==> {
                &&& left.wf()
                &&& left.at(row, col) == g.at(row, col)
                &&& left.blocked(row, col, Side::Right) == g.blocked(row, col, Side::Right)
                &&& left.blocked(row, col, Side::Top) == g.blocked(row, col, Side::Top)
                &&& left.blocked(row, col, Side::Bottom) == g.blocked(row, col, Side::Bottom)
            }
            &&& !g.blocked(row, col, Side::Left) && !g.blocked(row, col, Side::Right) ==> {
                &&& right.wf()
                &&& right.at(row, col) == g.at(row, col)
                &&& right.blocked(row, col, Side::Top) == g.blocked(row, col, Side::Top)
                &&& right.blocked(row, col, Side::Bottom) == g.blocked(row, col, Side::Bottom)
            }
            &&& !g.blocked(row, col, Side::Left) && !g.blocked(row, col, Side::Right)
                && !g.blocked(row, col, Side::Top) ==> {
                &&& top.wf()
                &&& top.at(row, col) == g.at(row, col)
                &&& top.blocked(row, col, Side::Bottom) == g.blocked(row, col, Side::Bottom)
            }
            &&& g.first_blocked(row, col) is None ==> bottom.wf()
        }),
        g.after_propagation(row, col).wf(),
        g.after_propagation(row, col).n == g.n,
        g.after_propagation(row, col).set == g.set,
        g.after_propagation(row, col).at(row, col) == g.at(row, col),
{
    if !g.blocked(row, col, Side::Left) {
        let left = g.narrow_side(row, col, Side::Left);
        lemma_narrow_side_wf(g, row, col, Side::Left);
        lemma_narrow_side_keeps_blocked(g, row, col, Side::Left, Side::Right);
        lemma_narrow_side_keeps_blocked(g, row, col, Side::Left, Side::Top);
        lemma_narrow_side_keeps_blocked(g, row, col, Side::Left, Side::Bottom);
        if !g.blocked(row, col, Side::Right) {
            let right = left.narrow_side(row, col, Side::Right);
            lemma_narrow_side_wf(left, row, col, Side::Right);
            lemma_narrow_side_keeps_blocked(left, row, col, Side::Right, Side::Top);
            lemma_narrow_side_keeps_blocked(left, row, col, Side::Right, Side::Bottom);
            if !g.blocked(row, col, Side::Top) {
                let top = right.narrow_side(row, col, Side::Top);
                lemma_narrow_side_wf(right, row, col, Side::Top);
                lemma_narrow_side_keeps_blocked(right, row, col, Side::Top, Side::Bottom);
                if !g.blocked(row, col, Side::Bottom) {
                    lemma_narrow_side_wf(top, row, col, Side::Bottom);
                    lemma_narrow_side_keeps_blocked(top, row, col, Side::Bottom, Side::Top);
                }
            }
        }
    }
}

/// Collapsing a cell keeps the grid well formed.
pub proof fn lemma_collapse_wf(g: GridView, row: int, col: int, v: Variant)
    requires
        g.wf(),
        g.in_bounds(row, col),
    ensures
        g.collapsed_to(row, col, v).wf(),
{
    let h = g.collapsed_to(row, col, v);
    lemma_index(g.n, row, col);
    assert(seq![v].no_duplicates());
    assert forall|i: int| 0 <= i < h.cells.len() implies {
        &&& (#[trigger] h.cells[i]).wf()
        &&& h.cells[i].row == i / h.n
        &&& h.cells[i].col == i % h.n
    } by {
        if i != g.index(row, col) {
            assert(h.cells[i] == g.cells[i]);
        }
    }
}

/// Row-major positions stay inside the grid and determine their
/// coordinates.
pub proof fn lemma_index(n: int, row: int, col: int)
    requires
        0 <= row < n,
        0 <= col < n,
    ensures
        0 <= row * n + col < n * n,
        (row * n + col) / n == row,
        (row * n + col) % n == col,
{
    assert(0 <= row * n && row * n + n <= n * n) by (nonlinear_arith)
        requires
            0 <= row < n,
    ;
    lemma_fundamental_div_mod_converse(row * n + col, n, row, col);
}

/// Every position of the row-major list belongs to exactly one row and
/// column of the grid.
pub proof fn lemma_position(n: int, i: int)
    requires
        1 <= n,
        0 <= i < n * n,
    ensures
        0 <= i / n < n,
        0 <= i % n < n,
        (i / n) * n + i % n == i,
{
    lemma_fundamental_div_mod(i, n);
    let q = i / n;
    assert(n * q == q * n) by (nonlinear_arith);
    assert(0 <= i % n < n);
    assert(q < n) by (nonlinear_arith)
        requires
            q * n + i % n < n * n,
            0 <= i % n,
            1 <= n,
    ;
    assert(0 <= q) by (nonlinear_arith)
        requires
            q * n + i % n >= 0,
            i % n < n,
            1 <= n,
    ;
}

/// A square grid of cells.
#[derive(Clone, Debug)]
pub struct Grid {
    n: usize,
    set: VariantSet,
    cells: Vec<Cell>,
}

impl View for Grid {
    type V = GridView;

    closed spec fn view(&self) -> GridView {
        GridView {
            n: self.n as int,
            set: self.set,
            cells: Seq::new(self.cells@.len(), |i: int| self.cells@[i]@),
        }
    }
}

impl Grid {
    /// The invariant that every operation keeps.
    pub open spec fn wf(&self) -> bool {
        self@.wf()
    }

    /// A grid of side `n` over the alphabet `set` on which nothing has been
    /// decided.
    pub fn new(n: usize, set: VariantSet) -> (g: Grid)
        requires
            1 <= n,
            n * n <= usize::MAX,
        ensures
            g@ == GridView::fresh(n as int, set),
            g.wf(),
            g@.supported(),
            !g@.is_complete(),
    {
        let mut cells: Vec<Cell> = Vec::new();
        let mut row: usize = 0;
        while row < n
            invariant
                1 <= n,
                n * n <= usize::MAX,
                0 <= row <= n,
                cells@.len() == row * n,
                forall|i: int|
                    0 <= i < cells@.len() ==> (#[trigger] cells@[i])@ == GridView::fresh(
                        n as int,
                        set,
                    ).cells[i],
            decreases n - row,
        {
            let mut col: usize = 0;
            while col < n
                invariant
                    1 <= n,
                    n * n <= usize::MAX,
                    0 <= row < n,
                    0 <= col <= n,
                    cells@.len() == row * n + col,
                    forall|i: int|
                        0 <= i < cells@.len() ==> (#[trigger] cells@[i])@ == GridView::fresh(
                            n as int,
                            set,
                        ).cells[i],
                decreases n - col,
            {
                proof {
                    lemma_index(n as int, row as int, col as int);
                }
                cells.push(Cell { collapsed: false, candidates: set.variants(), row, col });
                col += 1;
            }
            assert(row * n + n == (row + 1) * n) by (nonlinear_arith);
            row += 1;
        }
        let g = Grid { n, set, cells };
        proof {
            assert(g@.cells =~= GridView::fresh(n as int, set).cells);
            lemma_fresh_supported(n as int, set);
        }
        g
    }

    /// Side of the grid.
    pub fn size(&self) -> (n: usize)
        ensures
            n == self@.n,
    {
        self.n
    }

    /// The alphabet in force.
    pub fn variant_set(&self) -> (set: VariantSet)
        ensures
            set == self@.set,
    {
        self.set
    }

    /// Position of the cell (`row`, `col`) in the row-major list of cells.
    fn position(&self, row: usize, col: usize) -> (i: usize)
        requires
            self.wf(),
            self@.in_bounds(row as int, col as int),
        ensures
            i == self@.index(row as int, col as int),
            i < self.cells@.len(),
            self.cells@.len() == self@.cells.len(),
            self.cells@[i as int]@ == self@.at(row as int, col as int),
    {
        proof {
            lemma_index(self.n as int, row as int, col as int);
            assert(self@.cells.len() == self.cells@.len());
            assert(self.cells.len() <= usize::MAX);
            assert(self.n * self.n == self.cells@.len());
            assert(0 <= row * self.n) by (nonlinear_arith)
                requires
                    0 <= row,
                    0 <= self.n,
            ;
        }
        row * self.n + col
    }

    /// The cell at (`row`, `col`).
    pub fn cell(&self, row: usize, col: usize) -> (c: &Cell)
        requires
            self.wf(),
            self@.in_bounds(row as int, col as int),
        ensures
            c@ == self@.at(row as int, col as int),
            c@.wf(),
            c@.row == row,
            c@.col == col,
    {
        proof {
            lemma_index(self.n as int, row as int, col as int);
        }
        let i: usize = self.position(row, col);
        &self.cells[i]
    }

    /// Number of cells.
    pub fn cell_count(&self) -> (len: usize)
        requires
            self.wf(),
        ensures
            len == self@.cells.len(),
            len == self@.n * self@.n,
    {
        self.cells.len()
    }

    /// The cell at position `i` of the row-major list of cells.
    pub fn cell_at(&self, i: usize) -> (c: &Cell)
        requires
            self.wf(),
            i < self@.cells.len(),
        ensures
            c@ == self@.cells[i as int],
            c@.wf(),
    {
        &self.cells[i]
    }

    /// Row and column of the cell at position `i` of the row-major list of
    /// cells.
    pub fn coordinates(&self, i: usize) -> (rc: (usize, usize))
        requires
            self.wf(),
            i < self@.cells.len(),
        ensures
            self@.in_bounds(rc.0 as int, rc.1 as int),
            self@.index(rc.0 as int, rc.1 as int) == i,
    {
        proof {
            lemma_position(self@.n, i as int);
        }
        (i / self.n, i % self.n)
    }

    /// Coordinates of the neighbour of (`row`, `col`) on `side`, if the
    /// grid has one there.
    pub fn neighbour_of(&self, row: usize, col: usize, side: Side) -> (r: Option<(usize, usize)>)
        requires
            self.wf(),
            self@.in_bounds(row as int, col as int),
        ensures
            r is Some <==> self@.has_neighbour(row as int, col as int, side),
            r matches Some((nr, nc)) ==> nr == row + side.d_row() && nc == col + side.d_col(),
    {
        match side {
            Side::Left => if col > 0 {
                Some((row, col - 1))
            } else {
                None
            },
            Side::Right => if col + 1 < self.n {
                Some((row, col + 1))
            } else {
                None
            },
            Side::Top => if row > 0 {
                Some((row - 1, col))
            } else {
                None
            },
            Side::Bottom => if row + 1 < self.n {
                Some((row + 1, col))
            } else {
                None
            },
        }
    }

    /// Fixes the cell at (`row`, `col`) to the tile `v`: its candidates
    /// become `v` alone and it counts as collapsed.  No neighbour is
    /// touched.
    pub fn collapse(&mut self, row: usize, col: usize, v: Variant)
        requires
            old(self).wf(),
            old(self)@.in_bounds(row as int, col as int),
        ensures
            final(self).wf(),
            final(self)@ == old(self)@.collapsed_to(row as int, col as int, v),
    {
        let i: usize = self.position(row, col);
        let mut only: Vec<Variant> = Vec::new();
        only.push(v);
        self.cells[i].candidates = only;
        self.cells[i].collapsed = true;
        proof {
            let before = old(self)@;
            let g = before.collapsed_to(row as int, col as int, v);
            assert(self.cells@[i as int]@ == before.at(row as int, col as int).fixed(v)) by {
                assert(self.cells@[i as int].candidates@ =~= seq![v]);
            }
            assert(self@.cells =~= g.cells);
            assert(seq![v].no_duplicates());
        }
    }

    /// Puts the candidates of the cell at (`row`, `col`) in the order
    /// `order`, which must hold the same tiles.
    pub(crate) fn reorder_candidates(&mut self, row: usize, col: usize, order: Vec<Variant>)
        requires
            old(self).wf(),
            old(self)@.in_bounds(row as int, col as int),
            order@.to_multiset() == old(self)@.at(row as int, col as int).candidates.to_multiset(),
        ensures
            final(self).wf(),
            final(self)@ == old(self)@.reordered(row as int, col as int, order@),
    {
        let i: usize = self.position(row, col);
        proof {
            lemma_same_tiles(self.cells@[i as int].candidates@, order@);
        }
        self.cells[i].candidates = order;
        proof {
            let g = old(self)@.reordered(row as int, col as int, order@);
            assert(self@.cells =~= g.cells);
        }
    }

    /// Narrows the neighbour on `side` of the collapsed cell at (`row`,
    /// `col`) to what that cell permits there, unless this would empty it.
    /// Returns whether the neighbour could be kept non-empty.
    fn narrow_neighbour(&mut self, row: usize, col: usize, side: Side) -> (ok: bool)
        requires
            old(self).wf(),
            old(self)@.in_bounds(row as int, col as int),
        ensures
            final(self).wf(),
            ok == !old(self)@.blocked(row as int, col as int, side),
            final(self)@ == if ok {
                old(self)@.narrow_side(row as int, col as int, side)
            } else {
                old(self)@
            },
    {
        let ghost before = self@;
        match self.neighbour_of(row, col, side) {
            None => true,
            Some((nr, nc)) => {
                let i: usize = self.position(nr, nc);
                if self.cells[i].collapsed {
                    assert(before.narrow_side(row as int, col as int, side).cells
                        =~= before.cells);
                    return true;
                }
                let src: usize = self.position(row, col);
                let v: Variant = self.cells[src].candidates[0];
                let allowed: Vec<Variant> = permitted(self.set, v, side);
                let kept: Vec<Variant> = intersection(&self.cells[i].candidates, &allowed);
                proof {
                    lemma_filter_agree(
                        self.cells@[i as int].candidates@,
                        member_of(allowed@),
                        before.keeps(row as int, col as int, side),
                    );
                }
                if kept.len() == 0 {
                    return false;
                }
                self.cells[i].candidates = kept;
                proof {
                    let g = before.narrow_side(row as int, col as int, side);
                    assert(self@.cells =~= g.cells);
                    lemma_narrow_side_wf(before, row as int, col as int, side);
                }
                true
            },
        }
    }

    /// Propagates from the collapsed cell at (`row`, `col`): each of its
    /// uncollapsed neighbours keeps only the candidates that the cell's tile
    /// permits on that side.  The neighbours are taken in the order left,
    /// right, top, bottom.  The first one that would be left without a
    /// candidate stops the propagation with a contradiction; that neighbour
    /// and those after it keep their candidates.  Only the four immediate
    /// neighbours are ever touched, and no collapsed cell is, so adjacent
    /// collapsed cells that agreed before still agree.
    pub fn propagate_from(&mut self, row: usize, col: usize) -> (r: Result<(), WfcError>)
        requires
            old(self).wf(),
            old(self)@.in_bounds(row as int, col as int),
            old(self)@.at(row as int, col as int).collapsed,
        ensures
            final(self).wf(),
            final(self)@ == old(self)@.after_propagation(row as int, col as int),
            r == old(self)@.propagation_outcome(row as int, col as int),
            old(self)@.consistent() ==> final(self)@.consistent(),
    {
        proof {
            lemma_propagation_stages(self@, row as int, col as int);
            if self@.consistent() {
                lemma_propagation_consistent(self@, row as int, col as int);
            }
        }
        let src: usize = self.position(row, col);
        let v: Variant = self.cells[src].candidates[0];
        if !self.narrow_neighbour(row, col, Side::Left) {
            return Err(WfcError::Contradiction { row, col: col - 1, variant: v });
        }
        if !self.narrow_neighbour(row, col, Side::Right) {
            return Err(WfcError::Contradiction { row, col: col + 1, variant: v });
        }
        if !self.narrow_neighbour(row, col, Side::Top) {
            return Err(WfcError::Contradiction { row: row - 1, col, variant: v });
        }
        if !self.narrow_neighbour(row, col, Side::Bottom) {
            return Err(WfcError::Contradiction { row: row + 1, col, variant: v });
        }
        Ok(())
    }

    /// Collapses the cell at (`row`, `col`) to `v` and propagates from it.
    /// Where the grid was supported and `v` was a candidate of the cell,
    /// adjacent collapsed cells still agree afterwards, and the grid is
    /// supported again unless a contradiction was met.
    pub fn collapse_and_propagate(&mut self, row: usize, col: usize, v: Variant) -> (r: Result<
        (),
        WfcError,
    >)
        requires
            old(self).wf(),
            old(self)@.in_bounds(row as int, col as int),
        ensures
            final(self).wf(),
            final(self)@ == old(self)@.collapsed_to(row as int, col as int, v).after_propagation(
                row as int,
                col as int,
            ),
            r == old(self)@.collapsed_to(row as int, col as int, v).propagation_outcome(
                row as int,
                col as int,
            ),
            old(self)@.supported() && old(self)@.at(row as int, col as int).candidates.contains(v)
                ==> final(self)@.consistent() && (r is Ok ==> final(self)@.supported()),
    {
        proof {
            lemma_index(self@.n, row as int, col as int);
            if self@.supported() && self@.at(row as int, col as int).candidates.contains(v) {
                lemma_collapse_supported_around(self@, row as int, col as int, v);
                lemma_propagation_supports(
                    self@.collapsed_to(row as int, col as int, v),
                    row as int,
                    col as int,
                );
            }
        }
        self.collapse(row, col, v);
        self.propagate_from(row, col)
    }

    /// Whether every cell is collapsed.
    pub fn is_complete(&self) -> (r: bool)
        requires
            self.wf(),
        ensures
            r == self@.is_complete(),
    {
        let mut i: usize = 0;
        while i < self.cells.len()
            invariant
                0 <= i <= self.cells.len(),
                self@.cells.len() == self.cells.len(),
                forall|k: int| 0 <= k < i ==> (#[trigger] self@.cells[k]).collapsed,
            decreases self.cells.len() - i,
        {
            if !self.cells[i].collapsed {
                assert(!self@.cells[i as int].collapsed);
                return false;
            }
            i += 1;
        }
        true
    }
}

} // verus!
