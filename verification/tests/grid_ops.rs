use wfc_tiles::error::WfcError;
use wfc_tiles::grid::Grid;
use wfc_tiles::tile::Variant::{Blank, Down, Left, Right, Up};
use wfc_tiles::tile::{Side, Variant, VariantSet};

fn candidates(g: &Grid, row: usize, col: usize) -> Vec<Variant> {
    g.cell(row, col).candidates.clone()
}

fn snapshot(g: &Grid) -> Vec<(bool, Vec<Variant>, usize, usize)> {
    let mut out = Vec::new();
    for i in 0..g.cell_count() {
        let c = g.cell_at(i);
        out.push((c.collapsed, c.candidates.clone(), c.row, c.col));
    }
    out
}

#[test]
fn new_grid_is_undecided() {
    for set in [VariantSet::Four, VariantSet::Five] {
        let g = Grid::new(3, set);
        assert_eq!(g.size(), 3);
        assert_eq!(g.variant_set(), set);
        assert_eq!(g.cell_count(), 9);
        assert!(!g.is_complete());
        for row in 0..3 {
            for col in 0..3 {
                let c = g.cell(row, col);
                assert!(!c.collapsed);
                assert_eq!(c.candidates, set.variants());
                assert_eq!((c.row, c.col), (row, col));
                assert_eq!(g.coordinates(row * 3 + col), (row, col));
                let flat = g.cell_at(row * 3 + col);
                assert_eq!((flat.row, flat.col), (row, col));
            }
        }
    }
}

#[test]
fn neighbours_stop_at_the_edge() {
    let g = Grid::new(3, VariantSet::Four);
    assert_eq!(g.neighbour_of(0, 0, Side::Left), None);
    assert_eq!(g.neighbour_of(0, 0, Side::Top), None);
    assert_eq!(g.neighbour_of(0, 0, Side::Right), Some((0, 1)));
    assert_eq!(g.neighbour_of(0, 0, Side::Bottom), Some((1, 0)));
    assert_eq!(g.neighbour_of(2, 2, Side::Right), None);
    assert_eq!(g.neighbour_of(2, 2, Side::Bottom), None);
    assert_eq!(g.neighbour_of(2, 2, Side::Left), Some((2, 1)));
    assert_eq!(g.neighbour_of(2, 2, Side::Top), Some((1, 2)));
    assert_eq!(g.neighbour_of(1, 1, Side::Left), Some((1, 0)));
    assert_eq!(g.neighbour_of(1, 1, Side::Right), Some((1, 2)));
    assert_eq!(g.neighbour_of(1, 1, Side::Top), Some((0, 1)));
    assert_eq!(g.neighbour_of(1, 1, Side::Bottom), Some((2, 1)));
    let one = Grid::new(1, VariantSet::Five);
    for s in [Side::Left, Side::Right, Side::Top, Side::Bottom] {
        assert_eq!(one.neighbour_of(0, 0, s), None);
    }
}

#[test]
fn collapse_touches_one_cell() {
    let mut g = Grid::new(2, VariantSet::Four);
    g.collapse(0, 1, Left);
    assert!(g.cell(0, 1).collapsed);
    assert_eq!(candidates(&g, 0, 1), vec![Left]);
    for (row, col) in [(0, 0), (1, 0), (1, 1)] {
        assert!(!g.cell(row, col).collapsed);
        assert_eq!(candidates(&g, row, col), VariantSet::Four.variants());
    }
    assert!(!g.is_complete());
}

#[test]
fn seed_right_in_the_corner_of_a_two_by_two_grid() {
    let mut g = Grid::new(2, VariantSet::Four);
    assert_eq!(g.collapse_and_propagate(0, 0, Right), Ok(()));
    assert!(g.cell(0, 0).collapsed);
    assert_eq!(candidates(&g, 0, 0), vec![Right]);
    assert_eq!(candidates(&g, 0, 1), vec![Down, Left]);
    assert_eq!(candidates(&g, 1, 0), vec![Left, Right]);
    assert_eq!(candidates(&g, 1, 1), vec![Blank, Down, Left, Right]);
    assert!(!g.cell(0, 1).collapsed);
    assert!(!g.cell(1, 0).collapsed);
    assert!(!g.cell(1, 1).collapsed);
}

#[test]
fn seeded_at_is_new_then_collapse_and_propagate() {
    let g = Grid::seeded_at(2, VariantSet::Four, 0, 0, Right).unwrap();
    let mut h = Grid::new(2, VariantSet::Four);
    h.collapse_and_propagate(0, 0, Right).unwrap();
    assert_eq!(snapshot(&g), snapshot(&h));
}

#[test]
fn propagation_reaches_all_four_neighbours_and_no_further() {
    let mut g = Grid::new(3, VariantSet::Five);
    assert_eq!(g.collapse_and_propagate(1, 1, Up), Ok(()));
    assert_eq!(candidates(&g, 1, 0), vec![Down, Right, Up]);
    assert_eq!(candidates(&g, 1, 2), vec![Down, Left, Up]);
    assert_eq!(candidates(&g, 0, 1), vec![Down, Left, Right]);
    assert_eq!(candidates(&g, 2, 1), vec![Blank, Down]);
    for (row, col) in [(0, 0), (0, 2), (2, 0), (2, 2)] {
        assert_eq!(candidates(&g, row, col), VariantSet::Five.variants());
    }
}

#[test]
fn propagation_keeps_the_order_of_the_neighbour() {
    let mut g = Grid::new(2, VariantSet::Four);
    g.collapse_and_propagate(0, 0, Blank).unwrap();
    assert_eq!(candidates(&g, 0, 1), vec![Blank, Right]);
    assert_eq!(candidates(&g, 1, 0), vec![Blank, Down]);
    g.collapse_and_propagate(0, 1, Right).unwrap();
    assert_eq!(candidates(&g, 1, 1), vec![Left, Right]);
    g.collapse_and_propagate(1, 0, Down).unwrap();
    assert_eq!(candidates(&g, 1, 1), vec![Left]);
}

#[test]
fn propagation_leaves_collapsed_neighbours_alone() {
    let mut g = Grid::new(2, VariantSet::Four);
    g.collapse(0, 1, Blank);
    assert_eq!(g.collapse_and_propagate(0, 0, Right), Ok(()));
    assert_eq!(candidates(&g, 0, 1), vec![Blank]);
    assert!(g.cell(0, 1).collapsed);
    assert_eq!(candidates(&g, 1, 0), vec![Left, Right]);
}

#[test]
fn propagation_is_idempotent() {
    let mut g = Grid::new(3, VariantSet::Five);
    g.collapse_and_propagate(1, 1, Left).unwrap();
    let once = snapshot(&g);
    assert_eq!(g.propagate_from(1, 1), Ok(()));
    assert_eq!(snapshot(&g), once);
    assert_eq!(g.propagate_from(1, 1), Ok(()));
    assert_eq!(snapshot(&g), once);
}

#[test]
fn contradiction_names_the_neighbour_and_the_tile() {
    let mut g = Grid::new(3, VariantSet::Four);
    g.collapse_and_propagate(0, 0, Blank).unwrap();
    assert_eq!(candidates(&g, 0, 1), vec![Blank, Right]);
    g.collapse_and_propagate(0, 2, Left).unwrap();
    assert_eq!(candidates(&g, 0, 1), vec![Right]);
    assert_eq!(candidates(&g, 1, 2), vec![Left, Right]);
    assert_eq!(candidates(&g, 1, 0), vec![Blank, Down]);
    let r = g.collapse_and_propagate(1, 1, Blank);
    assert_eq!(r, Err(WfcError::Contradiction { row: 0, col: 1, variant: Blank }));
    // left and right were narrowed before the top neighbour stopped the
    // propagation; the top and bottom neighbours keep what they had
    assert_eq!(candidates(&g, 1, 1), vec![Blank]);
    assert!(g.cell(1, 1).collapsed);
    assert_eq!(candidates(&g, 1, 0), vec![Blank]);
    assert_eq!(candidates(&g, 1, 2), vec![Right]);
    assert_eq!(candidates(&g, 0, 1), vec![Right]);
    assert_eq!(candidates(&g, 2, 1), vec![Blank, Down, Left, Right]);
    for i in 0..g.cell_count() {
        assert!(!g.cell_at(i).candidates.is_empty());
    }
}

#[test]
fn contradiction_is_idempotent_too() {
    let mut g = Grid::new(3, VariantSet::Four);
    g.collapse_and_propagate(0, 0, Blank).unwrap();
    g.collapse_and_propagate(0, 2, Left).unwrap();
    let first = g.collapse_and_propagate(1, 1, Blank);
    let after = snapshot(&g);
    assert_eq!(g.propagate_from(1, 1), first);
    assert_eq!(snapshot(&g), after);
}

#[test]
fn seed_from_outside_the_alphabet_permits_nothing() {
    let mut g = Grid::new(2, VariantSet::Four);
    let r = g.collapse_and_propagate(0, 0, Up);
    assert_eq!(r, Err(WfcError::Contradiction { row: 0, col: 1, variant: Up }));
    assert_eq!(candidates(&g, 0, 1), VariantSet::Four.variants());
    assert_eq!(candidates(&g, 1, 0), VariantSet::Four.variants());
    assert!(matches!(
        Grid::seeded_at(2, VariantSet::Four, 1, 1, Up),
        Err(WfcError::Contradiction { row: 1, col: 0, variant: Up })
    ));
    let one = Grid::seeded_at(1, VariantSet::Four, 0, 0, Up).unwrap();
    assert!(one.is_complete());
    assert!(Grid::seeded_at(2, VariantSet::Five, 1, 1, Up).is_ok());
}

#[test]
fn grid_is_complete_when_every_cell_is_collapsed() {
    let mut g = Grid::new(2, VariantSet::Four);
    assert!(!g.is_complete());
    g.collapse_and_propagate(0, 0, Blank).unwrap();
    assert!(!g.is_complete());
    g.collapse_and_propagate(0, 1, Blank).unwrap();
    g.collapse_and_propagate(1, 0, Blank).unwrap();
    assert!(!g.is_complete());
    g.collapse_and_propagate(1, 1, Blank).unwrap();
    assert!(g.is_complete());
    for i in 0..4 {
        assert_eq!(g.cell_at(i).candidates, vec![Blank]);
    }
}

#[test]
fn single_cell_grid() {
    for v in [Blank, Down, Left, Right] {
        let mut g = Grid::new(1, VariantSet::Four);
        assert_eq!(g.cell_count(), 1);
        assert!(!g.is_complete());
        assert_eq!(g.collapse_and_propagate(0, 0, v), Ok(()));
        assert!(g.is_complete());
        assert_eq!(candidates(&g, 0, 0), vec![v]);
    }
}
