use rand::rngs::StdRng;
use rand::SeedableRng;
use wfc_tiles::error::WfcError;
use wfc_tiles::grid::Grid;
use wfc_tiles::tile::Variant::{Blank, Down, Left, Right, Up};
use wfc_tiles::tile::{Side, Variant, VariantSet};

fn state(g: &Grid) -> Vec<(bool, Vec<Variant>, usize, usize)> {
    let mut out = Vec::new();
    for i in 0..g.cell_count() {
        let c = g.cell_at(i);
        out.push((c.collapsed, c.candidates.clone(), c.row, c.col));
    }
    out
}

fn sorted(list: &[Variant]) -> Vec<usize> {
    let mut ranks: Vec<usize> = list.iter().map(|v| v.index()).collect();
    ranks.sort();
    ranks
}

/// Three collapses on a grid of side three after which the top row cannot
/// be finished: the corners are forced to `Blank` and the middle cell must
/// reach down.
fn dead_end() -> Grid {
    let mut g = Grid::new(3, VariantSet::Four);
    g.collapse_and_propagate(1, 1, Left).unwrap();
    g.collapse_and_propagate(1, 0, Down).unwrap();
    g.collapse_and_propagate(1, 2, Blank).unwrap();
    assert_eq!(g.cell(0, 0).candidates, vec![Blank]);
    assert_eq!(g.cell(0, 1).candidates, vec![Down, Left, Right]);
    assert_eq!(g.cell(0, 2).candidates, vec![Blank]);
    g
}

#[test]
fn lowest_entropy_cells_after_a_seed() {
    let g = Grid::seeded_at(2, VariantSet::Four, 0, 0, Right).unwrap();
    assert_eq!(g.lowest_entropy(), Some(2));
    assert_eq!(g.low_entropy_cells(), vec![1, 2]);
    assert_eq!(g.pick_nth_low_entropy_cell(0), Some((0, 1)));
    assert_eq!(g.pick_nth_low_entropy_cell(1), Some((1, 0)));
    assert_eq!(g.pick_nth_low_entropy_cell(2), None);
}

#[test]
fn on_a_new_grid_every_cell_has_lowest_entropy() {
    let g = Grid::new(3, VariantSet::Five);
    assert_eq!(g.lowest_entropy(), Some(5));
    assert_eq!(g.low_entropy_cells(), (0..9).collect::<Vec<usize>>());
    assert_eq!(g.pick_nth_low_entropy_cell(5), Some((1, 2)));
    assert_eq!(g.pick_nth_low_entropy_cell(9), None);
}

#[test]
fn collapsed_cells_do_not_count_for_entropy() {
    let mut g = Grid::new(2, VariantSet::Four);
    g.collapse_and_propagate(0, 0, Blank).unwrap();
    g.collapse_and_propagate(0, 1, Right).unwrap();
    // (1,0) has [Blank, Down], (1,1) has [Left, Right]
    assert_eq!(g.lowest_entropy(), Some(2));
    assert_eq!(g.low_entropy_cells(), vec![2, 3]);
    g.collapse_and_propagate(1, 0, Down).unwrap();
    assert_eq!(g.cell(1, 1).candidates, vec![Left]);
    assert_eq!(g.lowest_entropy(), Some(1));
    assert_eq!(g.low_entropy_cells(), vec![3]);
}

#[test]
fn random_pick_is_one_of_the_lowest() {
    let g = Grid::seeded_at(3, VariantSet::Five, 1, 1, Up).unwrap();
    // below the seed two candidates are left, beside and above it three
    assert_eq!(g.low_entropy_cells(), vec![7]);
    let h = Grid::seeded_at(3, VariantSet::Five, 1, 1, Left).unwrap();
    // left: [Down, Right, Up]; right: [Blank, Right]; top: three; bottom: three
    assert_eq!(h.low_entropy_cells(), vec![5]);
    let k = Grid::seeded_at(2, VariantSet::Four, 0, 0, Right).unwrap();
    let mut seen = [false, false];
    for seed in 0..64 {
        let mut rng = StdRng::seed_from_u64(seed);
        assert_eq!(g.pick_low_entropy_cell(&mut rng), Ok((2, 1)));
        assert_eq!(h.pick_low_entropy_cell(&mut rng), Ok((1, 2)));
        match k.pick_low_entropy_cell(&mut rng) {
            Ok((0, 1)) => seen[0] = true,
            Ok((1, 0)) => seen[1] = true,
            other => panic!("not a cell of lowest entropy: {:?}", other),
        }
    }
    assert_eq!(seen, [true, true]);
}

#[test]
fn no_candidate_cell_on_a_complete_grid() {
    let mut g = Grid::new(1, VariantSet::Four);
    g.collapse_and_propagate(0, 0, Down).unwrap();
    assert!(g.is_complete());
    assert_eq!(g.lowest_entropy(), None);
    assert_eq!(g.low_entropy_cells(), Vec::<usize>::new());
    assert_eq!(g.pick_nth_low_entropy_cell(0), None);
    let mut rng = StdRng::seed_from_u64(1);
    assert_eq!(g.pick_low_entropy_cell(&mut rng), Err(WfcError::NoCandidateCell));
    let before = state(&g);
    assert_eq!(g.step(&mut rng), Err(WfcError::NoCandidateCell));
    assert_eq!(state(&g), before);
    assert_eq!(g.run(&mut rng), Ok(0));
}

#[test]
fn ray_at_the_edge_succeeds() {
    let g = Grid::new(2, VariantSet::Four);
    for v in [Blank, Down, Left, Right] {
        assert!(g.ray_feasible(0, 0, v, Side::Left));
        assert!(g.ray_feasible(0, 0, v, Side::Top));
        assert!(g.ray_feasible(1, 1, v, Side::Right));
        assert!(g.ray_feasible(1, 1, v, Side::Bottom));
    }
}

#[test]
fn ray_with_two_choices_succeeds_at_once() {
    let g = dead_end();
    // beside (0,0), the cell (0,1) keeps Down and Left for a tile that
    // reaches right, so the ray does not look at (0,2)
    assert!(g.ray_feasible(0, 0, Down, Side::Right));
    assert!(g.ray_feasible(0, 0, Right, Side::Right));
}

#[test]
fn ray_follows_a_forced_chain() {
    let g = dead_end();
    // Blank at (0,0) forces Right at (0,1), which nothing at (0,2) fits
    assert!(!g.ray_feasible(0, 0, Blank, Side::Right));
    assert!(!g.ray_feasible(0, 0, Left, Side::Right));
    // the same chain read from the other corner
    assert!(!g.ray_feasible(0, 2, Blank, Side::Left));
    // downwards from (0,0): (1,0) is Down, which fits below Blank only
    assert!(g.ray_feasible(0, 0, Blank, Side::Bottom));
    assert!(!g.ray_feasible(0, 0, Left, Side::Bottom));
}

#[test]
fn ray_fails_on_an_empty_first_step() {
    let g = Grid::seeded_at(2, VariantSet::Four, 0, 0, Blank).unwrap();
    // (0,0) is Blank; a tile at (0,1) that reaches left does not fit
    assert!(!g.ray_feasible(0, 1, Down, Side::Left));
    assert!(!g.ray_feasible(0, 1, Left, Side::Left));
    assert!(g.ray_feasible(0, 1, Blank, Side::Left));
    assert!(g.ray_feasible(0, 1, Right, Side::Left));
    assert!(g.is_feasible(0, 1, Blank));
    assert!(g.is_feasible(0, 1, Right));
    assert!(!g.is_feasible(0, 1, Down));
    assert!(!g.is_feasible(0, 1, Left));
}

#[test]
fn first_feasible_follows_the_given_order() {
    let g = Grid::seeded_at(2, VariantSet::Four, 0, 0, Blank).unwrap();
    assert_eq!(g.first_feasible_variant(0, 1, &vec![Blank, Right]), Some(Blank));
    assert_eq!(g.first_feasible_variant(0, 1, &vec![Right, Blank]), Some(Right));
    assert_eq!(g.first_feasible_variant(0, 1, &vec![Down, Left, Right, Blank]), Some(Right));
    assert_eq!(g.first_feasible_variant(0, 1, &vec![Down, Left]), None);
    assert_eq!(g.first_feasible_variant(0, 1, &vec![]), None);
}

#[test]
fn no_feasible_variant_leaves_the_grid_as_it_was() {
    let mut g = dead_end();
    assert!(!g.is_feasible(0, 0, Blank));
    assert_eq!(g.first_feasible_variant(0, 0, &vec![Blank]), None);
    let before = state(&g);
    for seed in 0..16 {
        let mut rng = StdRng::seed_from_u64(seed);
        assert_eq!(
            g.choose_variant(0, 0, &mut rng),
            Err(WfcError::NoFeasibleVariant { row: 0, col: 0 })
        );
        assert_eq!(state(&g), before);
        assert_eq!(
            g.collapse_cell(0, 2, &mut rng),
            Err(WfcError::NoFeasibleVariant { row: 0, col: 2 })
        );
        assert_eq!(state(&g), before);
    }
}

#[test]
fn a_round_on_a_dead_end_fails_without_a_trace() {
    let mut g = dead_end();
    assert_eq!(g.low_entropy_cells(), vec![0, 2]);
    let before = state(&g);
    for seed in 0..16 {
        let mut rng = StdRng::seed_from_u64(seed);
        match g.step(&mut rng) {
            Err(WfcError::NoFeasibleVariant { row: 0, col }) => assert!(col == 0 || col == 2),
            other => panic!("expected a dead end, got {:?}", other),
        }
        assert_eq!(state(&g), before);
        assert!(matches!(g.run(&mut rng), Err(WfcError::NoFeasibleVariant { row: 0, .. })));
        assert_eq!(state(&g), before);
    }
}

#[test]
fn choose_variant_permutes_the_candidates_of_one_cell() {
    for seed in 0..32 {
        let mut g = Grid::seeded_at(3, VariantSet::Five, 1, 1, Down).unwrap();
        let before = state(&g);
        let mut rng = StdRng::seed_from_u64(seed);
        let v = g.choose_variant(0, 0, &mut rng).unwrap();
        let after = state(&g);
        for i in 1..9 {
            assert_eq!(after[i], before[i]);
        }
        assert_eq!(after[0].0, before[0].0);
        assert_eq!(sorted(&after[0].1), sorted(&before[0].1));
        // the tile returned is the first in the new order that passes
        assert_eq!(g.first_feasible_variant(0, 0, &after[0].1), Some(v));
        assert!(g.is_feasible(0, 0, v));
    }
}

#[test]
fn choose_variant_reaches_every_order() {
    let mut firsts = [false; 5];
    for seed in 0..200 {
        let mut g = Grid::new(2, VariantSet::Five);
        let mut rng = StdRng::seed_from_u64(seed);
        g.choose_variant(1, 1, &mut rng).unwrap();
        firsts[g.cell(1, 1).candidates[0].index()] = true;
    }
    assert_eq!(firsts, [true; 5]);
}

#[test]
fn collapse_cell_collapses_to_a_feasible_candidate() {
    for seed in 0..32 {
        let mut g = Grid::seeded_at(2, VariantSet::Four, 0, 0, Right).unwrap();
        let before = Grid::seeded_at(2, VariantSet::Four, 0, 0, Right).unwrap();
        let mut rng = StdRng::seed_from_u64(seed);
        let v = g.collapse_cell(0, 1, &mut rng).unwrap();
        assert!(v == Down || v == Left);
        assert!(before.is_feasible(0, 1, v));
        let mut expected = Grid::seeded_at(2, VariantSet::Four, 0, 0, Right).unwrap();
        expected.collapse_and_propagate(0, 1, v).unwrap();
        assert_eq!(state(&g), state(&expected));
    }
}
