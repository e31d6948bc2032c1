use wfc_tiles::candidates::{contains, duplicate, intersection};
use wfc_tiles::tile::Variant::{Blank, Down, Left, Right, Up};
use wfc_tiles::tile::{permitted, Side, Variant, VariantSet};

const SIDES: [Side; 4] = [Side::Left, Side::Right, Side::Top, Side::Bottom];
const ALL: [Variant; 5] =
    [Blank, Down, Left, Right, Up];

#[test]
fn opposite_sides_face_each_other() {
    assert_eq!(Side::Left.opposite(), Side::Right);
    assert_eq!(Side::Right.opposite(), Side::Left);
    assert_eq!(Side::Top.opposite(), Side::Bottom);
    assert_eq!(Side::Bottom.opposite(), Side::Top);
    for s in SIDES {
        assert_eq!(s.opposite().opposite(), s);
    }
}

#[test]
fn edges_of_the_tiles() {
    for s in SIDES {
        assert!(!Variant::Blank.marked(s));
        assert_eq!(Variant::Down.marked(s), s != Side::Top);
        assert_eq!(Variant::Left.marked(s), s != Side::Right);
        assert_eq!(Variant::Right.marked(s), s != Side::Left);
        assert_eq!(Variant::Up.marked(s), s != Side::Bottom);
    }
}

#[test]
fn alphabets() {
    assert_eq!(
        VariantSet::Four.variants(),
        vec![Variant::Blank, Variant::Down, Variant::Left, Variant::Right]
    );
    assert_eq!(VariantSet::Five.variants(), ALL.to_vec());
    assert!(!VariantSet::Four.has(Variant::Up));
    assert!(VariantSet::Five.has(Variant::Up));
    for v in VariantSet::Four.variants() {
        assert!(VariantSet::Four.has(v));
        assert!(VariantSet::Five.has(v));
    }
    for (i, v) in ALL.iter().enumerate() {
        assert_eq!(v.index(), i);
    }
}

#[test]
fn tiles_by_position() {
    assert_eq!(VariantSet::Four.count(), 4);
    assert_eq!(VariantSet::Five.count(), 5);
    for set in [VariantSet::Four, VariantSet::Five] {
        let all = set.variants();
        assert_eq!(all.len(), set.count());
        for k in 0..set.count() {
            assert_eq!(set.variant_at(k), all[k]);
            assert_eq!(set.variant_at(k).index(), k);
        }
    }
    assert_eq!(VariantSet::Four.variant_at(3), Right);
    assert_eq!(VariantSet::Five.variant_at(4), Up);
    assert_eq!(VariantSet::Five.variant_at(0), Blank);
}

#[test]
fn four_variant_table() {
    let set = VariantSet::Four;
    assert_eq!(permitted(set, Blank, Side::Left), vec![Blank, Left]);
    assert_eq!(permitted(set, Blank, Side::Right), vec![Blank, Right]);
    assert_eq!(permitted(set, Blank, Side::Top), vec![Blank]);
    assert_eq!(permitted(set, Blank, Side::Bottom), vec![Blank, Down]);

    assert_eq!(permitted(set, Down, Side::Left), vec![Down, Right]);
    assert_eq!(permitted(set, Down, Side::Right), vec![Down, Left]);
    assert_eq!(permitted(set, Down, Side::Top), vec![Blank]);
    assert_eq!(permitted(set, Down, Side::Bottom), vec![Left, Right]);

    assert_eq!(permitted(set, Left, Side::Left), vec![Down, Right]);
    assert_eq!(permitted(set, Left, Side::Right), vec![Blank, Right]);
    assert_eq!(permitted(set, Left, Side::Top), vec![Down, Left, Right]);
    assert_eq!(permitted(set, Left, Side::Bottom), vec![Left, Right]);

    assert_eq!(permitted(set, Right, Side::Left), vec![Blank, Left]);
    assert_eq!(permitted(set, Right, Side::Right), vec![Down, Left]);
    assert_eq!(permitted(set, Right, Side::Top), vec![Down, Left, Right]);
    assert_eq!(permitted(set, Right, Side::Bottom), vec![Left, Right]);
}

#[test]
fn four_variant_table_has_no_row_for_up() {
    for s in SIDES {
        assert!(permitted(VariantSet::Four, Variant::Up, s).is_empty());
        for v in ALL {
            assert!(!contains(&permitted(VariantSet::Four, v, s), Variant::Up));
        }
    }
}

#[test]
fn five_variant_table() {
    let set = VariantSet::Five;
    assert_eq!(permitted(set, Blank, Side::Left), vec![Blank, Left]);
    assert_eq!(permitted(set, Blank, Side::Right), vec![Blank, Right]);
    assert_eq!(permitted(set, Blank, Side::Top), vec![Blank, Up]);
    assert_eq!(permitted(set, Blank, Side::Bottom), vec![Blank, Down]);

    assert_eq!(permitted(set, Down, Side::Left), vec![Down, Right, Up]);
    assert_eq!(permitted(set, Down, Side::Right), vec![Down, Left, Up]);
    assert_eq!(permitted(set, Down, Side::Top), vec![Blank, Up]);
    assert_eq!(permitted(set, Down, Side::Bottom), vec![Left, Right, Up]);

    assert_eq!(permitted(set, Left, Side::Left), vec![Down, Right, Up]);
    assert_eq!(permitted(set, Left, Side::Right), vec![Blank, Right]);
    assert_eq!(permitted(set, Left, Side::Top), vec![Down, Left, Right]);
    assert_eq!(permitted(set, Left, Side::Bottom), vec![Left, Right, Up]);

    assert_eq!(permitted(set, Right, Side::Left), vec![Blank, Left]);
    assert_eq!(permitted(set, Right, Side::Right), vec![Down, Left, Up]);
    assert_eq!(permitted(set, Right, Side::Top), vec![Down, Left, Right]);
    assert_eq!(permitted(set, Right, Side::Bottom), vec![Left, Right, Up]);

    assert_eq!(permitted(set, Up, Side::Left), vec![Down, Right, Up]);
    assert_eq!(permitted(set, Up, Side::Right), vec![Down, Left, Up]);
    assert_eq!(permitted(set, Up, Side::Top), vec![Down, Left, Right]);
    assert_eq!(permitted(set, Up, Side::Bottom), vec![Blank, Down]);
}

#[test]
fn tables_follow_the_edge_colours() {
    for set in [VariantSet::Four, VariantSet::Five] {
        for v in ALL {
            for s in SIDES {
                let row = permitted(set, v, s);
                for w in ALL {
                    let fits = set.has(v) && set.has(w) && v.marked(s) == w.marked(s.opposite());
                    assert_eq!(contains(&row, w), fits, "{:?} {:?} {:?} {:?}", set, v, s, w);
                }
            }
        }
    }
}

#[test]
fn tables_are_in_rank_order_without_repetition() {
    for set in [VariantSet::Four, VariantSet::Five] {
        for v in ALL {
            for s in SIDES {
                let row = permitted(set, v, s);
                for k in 1..row.len() {
                    assert!(row[k - 1].index() < row[k].index());
                }
            }
        }
    }
}

#[test]
fn adjacency_is_symmetric() {
    for set in [VariantSet::Four, VariantSet::Five] {
        for u in ALL {
            for v in ALL {
                for s in SIDES {
                    let forth = contains(&permitted(set, u, s), v);
                    let back = contains(&permitted(set, v, s.opposite()), u);
                    assert_eq!(forth, back, "{:?} {:?} {:?} {:?}", set, u, s, v);
                }
            }
        }
    }
}

#[test]
fn every_tile_of_the_alphabet_permits_something_on_each_side() {
    for set in [VariantSet::Four, VariantSet::Five] {
        for v in set.variants() {
            for s in SIDES {
                assert!(!permitted(set, v, s).is_empty());
            }
        }
    }
}

#[test]
fn intersection_keeps_the_order_of_the_first_list() {
    assert_eq!(intersection(&vec![Right, Blank, Down], &vec![Blank, Right]), vec![Right, Blank]);
    assert_eq!(intersection(&vec![Up, Left, Down], &vec![Down, Left, Up]), vec![Up, Left, Down]);
    assert_eq!(intersection(&vec![Blank, Down], &vec![Left, Right]), Vec::<Variant>::new());
    assert_eq!(intersection(&vec![], &vec![Left, Right]), Vec::<Variant>::new());
    assert_eq!(intersection(&vec![Left], &vec![]), Vec::<Variant>::new());
    assert_eq!(intersection(&vec![Blank, Down, Left, Right], &vec![Down, Left]), vec![Down, Left]);
}

#[test]
fn intersection_twice_is_intersection_once() {
    let a = vec![Up, Blank, Right, Down, Left];
    let b = vec![Down, Up, Left];
    let once = intersection(&a, &b);
    assert_eq!(once, vec![Up, Down, Left]);
    assert_eq!(intersection(&once, &b), once);
}

#[test]
fn contains_and_duplicate() {
    let list = vec![Down, Blank, Right];
    assert!(contains(&list, Down));
    assert!(contains(&list, Right));
    assert!(!contains(&list, Left));
    assert!(!contains(&Vec::new(), Blank));
    assert_eq!(duplicate(&list), list);
    assert_eq!(duplicate(&Vec::new()), Vec::<Variant>::new());
}
