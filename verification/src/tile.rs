//! The tile alphabet and the rule that decides which tiles may touch.

use vstd::prelude::*;
use crate::candidates::lemma_filter_take_next;

verus! {

/// A tile.  `Blank` carries no mark; each of the others is a T-shaped mark
/// that reaches three of the four edges and is named after the direction of
/// its stem.
#[derive(Clone, Copy, Debug, PartialEq, Eq, Structural, Hash)]
pub enum Variant {
    Blank,
    Down,
    Left,
    Right,
    Up,
}

/// The direction from a cell to one of its four neighbours.
#[derive(Clone, Copy, Debug, PartialEq, Eq, Structural, Hash)]
pub enum Side {
    Left,
    Right,
    Top,
    Bottom,
}

/// The alphabet in force: the four tiles without `Up`, or all five.
#[derive(Clone, Copy, Debug, PartialEq, Eq, Structural, Hash)]
pub enum VariantSet {
    Four,
    Five,
}

impl Side {
    /// The side that faces this one.
    pub open spec fn opposite_spec(self) -> Side {
        match self {
            Side::Left => Side::Right,
            Side::Right => Side::Left,
            Side::Top => Side::Bottom,
            Side::Bottom => Side::Top,
        }
    }

    /// The side that faces this one.
    #[verifier::when_used_as_spec(opposite_spec)]
    pub fn opposite(self) -> (r: Side)
        ensures
            r == self.opposite_spec(),
    {
        match self {
            Side::Left => Side::Right,
            Side::Right => Side::Left,
            Side::Top => Side::Bottom,
            Side::Bottom => Side::Top,
        }
    }

    /// Change of the row index when stepping to the neighbour on this side.
    pub open spec fn d_row(self) -> int {
        match self {
            Side::Top => -1,
            Side::Bottom => 1,
            _ => 0,
        }
    }

    /// Change of the column index when stepping to the neighbour on this side.
    pub open spec fn d_col(self) -> int {
        match self {
            Side::Left => -1,
            Side::Right => 1,
            _ => 0,
        }
    }
}

impl Variant {
    /// Whether the edge of this tile on `side` carries the mark.
    pub open spec fn marked_spec(self, side: Side) -> bool {
        match self {
            Variant::Blank => false,
            Variant::Down => side != Side::Top,
            Variant::Left => side != Side::Right,
            Variant::Right => side != Side::Left,
            Variant::Up => side != Side::Bottom,
        }
    }

    /// Whether the edge of this tile on `side` carries the mark.
    #[verifier::when_used_as_spec(marked_spec)]
    pub fn marked(self, side: Side) -> (r: bool)
        ensures
            r == self.marked_spec(side),
    {
        match self {
            Variant::Blank => false,
            Variant::Down => side != Side::Top,
            Variant::Left => side != Side::Right,
            Variant::Right => side != Side::Left,
            Variant::Up => side != Side::Bottom,
        }
    }

    /// Position of the tile in the alphabet.
    pub open spec fn rank(self) -> nat {
        match self {
            Variant::Blank => 0,
            Variant::Down => 1,
            Variant::Left => 2,
            Variant::Right => 3,
            Variant::Up => 4,
        }
    }

    /// Position of the tile in the alphabet, as an index into a list that
    /// is laid out in alphabet order.
    pub fn index(self) -> (r: usize)
        ensures
            r == self.rank(),
    {
        match self {
            Variant::Blank => 0,
            Variant::Down => 1,
            Variant::Left => 2,
            Variant::Right => 3,
            Variant::Up => 4,
        }
    }
}

impl VariantSet {
    /// Whether `v` belongs to this alphabet.
    pub open spec fn has_spec(self, v: Variant) -> bool {
        self == VariantSet::Five || v != Variant::Up
    }

    /// Whether `v` belongs to this alphabet.
    #[verifier::when_used_as_spec(has_spec)]
    pub fn has(self, v: Variant) -> (r: bool)
        ensures
            r == self.has_spec(v),
    {
        match self {
            VariantSet::Five => true,
            VariantSet::Four => v != Variant::Up,
        }
    }

    /// The tiles of this alphabet in rank order.
    pub open spec fn alphabet(self) -> Seq<Variant> {
        match self {
            VariantSet::Four => seq![
                Variant::Blank,
                Variant::Down,
                Variant::Left,
                Variant::Right,
            ],
            VariantSet::Five => seq![
                Variant::Blank,
                Variant::Down,
                Variant::Left,
                Variant::Right,
                Variant::Up,
            ],
        }
    }

    /// The tiles of this alphabet in rank order: the candidate list of a
    /// cell that nothing has constrained yet.
    pub fn variants(self) -> (r: Vec<Variant>)
        ensures
            r@ == self.alphabet(),
    {
        let mut r: Vec<Variant> = Vec::new();
        r.push(Variant::Blank);
        r.push(Variant::Down);
        r.push(Variant::Left);
        r.push(Variant::Right);
        match self {
            VariantSet::Four => {},
            VariantSet::Five => {
                r.push(Variant::Up);
            },
        }
        assert(r@ =~= self.alphabet());
        r
    }

    /// Number of tiles in this alphabet.
    pub fn count(self) -> (len: usize)
        ensures
            len == self.alphabet().len(),
    {
        match self {
            VariantSet::Four => 4,
            VariantSet::Five => 5,
        }
    }

    /// The tile at position `k` of this alphabet: the tile whose rank is
    /// `k`.  A random draw of a tile is a random draw of `k`.
    pub fn variant_at(self, k: usize) -> (v: Variant)
        requires
            k < self.alphabet().len(),
        ensures
            v == self.alphabet()[k as int],
            v.rank() == k,
            self.has_spec(v),
    {
        if k == 0 {
            Variant::Blank
        } else if k == 1 {
            Variant::Down
        } else if k == 2 {
            Variant::Left
        } else if k == 3 {
            Variant::Right
        } else {
            Variant::Up
        }
    }
}

/// The adjacency rule.  A cell holding `v` allows `w` on its `side` when
/// both tiles belong to the alphabet and the two edges that touch are
/// coloured alike: the edge of `v` on `side` and the edge of `w` on the
/// opposite side are both marked or both blank.
pub open spec fn allows(set: VariantSet, v: Variant, side: Side, w: Variant) -> bool {
    &&& set.has_spec(v)
    &&& set.has_spec(w)
    &&& v.marked_spec(side) == w.marked_spec(side.opposite_spec())
}

/// The adjacency rule for a fixed tile and side, as a predicate on the
/// neighbour's tile.
pub open spec fn allowed_by(set: VariantSet, v: Variant, side: Side) -> spec_fn(Variant) -> bool {
    |w: Variant| allows(set, v, side, w)
}

/// Whether a list of tiles is in strictly rising rank order.
pub open spec fn rank_sorted(s: Seq<Variant>) -> bool {
    forall|i: int, j: int| 0 <= i < j < s.len() ==> s[i].rank() < s[j].rank()
}

/// The list that holds `v` where `keep` is true and nothing otherwise.
pub open spec fn one_if(keep: bool, v: Variant) -> Seq<Variant> {
    if keep {
        seq![v]
    } else {
        Seq::empty()
    }
}

/// Filtering an alphabet amounts to deciding for each of its tiles in turn
/// whether it stays.
pub proof fn lemma_filter_alphabet(set: VariantSet, keep: spec_fn(Variant) -> bool)
    ensures
        set.alphabet().filter(keep) == one_if(keep(Variant::Blank), Variant::Blank) + one_if(
            keep(Variant::Down),
            Variant::Down,
        ) + one_if(keep(Variant::Left), Variant::Left) + one_if(
            keep(Variant::Right),
            Variant::Right,
        ) + one_if(set == VariantSet::Five && keep(Variant::Up), Variant::Up),
{
    let a = set.alphabet();
    reveal(Seq::filter);
    assert(a.take(0).filter(keep) =~= Seq::empty());
    lemma_filter_take_next(a, keep, 0);
    lemma_filter_take_next(a, keep, 1);
    lemma_filter_take_next(a, keep, 2);
    lemma_filter_take_next(a, keep, 3);
    if set == VariantSet::Five {
        lemma_filter_take_next(a, keep, 4);
        assert(a.take(5) =~= a);
    } else {
        assert(a.take(4) =~= a);
    }
    assert(a.filter(keep) =~= one_if(keep(Variant::Blank), Variant::Blank) + one_if(
        keep(Variant::Down),
        Variant::Down,
    ) + one_if(keep(Variant::Left), Variant::Left) + one_if(keep(Variant::Right), Variant::Right)
        + one_if(set == VariantSet::Five && keep(Variant::Up), Variant::Up));
}

/// The adjacency table: the tiles that a cell holding `v` permits on its
/// `side`, which are the tiles of the alphabet that the adjacency rule
/// allows there, in the order of the alphabet.  A tile outside the alphabet
/// permits nothing.
pub fn permitted(set: VariantSet, v: Variant, side: Side) -> (r: Vec<Variant>)
    ensures
        r@ == set.alphabet().filter(allowed_by(set, v, side)),
        forall|w: Variant| r@.contains(w) <==> allows(set, v, side, w),
        rank_sorted(r@),
{
    let five: bool = match set {
        VariantSet::Five => true,
        VariantSet::Four => false,
    };
    let mut r: Vec<Variant> = Vec::new();
    proof {
        lemma_filter_alphabet(set, allowed_by(set, v, side));
    }
    if !set.has(v) {
        assert(r@ =~= set.alphabet().filter(allowed_by(set, v, side)));
        return r;
    }
    match side {
        Side::Left => match v {
            Variant::Blank | Variant::Right => {
                r.push(Variant::Blank);
                r.push(Variant::Left);
            },
            Variant::Down | Variant::Left | Variant::Up => {
                r.push(Variant::Down);
                r.push(Variant::Right);
                if five {
                    r.push(Variant::Up);
                }
            },
        },
        Side::Right => match v {
            Variant::Blank | Variant::Left => {
                r.push(Variant::Blank);
                r.push(Variant::Right);
            },
            Variant::Down | Variant::Right | Variant::Up => {
                r.push(Variant::Down);
                r.push(Variant::Left);
                if five {
                    r.push(Variant::Up);
                }
            },
        },
        Side::Top => match v {
            Variant::Blank | Variant::Down => {
                r.push(Variant::Blank);
                if five {
                    r.push(Variant::Up);
                }
            },
            Variant::Left | Variant::Right | Variant::Up => {
                r.push(Variant::Down);
                r.push(Variant::Left);
                r.push(Variant::Right);
            },
        },
        Side::Bottom => match v {
            Variant::Blank | Variant::Up => {
                r.push(Variant::Blank);
                r.push(Variant::Down);
            },
            Variant::Down | Variant::Left | Variant::Right => {
                r.push(Variant::Left);
                r.push(Variant::Right);
                if five {
                    r.push(Variant::Up);
                }
            },
        },
    }
    proof {
        assert(r@ =~= set.alphabet().filter(allowed_by(set, v, side)));
        assert forall|w: Variant| r@.contains(w) <==> allows(set, v, side, w) by {
            if allows(set, v, side, w) {
                assert(exists|i: int| 0 <= i < r@.len() && r@[i] == w) by {
                    if r@[0] == w {
                    } else if r@[1] == w {
                    } else {
                        assert(r@[2] == w);
                    }
                }
            }
        }
    }
    r
}

/// The adjacency rule is symmetric: `w` is allowed on `side` of `v` exactly
/// when `v` is allowed on the opposite side of `w`.
pub proof fn lemma_allows_symmetric(set: VariantSet, v: Variant, side: Side, w: Variant)
    ensures
        allows(set, v, side, w) <==> allows(set, w, side.opposite_spec(), v),
{
}

} // verus!
