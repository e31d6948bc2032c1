//! Candidate lists: short ordered lists of tiles without repetition.

use vstd::prelude::*;
use crate::tile::Variant;

verus! {

/// The predicate "occurs in `b`".
pub open spec fn member_of(b: Seq<Variant>) -> spec_fn(Variant) -> bool {
    |x: Variant| b.contains(x)
}

/// Filtering one element more: the filter of the first `i + 1` elements is
/// the filter of the first `i`, followed by element `i` where it passes.
pub proof fn lemma_filter_take_next<A>(s: Seq<A>, keep: spec_fn(A) -> bool, i: int)
    requires
        0 <= i < s.len(),
    ensures
        s.take(i + 1).filter(keep) == if keep(s[i]) {
            s.take(i).filter(keep).push(s[i])
        } else {
            s.take(i).filter(keep)
        },
{
    reveal(Seq::filter);
    assert(s.take(i + 1).drop_last() =~= s.take(i));
    assert(s.take(i + 1).last() == s[i]);
}

/// Two predicates that agree on every element of `s` filter `s` alike.
pub proof fn lemma_filter_agree<A>(
    s: Seq<A>,
    p: spec_fn(A) -> bool,
    q: spec_fn(A) -> bool,
)
    requires
        forall|i: int| 0 <= i < s.len() ==> p(#[trigger] s[i]) == q(s[i]),
    ensures
        s.filter(p) == s.filter(q),
    decreases s.len(),
{
    reveal(Seq::filter);
    if s.len() > 0 {
        let t = s.drop_last();
        assert forall|i: int| 0 <= i < t.len() implies p(#[trigger] t[i]) == q(t[i]) by {
            assert(t[i] == s[i]);
        }
        lemma_filter_agree::<A>(t, p, q);
        assert(p(s.last()) == q(s.last())) by {
            assert(s.last() == s[s.len() - 1]);
        }
    }
}

/// What a filter keeps: exactly the elements of `s` that pass.
pub proof fn lemma_filter_members<A>(s: Seq<A>, keep: spec_fn(A) -> bool)
    ensures
        forall|x: A| #[trigger] s.filter(keep).contains(x) <==> s.contains(x) && keep(x),
    decreases s.len(),
{
    reveal(Seq::filter);
    if s.len() > 0 {
        let t = s.drop_last();
        lemma_filter_members(t, keep);
        assert forall|x: A| #[trigger]
            s.filter(keep).contains(x) <==> s.contains(x) && keep(x) by {
            let f = s.filter(keep);
            let ft = t.filter(keep);
            if f.contains(x) {
                let k = choose|k: int| 0 <= k < f.len() && f[k] == x;
                if keep(s.last()) && k == ft.len() {
                    assert(s[s.len() - 1] == x);
                } else {
                    assert(ft[k] == x);
                    assert(ft.contains(x));
                    let m = choose|m: int| 0 <= m < t.len() && t[m] == x;
                    assert(s[m] == x);
                }
            }
            if s.contains(x) && keep(x) {
                let m = choose|m: int| 0 <= m < s.len() && s[m] == x;
                if m == s.len() - 1 {
                    assert(f == ft.push(s.last()));
                    assert(f[ft.len() as int] == x);
                } else {
                    assert(t[m] == x);
                    assert(t.contains(x));
                    assert(ft.contains(x));
                    let k = choose|k: int| 0 <= k < ft.len() && ft[k] == x;
                    assert(f[k] == x);
                }
            }
        }
    }
}

/// A filter of a list without repetition has no repetition.
pub proof fn lemma_filter_no_duplicates<A>(s: Seq<A>, keep: spec_fn(A) -> bool)
    requires
        s.no_duplicates(),
    ensures
        s.filter(keep).no_duplicates(),
    decreases s.len(),
{
    reveal(Seq::filter);
    if s.len() > 0 {
        let t = s.drop_last();
        lemma_filter_no_duplicates(t, keep);
        lemma_filter_members(t, keep);
        let ft = t.filter(keep);
        if keep(s.last()) {
            if ft.contains(s.last()) {
                let m = choose|m: int| 0 <= m < t.len() && t[m] == s.last();
                assert(s[m] == s[s.len() - 1]);
            }
            assert(!ft.contains(s.last()));
        }
    }
}

/// Filtering twice by the same predicate changes nothing the second time.
pub proof fn lemma_filter_twice<A>(s: Seq<A>, keep: spec_fn(A) -> bool)
    ensures
        s.filter(keep).filter(keep) == s.filter(keep),
    decreases s.len(),
{
    reveal(Seq::filter);
    if s.len() > 0 {
        let t = s.drop_last();
        lemma_filter_twice(t, keep);
        if keep(s.last()) {
            let ft = t.filter(keep);
            let f = ft.push(s.last());
            assert(f.drop_last() =~= ft);
            assert(f.last() == s.last());
        }
    }
}

/// Two lists that hold the same tiles equally often have the same length
/// and the same members, and neither repeats a tile unless the other does.
pub proof fn lemma_same_tiles(a: Seq<Variant>, b: Seq<Variant>)
    requires
        a.to_multiset() == b.to_multiset(),
    ensures
        a.len() == b.len(),
        forall|x: Variant| a.contains(x) <==> b.contains(x),
        a.no_duplicates() ==> b.no_duplicates(),
{
    a.to_multiset_ensures();
    b.to_multiset_ensures();
    assert forall|x: Variant| a.contains(x) <==> b.contains(x) by {
        assert(a.contains(x) <==> a.to_multiset().count(x) > 0);
        assert(b.contains(x) <==> b.to_multiset().count(x) > 0);
    }
    if a.no_duplicates() {
        a.lemma_multiset_has_no_duplicates();
        b.lemma_multiset_has_no_duplicates_conv();
    }
}

/// Whether `v` occurs in `list`.
pub fn contains(list: &Vec<Variant>, v: Variant) -> (r: bool)
    ensures
        r == list@.contains(v),
{
    let mut i: usize = 0;
    while i < list.len()
        invariant
            0 <= i <= list.len(),
            forall|k: int| 0 <= k < i ==> list@[k] != v,
        decreases list.len() - i,
    {
        if list[i] == v {
            return true;
        }
        i += 1;
    }
    false
}

/// A copy of `list`.
pub fn duplicate(list: &Vec<Variant>) -> (r: Vec<Variant>)
    ensures
        r@ == list@,
{
    let mut r: Vec<Variant> = Vec::new();
    let mut i: usize = 0;
    while i < list.len()
        invariant
            0 <= i <= list.len(),
            r@ == list@.take(i as int),
        decreases list.len() - i,
    {
        r.push(list[i]);
        assert(list@.take(i + 1) =~= list@.take(i as int).push(list@[i as int]));
        i += 1;
    }
    assert(list@.take(list.len() as int) =~= list@);
    r
}

/// The elements of `a` that also occur in `b`, in the order in which `a`
/// holds them.
pub fn intersection(a: &Vec<Variant>, b: &Vec<Variant>) -> (r: Vec<Variant>)
    ensures
        r@ == a@.filter(member_of(b@)),
{
    let mut r: Vec<Variant> = Vec::new();
    let mut i: usize = 0;
    proof {
        reveal(Seq::filter);
        assert(a@.take(0).len() == 0);
    }
    while i < a.len()
        invariant
            0 <= i <= a.len(),
            r@ == a@.take(i as int).filter(member_of(b@)),
        decreases a.len() - i,
    {
        let x: Variant = a[i];
        proof {
            lemma_filter_take_next(a@, member_of(b@), i as int);
        }
        if contains(b, x) {
            r.push(x);
        }
        i += 1;
    }
    assert(a@.take(a.len() as int) =~= a@);
    r
}

} // verus!
