//! Minimum and maximum of a collection of TypeIDs, computed incrementally
//! and mergeable across partial results.
use std::cmp::Ordering;

use vstd::prelude::*;

use crate::typeid::{id_cmp, lemma_cmp_antisymmetric, lemma_cmp_transitive, TypeID};

verus! {

/// A TypeID seen as its prefix and value.
pub type IdView = (Seq<char>, u128);

/// The view of an optional TypeID.
pub open spec fn view_opt(o: Option<TypeID>) -> Option<IdView> {
    match o {
        Some(t) => Some(t@),
        None => None,
    }
}

/// The opposite direction of an order.
pub open spec fn reverse(w: Ordering) -> Ordering {
    match w {
        Ordering::Less => Ordering::Greater,
        Ordering::Greater => Ordering::Less,
        Ordering::Equal => Ordering::Equal,
    }
}

/// Of `x` and `y`, the one that lies further in direction `w` (`Less` for
/// the smaller, `Greater` for the larger).
pub open spec fn pick(x: IdView, y: IdView, w: Ordering) -> IdView {
    if id_cmp(x, y) == w {
        x
    } else {
        y
    }
}

/// Merges two partial results; `None` is the result over no TypeID.
pub open spec fn merge(a: Option<IdView>, b: Option<IdView>, w: Ordering) -> Option<IdView> {
    match (a, b) {
        (None, b) => b,
        (a, None) => a,
        (Some(x), Some(y)) => Some(pick(x, y, w)),
    }
}

/// The result over `s`, taken one TypeID at a time from the front.
pub open spec fn extreme(s: Seq<IdView>, w: Ordering) -> Option<IdView>
    decreases s.len(),
{
    if s.len() == 0 {
        None
    } else {
        merge(extreme(s.drop_last(), w), Some(s.last()), w)
    }
}

/// A direction in which to look for an extreme.
pub open spec fn is_direction(w: Ordering) -> bool {
    w == Ordering::Less || w == Ordering::Greater
}

proof fn lemma_pick_commutes(x: IdView, y: IdView, w: Ordering)
    requires
        is_direction(w),
    ensures
        pick(x, y, w) == pick(y, x, w),
        id_cmp(pick(x, y, w), x) != reverse(w),
        id_cmp(pick(x, y, w), y) != reverse(w),
        pick(x, y, w) == x || pick(x, y, w) == y,
{
    lemma_cmp_antisymmetric(x, y);
    lemma_cmp_antisymmetric(y, x);
    lemma_cmp_antisymmetric(x, x);
    lemma_cmp_antisymmetric(y, y);
}

proof fn lemma_pick_associates(x: IdView, y: IdView, z: IdView, w: Ordering)
    requires
        is_direction(w),
    ensures
        pick(pick(x, y, w), z, w) == pick(x, pick(y, z, w), w),
{
    lemma_cmp_antisymmetric(x, y);
    lemma_cmp_antisymmetric(y, z);
    lemma_cmp_antisymmetric(x, z);
    lemma_cmp_antisymmetric(y, x);
    lemma_cmp_antisymmetric(z, y);
    lemma_cmp_antisymmetric(z, x);
    if w == Ordering::Less {
        if id_cmp(x, y) != Ordering::Greater && id_cmp(y, z) != Ordering::Greater {
            lemma_cmp_transitive(x, y, z);
        }
        if id_cmp(z, y) != Ordering::Greater && id_cmp(y, x) != Ordering::Greater {
            lemma_cmp_transitive(z, y, x);
        }
    } else {
        if id_cmp(x, y) != Ordering::Less && id_cmp(y, z) != Ordering::Less {
            lemma_cmp_transitive(z, y, x);
        }
        if id_cmp(z, y) != Ordering::Less && id_cmp(y, x) != Ordering::Less {
            lemma_cmp_transitive(x, y, z);
        }
    }
}

proof fn lemma_merge_associates(
    a: Option<IdView>,
    b: Option<IdView>,
    c: Option<IdView>,
    w: Ordering,
)
    requires
        is_direction(w),
    ensures
        merge(merge(a, b, w), c, w) == merge(a, merge(b, c, w), w),
{
    if a is Some && b is Some && c is Some {
        lemma_pick_associates(a->0, b->0, c->0, w);
    }
}

/// Over no TypeID there is no result; otherwise the result is one of the
/// TypeIDs, and no other lies further in direction `w` (`Less`: it is the
/// one with the smallest prefix, ties going to the smallest value).
pub proof fn lemma_extreme_bound(s: Seq<IdView>, w: Ordering)
    requires
        is_direction(w),
    ensures
        s.len() == 0 <==> extreme(s, w) is None,
        s.len() > 0 ==> s.contains(extreme(s, w)->0),
        forall|i: int| 0 <= i < s.len() ==> id_cmp(extreme(s, w)->0, #[trigger] s[i]) != reverse(w),
    decreases s.len(),
{
    if s.len() > 0 {
        let rest = s.drop_last();
        lemma_extreme_bound(rest, w);
        let m = extreme(s, w)->0;
        if rest.len() == 0 {
            lemma_cmp_antisymmetric(s.last(), s.last());
            assert(s[s.len() - 1] == s.last());
            assert forall|i: int| 0 <= i < s.len() implies id_cmp(m, #[trigger] s[i]) != reverse(
                w,
            ) by {
                assert(i == s.len() - 1);
            }
        } else {
            let r = extreme(rest, w)->0;
            lemma_pick_commutes(r, s.last(), w);
            assert forall|i: int| 0 <= i < s.len() implies id_cmp(m, #[trigger] s[i]) != reverse(
                w,
            ) by {
                if i < s.len() - 1 {
                    assert(s[i] == rest[i]);
                    lemma_cmp_antisymmetric(m, r);
                    lemma_cmp_antisymmetric(r, rest[i]);
                    lemma_cmp_antisymmetric(m, rest[i]);
                    if w == Ordering::Less {
                        lemma_cmp_transitive(m, r, rest[i]);
                    } else {
                        lemma_cmp_antisymmetric(rest[i], r);
                        lemma_cmp_antisymmetric(r, m);
                        lemma_cmp_antisymmetric(rest[i], m);
                        lemma_cmp_transitive(rest[i], r, m);
                    }
                }
            }
            let k = choose|k: int| 0 <= k < rest.len() && rest[k] == r;
            assert(s[k] == r);
            assert(s[s.len() - 1] == s.last());
        }
    }
}

/// Merging the results over two sequences gives the result over both.
pub proof fn lemma_extreme_concat(a: Seq<IdView>, b: Seq<IdView>, w: Ordering)
    requires
        is_direction(w),
    ensures
        merge(extreme(a, w), extreme(b, w), w) == extreme(a + b, w),
    decreases b.len(),
{
    if b.len() == 0 {
        assert(a + b =~= a);
    } else {
        let b0 = b.drop_last();
        lemma_extreme_concat(a, b0, w);
        assert((a + b).drop_last() =~= a + b0);
        assert((a + b).last() == b.last());
        lemma_merge_associates(extreme(a, w), extreme(b0, w), Some(b.last()), w);
    }
}

/// The result depends only on which TypeIDs occur, not on their order or
/// repetition.
pub proof fn lemma_extreme_same_elements(s: Seq<IdView>, t: Seq<IdView>, w: Ordering)
    requires
        is_direction(w),
        s.to_set() == t.to_set(),
    ensures
        extreme(s, w) == extreme(t, w),
{
    lemma_extreme_bound(s, w);
    lemma_extreme_bound(t, w);
    if s.len() == 0 && t.len() > 0 {
        assert(t.to_set().contains(t[0]));
    } else if t.len() == 0 && s.len() > 0 {
        assert(s.to_set().contains(s[0]));
    } else if s.len() > 0 {
        let m = extreme(s, w)->0;
        let n = extreme(t, w)->0;
        assert(t.to_set().contains(m));
        assert(s.to_set().contains(n));
        let i = choose|i: int| 0 <= i < t.len() && t[i] == m;
        let j = choose|j: int| 0 <= j < s.len() && s[j] == n;
        lemma_cmp_antisymmetric(m, n);
        lemma_cmp_antisymmetric(n, m);
    }
}

/// Splitting a collection in two, computing each part's result
/// independently and merging them gives the result over the whole.
pub proof fn lemma_extreme_partition(
    s: Seq<IdView>,
    a: Seq<IdView>,
    b: Seq<IdView>,
    w: Ordering,
)
    requires
        is_direction(w),
        a.to_set() + b.to_set() == s.to_set(),
    ensures
        merge(extreme(a, w), extreme(b, w), w) == extreme(s, w),
{
    lemma_extreme_concat(a, b, w);
    assert((a + b).to_set() =~= a.to_set() + b.to_set()) by {
        assert forall|x: IdView| (a + b).to_set().contains(x) implies (a.to_set()
            + b.to_set()).contains(x) by {
            let i = choose|i: int| 0 <= i < (a + b).len() && (a + b)[i] == x;
            if i < a.len() {
                assert(a[i] == x);
            } else {
                assert(b[i - a.len()] == x);
            }
        }
        assert forall|x: IdView| (a.to_set() + b.to_set()).contains(x) implies (a
            + b).to_set().contains(x) by {
            if a.to_set().contains(x) {
                let i = choose|i: int| 0 <= i < a.len() && a[i] == x;
                assert((a + b)[i] == x);
            } else {
                let i = choose|i: int| 0 <= i < b.len() && b[i] == x;
                assert((a + b)[a.len() + i] == x);
            }
        }
    }
    lemma_extreme_same_elements(a + b, s, w);
}

/// The `min` aggregate over TypeIDs.
pub struct TypeIDMin;

/// The `max` aggregate over TypeIDs.
pub struct TypeIDMax;

/// Of two optional TypeIDs, the one further in direction `w`; `b` when
/// neither lies further.
fn merge_in(a: Option<TypeID>, b: Option<TypeID>, w: Ordering) -> (r: Option<TypeID>)
    requires
        is_direction(w),
    ensures
        view_opt(r) == merge(view_opt(a), view_opt(b), w),
{
    match (a, b) {
        (None, s) => s,
        (s, None) => s,
        (Some(x), Some(y)) => {
            let c = x.compare(&y);
            let first = match (c, w) {
                (Ordering::Less, Ordering::Less) => true,
                (Ordering::Greater, Ordering::Greater) => true,
                _ => false,
            };
            if first {
                Some(x)
            } else {
                Some(y)
            }
        },
    }
}

impl TypeIDMin {
    /// Adds `arg` to the running minimum `current`.
    pub fn state(current: Option<TypeID>, arg: TypeID) -> (r: Option<TypeID>)
        ensures
            view_opt(r) == merge(view_opt(current), Some(arg@), Ordering::Less),
    {
        proof {
            if current is Some {
                lemma_pick_commutes(current->0@, arg@, Ordering::Less);
            }
        }
        merge_in(Some(arg), current, Ordering::Less)
    }

    /// Merges two partial minima.
    pub fn combine(left: Option<TypeID>, right: Option<TypeID>) -> (r: Option<TypeID>)
        ensures
            view_opt(r) == merge(view_opt(left), view_opt(right), Ordering::Less),
    {
        merge_in(left, right, Ordering::Less)
    }
}

impl TypeIDMax {
    /// Adds `arg` to the running maximum `current`.
    pub fn state(current: Option<TypeID>, arg: TypeID) -> (r: Option<TypeID>)
        ensures
            view_opt(r) == merge(view_opt(current), Some(arg@), Ordering::Greater),
    {
        proof {
            if current is Some {
                lemma_pick_commutes(current->0@, arg@, Ordering::Greater);
            }
        }
        merge_in(Some(arg), current, Ordering::Greater)
    }

    /// Merges two partial maxima.
    pub fn combine(left: Option<TypeID>, right: Option<TypeID>) -> (r: Option<TypeID>)
        ensures
            view_opt(r) == merge(view_opt(left), view_opt(right), Ordering::Greater),
    {
        merge_in(left, right, Ordering::Greater)
    }
}

} // verus!
