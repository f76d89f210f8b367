//! The total order on elements, as a strict relation and an equivalence,
//! together with the laws that the rest of the library relies on.
use vstd::prelude::*;
use vstd::laws_cmp::*;
use vstd::laws_eq::*;
use vstd::std_specs::cmp::OrdSpec;
use std::cmp::Ordering;

verus! {

/// The comparison of `T` is a lawful total order that executable
/// comparisons agree with.
pub open spec fn total_order<T: Ord>() -> bool {
    obeys_cmp::<T>()
}

/// `a` sorts strictly before `b`.
pub open spec fn lt<T: Ord>(a: T, b: T) -> bool {
    a.cmp_spec(&b) == Ordering::Less
}

/// `a` and `b` compare as equal.
pub open spec fn equiv<T: Ord>(a: T, b: T) -> bool {
    a.cmp_spec(&b) == Ordering::Equal
}

/// The laws of a total order, stated over `lt` and `equiv`.
pub proof fn lemma_total_order<T: Ord>()
    requires
        total_order::<T>(),
    ensures
        forall|a: T| #[trigger] equiv(a, a),
        forall|a: T, b: T| #[trigger] lt(a, b) ==> !lt(b, a) && !equiv(a, b) && !equiv(b, a),
        forall|a: T, b: T| #[trigger] equiv(a, b) ==> equiv(b, a),
        forall|a: T, b: T| #[trigger] lt(a, b) || equiv(a, b) || lt(b, a),
        forall|a: T, b: T, c: T| #[trigger] lt(a, b) && #[trigger] lt(b, c) ==> lt(a, c),
        forall|a: T, b: T, c: T| #[trigger] lt(a, b) && #[trigger] equiv(b, c) ==> lt(a, c),
        forall|a: T, b: T, c: T| #[trigger] equiv(a, b) && #[trigger] lt(b, c) ==> lt(a, c),
        forall|a: T, b: T, c: T| #[trigger] equiv(a, b) && #[trigger] equiv(b, c) ==> equiv(a, c),
        forall|a: T, b: T, c: T| !#[trigger] lt(b, a) && #[trigger] lt(b, c) ==> lt(a, c),
        forall|a: T, b: T, c: T| #[trigger] lt(a, b) && !#[trigger] lt(c, b) ==> lt(a, c),
{
    reveal(obeys_eq_spec_properties);
    reveal(obeys_partial_cmp_spec_properties);
    reveal(obeys_cmp_partial_ord);
    reveal(obeys_cmp_ord);
}

/// How one element stands to another.
#[derive(Debug, Clone, Copy, PartialEq, Eq, Structural)]
pub enum Relation {
    Before,
    Same,
    After,
}

/// How `a` stands to `b` in the order of `T`.
pub open spec fn relation<T: Ord>(a: T, b: T) -> Relation {
    if lt(a, b) {
        Relation::Before
    } else if equiv(a, b) {
        Relation::Same
    } else {
        Relation::After
    }
}

/// Three-way comparison of two elements.
pub fn compare<T: Ord>(a: &T, b: &T) -> (r: Relation)
    requires
        total_order::<T>(),
    ensures
        r == relation(*a, *b),
{
    proof {
        reveal(obeys_cmp_ord);
    }
    match a.cmp(b) {
        Ordering::Less => Relation::Before,
        Ordering::Equal => Relation::Same,
        Ordering::Greater => Relation::After,
    }
}

/// No element of `s` sorts after a later one.
pub open spec fn sorted<T: Ord>(s: Seq<T>) -> bool {
    forall|i: int, j: int| 0 <= i < j < s.len() ==> !lt(#[trigger] s[j], #[trigger] s[i])
}

/// Every element of `s` sorts strictly before every later one.
pub open spec fn strictly_sorted<T: Ord>(s: Seq<T>) -> bool {
    forall|i: int, j: int| 0 <= i < j < s.len() ==> lt(#[trigger] s[i], #[trigger] s[j])
}

/// Some element of `s` compares as equal to `x`.
pub open spec fn has_equiv<T: Ord>(s: Seq<T>, x: T) -> bool {
    exists|i: int| 0 <= i < s.len() && equiv(#[trigger] s[i], x)
}

/// `r` is the place of `x` in `s`: what stands before `r` sorts before `x`,
/// and `x` sorts before what stands at `r` or later.
pub open spec fn splits_at<T: Ord>(s: Seq<T>, x: T, r: int) -> bool {
    &&& 0 <= r <= s.len()
    &&& forall|j: int| 0 <= j < r ==> lt(#[trigger] s[j], x)
    &&& forall|j: int| r <= j < s.len() ==> lt(x, #[trigger] s[j])
}

/// A strictly sorted sequence is sorted.
pub proof fn lemma_strictly_sorted_is_sorted<T: Ord>(s: Seq<T>)
    requires
        total_order::<T>(),
        strictly_sorted(s),
    ensures
        sorted(s),
{
    lemma_total_order::<T>();
}

/// The place of `x` in `s`, where `s` is strictly sorted and holds no
/// element that compares as equal to `x`.
pub open spec fn place_of<T: Ord>(s: Seq<T>, x: T) -> int {
    choose|r: int| splits_at(s, x, r)
}

/// The position in `s` of an element that compares as equal to `x`.
pub open spec fn position_of<T: Ord>(s: Seq<T>, x: T) -> int {
    choose|r: int| 0 <= r < s.len() && equiv(s[r], x)
}

/// A value has one place at most.
pub proof fn lemma_place_unique<T: Ord>(s: Seq<T>, x: T, r: int)
    requires
        total_order::<T>(),
        splits_at(s, x, r),
    ensures
        place_of(s, x) == r,
        !has_equiv(s, x),
{
    lemma_total_order::<T>();
    let p = place_of(s, x);
    assert(splits_at(s, x, p));
    if p < r {
        assert(lt(s[p], x) && lt(x, s[p]));
    }
    if r < p {
        assert(lt(s[r], x) && lt(x, s[r]));
    }
    assert forall|i: int| 0 <= i < s.len() implies !equiv(#[trigger] s[i], x) by {
        if i < r {
            assert(lt(s[i], x));
        } else {
            assert(lt(x, s[i]));
        }
    }
}

/// In a strictly sorted sequence a value that no element compares as equal
/// to has a place.
pub proof fn lemma_place_exists<T: Ord>(s: Seq<T>, x: T)
    requires
        total_order::<T>(),
        strictly_sorted(s),
        !has_equiv(s, x),
    ensures
        splits_at(s, x, place_of(s, x)),
    decreases s.len(),
{
    lemma_total_order::<T>();
    if s.len() == 0 {
        assert(splits_at(s, x, 0));
    } else {
        let init = s.drop_last();
        let top = s.len() - 1;
        assert forall|i: int| 0 <= i < init.len() implies !equiv(#[trigger] init[i], x) by {
            assert(init[i] == s[i]);
        }
        lemma_place_exists(init, x);
        let r = place_of(init, x);
        assert(!equiv(s[top], x));
        if lt(s[top], x) {
            assert forall|j: int| 0 <= j < s.len() implies lt(#[trigger] s[j], x) by {
                if j < top {
                    assert(lt(s[j], s[top]));
                }
            }
            assert(splits_at(s, x, s.len() as int));
        } else {
            assert forall|j: int| 0 <= j < r implies lt(#[trigger] s[j], x) by {
                assert(init[j] == s[j]);
            }
            assert forall|j: int| r <= j < s.len() implies lt(x, #[trigger] s[j]) by {
                if j < top {
                    assert(init[j] == s[j]);
                }
            }
            assert(splits_at(s, x, r));
        }
    }
}

/// In a strictly sorted sequence one element at most compares as equal to
/// a given value.
pub proof fn lemma_position_unique<T: Ord>(s: Seq<T>, x: T, r: int)
    requires
        total_order::<T>(),
        strictly_sorted(s),
        0 <= r < s.len(),
        equiv(s[r], x),
    ensures
        position_of(s, x) == r,
        has_equiv(s, x),
{
    lemma_total_order::<T>();
    let p = position_of(s, x);
    assert(0 <= p < s.len() && equiv(s[p], x));
    if p < r {
        assert(lt(s[p], s[r]));
    }
    if r < p {
        assert(lt(s[r], s[p]));
    }
}

/// Putting a value at its place keeps a strictly sorted sequence so.
pub proof fn lemma_insert_sorted<T: Ord>(s: Seq<T>, x: T, r: int)
    requires
        total_order::<T>(),
        strictly_sorted(s),
        splits_at(s, x, r),
    ensures
        strictly_sorted(s.insert(r, x)),
{
    lemma_total_order::<T>();
    let n = s.insert(r, x);
    assert forall|i: int, j: int| 0 <= i < j < n.len() implies lt(#[trigger] n[i], #[trigger] n[j]) by {
        let oi = if i < r { i } else { i - 1 };
        let oj = if j < r { j } else { j - 1 };
        if i != r && j != r {
            assert(lt(s[oi], s[oj]));
        } else if i == r {
            assert(lt(x, s[oj]));
        } else {
            assert(lt(s[oi], x));
        }
    }
}

/// Taking an element out keeps a strictly sorted sequence so.
pub proof fn lemma_remove_sorted<T: Ord>(s: Seq<T>, r: int)
    requires
        strictly_sorted(s),
        0 <= r < s.len(),
    ensures
        strictly_sorted(s.remove(r)),
{
    let n = s.remove(r);
    assert forall|i: int, j: int| 0 <= i < j < n.len() implies lt(#[trigger] n[i], #[trigger] n[j]) by {
        let oi = if i < r { i } else { i + 1 };
        let oj = if j < r { j } else { j + 1 };
        assert(lt(s[oi], s[oj]));
    }
}

} // verus!
