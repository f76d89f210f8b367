//! A bucket: one ascending run of elements.
use vstd::prelude::*;
use std::cmp::Ordering;
use crate::AddResult;
use crate::order::{compare, equiv, has_equiv, lemma_total_order, lt, sorted, splits_at,
    strictly_sorted, total_order, Relation};

verus! {

/// An ascending run of elements. The run is kept ascending by `add`;
/// `new` and `insert` take the caller's word for it.
#[derive(Debug)]
pub struct Bucket<T: Ord> {
    pub data: Vec<T>,
}

impl<T: Ord> View for Bucket<T> {
    type V = Seq<T>;

    open spec fn view(&self) -> Seq<T> {
        self.data@
    }
}

/// Where a value stands relative to the range that a run covers.
#[derive(Debug, Clone, Copy, PartialEq, Eq, Structural)]
pub enum Side {
    /// The value sorts before the first element of the run.
    Before,
    /// The value falls within the range, or the run is empty.
    Within,
    /// The value sorts after the last element of the run.
    After,
}

/// Where `x` stands relative to the range of the run `s`.
pub open spec fn side_of<T: Ord>(s: Seq<T>, x: T) -> Side {
    if s.len() == 0 {
        Side::Within
    } else if lt(x, s.first()) {
        Side::Before
    } else if lt(s.last(), x) {
        Side::After
    } else {
        Side::Within
    }
}

/// The range comparison of a run against a value: `Greater` when the run
/// starts after `x`, `Less` when it ends before `x`, `Equal` when `x` falls
/// within the range or the run is empty.
pub open spec fn range_side<T: Ord>(s: Seq<T>, x: T) -> Ordering {
    match side_of(s, x) {
        Side::Before => Ordering::Greater,
        Side::Within => Ordering::Equal,
        Side::After => Ordering::Less,
    }
}

impl<T: Ord> Default for Bucket<T> {
    fn default() -> (r: Self)
        ensures
            r@ == Seq::<T>::empty(),
    {
        Bucket { data: Vec::new() }
    }
}

impl<T: Ord> Bucket<T> {
    /// A bucket that holds `data` as it stands.
    pub fn new(data: Vec<T>) -> (r: Self)
        ensures
            r.data == data,
    {
        Bucket { data }
    }

    /// A bucket without elements.
    pub fn empty() -> (r: Self)
        ensures
            r@ == Seq::<T>::empty(),
    {
        Bucket { data: Vec::new() }
    }

    /// Appends `value` at the end, whatever its order.
    pub fn insert(&mut self, value: T)
        ensures
            final(self)@ == old(self)@.push(value),
    {
        self.data.push(value);
    }

    /// The number of elements.
    pub fn len(&self) -> (r: usize)
        ensures
            r == self@.len(),
    {
        self.data.len()
    }

    /// Moves the upper half of the run into a new bucket and keeps the lower
    /// half, which is the shorter one where the length is odd.
    pub fn split(&mut self) -> (other: Bucket<T>)
        ensures
            final(self)@ == old(self)@.take(old(self)@.len() as int / 2),
            other@ == old(self)@.skip(old(self)@.len() as int / 2),
            final(self)@ + other@ == old(self)@,
            final(self)@.len() == old(self)@.len() / 2,
            other@.len() == old(self)@.len() - old(self)@.len() / 2,
    {
        let at: usize = self.data.len() / 2;
        let upper = self.data.split_off(at);
        proof {
            let whole = old(self)@;
            assert(whole.take(at as int) + whole.skip(at as int) =~= whole);
        }
        Bucket { data: upper }
    }

    /// Looks `item` up in a sorted run: `Ok` with the position of an element
    /// that compares as equal, or `Err` with the position at which `item`
    /// keeps the run sorted.
    pub fn search(&self, item: &T) -> (r: Result<usize, usize>)
        requires
            total_order::<T>(),
            sorted(self@),
        ensures
            match r {
                Ok(i) => i < self@.len() && equiv(self@[i as int], *item),
                Err(i) => !has_equiv(self@, *item) && splits_at(self@, *item, i as int),
            },
    {
        let mut lo: usize = 0;
        let mut hi: usize = self.data.len();
        proof {
            lemma_total_order::<T>();
        }
        while lo < hi
            invariant
                total_order::<T>(),
                sorted(self@),
                0 <= lo <= hi <= self@.len(),
                forall|j: int| 0 <= j < lo ==> lt(#[trigger] self@[j], *item),
                forall|j: int| hi <= j < self@.len() ==> lt(*item, #[trigger] self@[j]),
            decreases hi - lo,
        {
            let mid: usize = lo + (hi - lo) / 2;
            proof {
                lemma_total_order::<T>();
            }
            match compare(&self.data[mid], item) {
                Relation::Same => {
                    return Ok(mid);
                },
                Relation::Before => {
                    assert forall|j: int| 0 <= j < mid + 1 implies lt(#[trigger] self@[j], *item) by {
                        if j < mid {
                            assert(!lt(self@[mid as int], self@[j]));
                        }
                    }
                    lo = mid + 1;
                },
                Relation::After => {
                    assert forall|j: int| mid <= j < self@.len() implies lt(*item, #[trigger] self@[j]) by {
                        if j > mid {
                            assert(!lt(self@[j], self@[mid as int]));
                        }
                    }
                    hi = mid;
                },
            }
        }
        proof {
            lemma_total_order::<T>();
        }
        Err(lo)
    }

    /// Adds `item` to a sorted run unless an element compares as equal to
    /// it, and reports where it was put or where the equal element stands.
    pub fn add(&mut self, item: T) -> (r: AddResult)
        requires
            total_order::<T>(),
            sorted(old(self)@),
        ensures
            match r {
                AddResult::Duplicated(i) => {
                    &&& i < old(self)@.len()
                    &&& equiv(old(self)@[i as int], item)
                    &&& final(self)@ == old(self)@
                },
                AddResult::Added(i) => {
                    &&& !has_equiv(old(self)@, item)
                    &&& splits_at(old(self)@, item, i as int)
                    &&& final(self)@ == old(self)@.insert(i as int, item)
                },
            },
            sorted(final(self)@),
            strictly_sorted(old(self)@) ==> strictly_sorted(final(self)@),
    {
        match self.search(&item) {
            Ok(idx) => AddResult::Duplicated(idx),
            Err(idx) => {
                self.data.insert(idx, item);
                proof {
                    lemma_total_order::<T>();
                }
                AddResult::Added(idx)
            },
        }
    }

    /// Where `item` stands relative to the range that this bucket covers.
    pub fn side(&self, item: &T) -> (r: Side)
        requires
            total_order::<T>(),
        ensures
            r == side_of(self@, *item),
    {
        let n: usize = self.data.len();
        if n == 0 {
            return Side::Within;
        }
        match compare(item, &self.data[0]) {
            Relation::Before => {
                return Side::Before;
            },
            _ => {},
        }
        match compare(&self.data[n - 1], item) {
            Relation::Before => Side::After,
            _ => Side::Within,
        }
    }

    /// The range comparison of this bucket against `item`.
    pub fn item_compare(&self, item: &T) -> (r: Ordering)
        requires
            total_order::<T>(),
        ensures
            r == range_side(self@, *item),
    {
        match self.side(item) {
            Side::Before => Ordering::Greater,
            Side::Within => Ordering::Equal,
            Side::After => Ordering::Less,
        }
    }
}

} // verus!
