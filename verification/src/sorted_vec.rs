//! The container: a sequence of buckets whose runs, laid end to end, hold
//! the elements in strictly ascending order.
use vstd::prelude::*;
use crate::AddResult;
use crate::bucket::{side_of, Bucket, Side};
use crate::order::{equiv, has_equiv, lemma_insert_sorted, lemma_place_exists, lemma_place_unique,
    lemma_position_unique, lemma_remove_sorted, lemma_strictly_sorted_is_sorted,
    lemma_total_order, lt, place_of, position_of, sorted, splits_at, strictly_sorted,
    total_order};
use crate::runs::{lemma_cut, lemma_drop_empty, lemma_index, lemma_insert_in_run,
    lemma_count, lemma_offset_ends, lemma_parts, lemma_remove_in_run, lemma_run_sorted,
    lemma_runs_ordered, count, offset};
use crate::sorted_vec_iter::SortedVecIter;

verus! {

/// Where an element was found: its bucket and its position in that bucket.
#[derive(Debug, Clone, Copy, PartialEq, Eq, Structural)]
pub struct FindResult {
    pub bucket_idx: usize,
    pub item_idx: usize,
}

impl FindResult {
    pub fn new(bucket_idx: usize, item_idx: usize) -> (r: Self)
        ensures
            r.bucket_idx == bucket_idx,
            r.item_idx == item_idx,
    {
        FindResult { bucket_idx, item_idx }
    }

    pub fn bucket_idx(&self) -> (r: usize)
        ensures
            r == self.bucket_idx,
    {
        self.bucket_idx
    }

    pub fn item_idx(&self) -> (r: usize)
        ensures
            r == self.item_idx,
    {
        self.item_idx
    }
}

/// The largest number of elements that a bucket holds once an insertion is
/// over. It is at least one.
#[derive(Debug, Clone, Copy)]
pub struct MaxBucketCapacity(usize);

impl MaxBucketCapacity {
    #[verifier::type_invariant]
    spec fn positive(self) -> bool {
        self.0 >= 1
    }

    /// The capacity as a number.
    pub closed spec fn value(self) -> usize {
        self.0
    }

    /// A capacity of `size` elements.
    pub fn new(size: usize) -> (r: Self)
        requires
            size >= 1,
        ensures
            r.value() == size,
    {
        MaxBucketCapacity(size)
    }

    /// The capacity as a number.
    pub fn get(&self) -> (r: usize)
        ensures
            r == self.value(),
            r >= 1,
    {
        proof {
            use_type_invariant(self);
        }
        self.0
    }
}

impl std::ops::Deref for MaxBucketCapacity {
    type Target = usize;

    fn deref(&self) -> (r: &usize)
        ensures
            *r == self.value(),
    {
        &self.0
    }
}

impl std::ops::Deref for FindResult {
    type Target = usize;

    fn deref(&self) -> (r: &usize)
        ensures
            *r == self.item_idx,
    {
        &self.item_idx
    }
}

impl Default for MaxBucketCapacity {
    fn default() -> (r: Self)
        ensures
            r.value() == 200,
    {
        MaxBucketCapacity(200)
    }
}

/// How a container is set up: the capacity of its buckets, and the number
/// of buckets for which it reserves room at the start.
#[derive(Debug, Clone, Copy)]
pub struct BucketConfiguration {
    pub max_bucket_capacity: MaxBucketCapacity,
    pub initial_set_capacity: usize,
}

impl BucketConfiguration {
    pub fn new(max_bucket_capacity: MaxBucketCapacity, initial_set_capacity: usize) -> (r: Self)
        ensures
            r.max_bucket_capacity == max_bucket_capacity,
            r.initial_set_capacity == initial_set_capacity,
    {
        BucketConfiguration { max_bucket_capacity, initial_set_capacity }
    }
}

impl BucketConfiguration {
    /// A configuration with the given capacity that reserves no room.
    pub fn with_max_bucket_capacity(max_bucket_capacity: MaxBucketCapacity) -> (r: Self)
        ensures
            r.max_bucket_capacity == max_bucket_capacity,
            r.initial_set_capacity == 0,
    {
        BucketConfiguration { max_bucket_capacity, initial_set_capacity: 0 }
    }
}

impl Default for BucketConfiguration {
    fn default() -> (r: Self)
        ensures
            r.max_bucket_capacity.value() == 200,
            r.initial_set_capacity == 0,
    {
        BucketConfiguration {
            max_bucket_capacity: MaxBucketCapacity::default(),
            initial_set_capacity: 0,
        }
    }
}

/// Run `k` is the one that `x` is routed to: the runs before it end before
/// `x`, the runs after it start after `x`, and `x` lies after the range of
/// run `k` itself only where that is the last run.
pub open spec fn routes_to<T: Ord>(bs: Seq<Seq<T>>, x: T, k: int) -> bool {
    &&& 0 <= k < bs.len()
    &&& forall|j: int| 0 <= j < k ==> side_of(#[trigger] bs[j], x) == Side::After
    &&& forall|j: int| k < j < bs.len() ==> side_of(#[trigger] bs[j], x) == Side::Before
    &&& side_of(bs[k], x) == Side::After ==> k + 1 == bs.len()
}

/// The run that `x` is routed to.
pub open spec fn bucket_of<T: Ord>(bs: Seq<Seq<T>>, x: T) -> int {
    choose|k: int| routes_to(bs, x, k)
}

/// A value is routed to one run at most.
pub proof fn lemma_route_unique<T: Ord>(bs: Seq<Seq<T>>, x: T, k: int)
    requires
        routes_to(bs, x, k),
    ensures
        bucket_of(bs, x) == k,
{
    let c = bucket_of(bs, x);
    assert(routes_to(bs, x, c));
    if c < k {
        assert(side_of(bs[c], x) == Side::After);
    }
    if k < c {
        assert(side_of(bs[k], x) == Side::After);
    }
}

/// The runs once `x`, which no element compares as equal to, has been put
/// at its place in the run that it is routed to, and that run, if it then
/// holds more than `cap` elements, has been cut in two at its midpoint.
pub open spec fn with_item<T: Ord>(bs: Seq<Seq<T>>, x: T, cap: int) -> Seq<Seq<T>> {
    let k = bucket_of(bs, x);
    let grown = bs[k].insert(place_of(bs[k], x), x);
    let half = grown.len() as int / 2;
    if grown.len() > cap {
        bs.update(k, grown.take(half)).insert(k + 1, grown.skip(half))
    } else {
        bs.update(k, grown)
    }
}

/// The runs once the element that compares as equal to `x` has left the
/// run that `x` is routed to, and that run, if it is then empty and not the
/// only one, has left too.
pub open spec fn without_item<T: Ord>(bs: Seq<Seq<T>>, x: T) -> Seq<Seq<T>> {
    let k = bucket_of(bs, x);
    let shrunk = bs[k].remove(position_of(bs[k], x));
    if shrunk.len() == 0 && bs.len() > 1 {
        bs.remove(k)
    } else {
        bs.update(k, shrunk)
    }
}

/// The elements `s`, ascending, once `x` has been inserted: `x` stands at
/// its place, unless an element compares as equal to it.
pub open spec fn ranked_with<T: Ord>(s: Seq<T>, x: T) -> Seq<T> {
    if has_equiv(s, x) {
        s
    } else {
        s.insert(place_of(s, x), x)
    }
}

/// The elements, ascending, once the items of `items` have been inserted
/// one after the other into an empty container.
pub open spec fn ranked_all<T: Ord>(items: Seq<T>) -> Seq<T>
    decreases items.len(),
{
    if items.len() == 0 {
        Seq::empty()
    } else {
        ranked_with(ranked_all(items.drop_last()), items.last())
    }
}

/// Inserting the items of `items` one after the other gives a strictly
/// ascending sequence that holds, for each item, an element that compares
/// as equal to it, and that holds nothing but items.
pub proof fn lemma_ranked_all<T: Ord>(items: Seq<T>)
    requires
        total_order::<T>(),
    ensures
        strictly_sorted(ranked_all(items)),
        forall|i: int| 0 <= i < items.len() ==> has_equiv(ranked_all(items), #[trigger] items[i]),
        forall|r: int|
            0 <= r < ranked_all(items).len() ==> items.contains(#[trigger] ranked_all(items)[r]),
    decreases items.len(),
{
    lemma_total_order::<T>();
    if items.len() > 0 {
        let init = items.drop_last();
        let x = items.last();
        let top = items.len() - 1;
        lemma_ranked_all(init);
        let s = ranked_all(init);
        let n = ranked_all(items);
        if has_equiv(s, x) {
            assert forall|i: int| 0 <= i < items.len() implies has_equiv(
                n,
                #[trigger] items[i],
            ) by {
                if i < top {
                    assert(init[i] == items[i]);
                }
            }
            assert forall|r: int| 0 <= r < n.len() implies items.contains(#[trigger] n[r]) by {
                assert(init.contains(s[r]));
                let w = choose|w: int| 0 <= w < init.len() && init[w] == s[r];
                assert(items[w] == s[r]);
            }
        } else {
            lemma_place_exists(s, x);
            let p = place_of(s, x);
            lemma_insert_sorted(s, x, p);
            assert forall|i: int| 0 <= i < items.len() implies has_equiv(
                n,
                #[trigger] items[i],
            ) by {
                if i < top {
                    assert(init[i] == items[i]);
                    let w = choose|w: int| 0 <= w < s.len() && equiv(#[trigger] s[w], init[i]);
                    if w < p {
                        assert(n[w] == s[w]);
                    } else {
                        assert(n[w + 1] == s[w]);
                    }
                } else {
                    assert(n[p] == x);
                }
            }
            assert forall|r: int| 0 <= r < n.len() implies items.contains(#[trigger] n[r]) by {
                if r == p {
                    assert(items[top] == n[r]);
                } else {
                    let o = if r < p { r } else { r - 1 };
                    assert(n[r] == s[o]);
                    assert(init.contains(s[o]));
                    let w = choose|w: int| 0 <= w < init.len() && init[w] == s[o];
                    assert(items[w] == s[o]);
                }
            }
        }
    }
}

/// A sorted container without duplicates, kept as a sequence of buckets.
#[derive(Debug)]
pub struct SortedVec<T: Ord> {
    pub buckets: Vec<Bucket<T>>,
    pub configuration: BucketConfiguration,
    pub size: usize,
}

impl<T: Ord> View for SortedVec<T> {
    type V = Seq<T>;

    /// The elements by rank.
    open spec fn view(&self) -> Seq<T> {
        self.runs().flatten()
    }
}

impl<T: Ord> SortedVec<T> {
    /// The runs of the buckets, in the order of the buckets.
    pub open spec fn runs(&self) -> Seq<Seq<T>> {
        Seq::new(self.buckets@.len(), |k: int| self.buckets@[k]@)
    }

    /// The capacity that the container was set up with.
    pub open spec fn capacity(&self) -> int {
        self.configuration.max_bucket_capacity.value() as int
    }

    /// The container's invariant: there is a bucket; only a sole bucket is
    /// empty; no bucket is over capacity; `size` counts the elements; and
    /// by rank the elements ascend strictly.
    pub open spec fn wf(&self) -> bool {
        &&& self.runs().len() >= 1
        &&& self.capacity() >= 1
        &&& self.size == self@.len()
        &&& forall|k: int|
            0 <= k < self.runs().len() ==> 0 < (#[trigger] self.runs()[k]).len() || self.runs().len()
                == 1
        &&& forall|k: int|
            0 <= k < self.runs().len() ==> (#[trigger] self.runs()[k]).len() <= self.capacity()
        &&& strictly_sorted(self@)
    }

    /// The rank of the element that `f` points at.
    pub open spec fn rank(&self, f: FindResult) -> int {
        offset(self.runs(), f.bucket_idx as int) + f.item_idx
    }

    /// An empty container: one empty bucket.
    pub fn new(configuration: BucketConfiguration) -> (r: Self)
        ensures
            r.wf(),
            r@ == Seq::<T>::empty(),
            r.runs() == seq![Seq::<T>::empty()],
            r.size == 0,
            r.configuration == configuration,
    {
        let mut result = Self::empty(configuration);
        result.buckets.push(Bucket::empty());
        proof {
            assert(result.runs() =~= seq![Seq::<T>::empty()]);
            result.runs().lemma_flatten_singleton();
        }
        result
    }

    /// A container that holds the items of `items`, inserted one after the
    /// other in the order in which they stand there.
    pub fn from_vec(items: Vec<T>, configuration: BucketConfiguration) -> (r: Self)
        requires
            total_order::<T>(),
        ensures
            r.wf(),
            r@ == ranked_all(items@),
            r.configuration == configuration,
            forall|i: int| 0 <= i < items@.len() ==> has_equiv(r@, #[trigger] items@[i]),
            forall|k: int| 0 <= k < r@.len() ==> items@.contains(#[trigger] r@[k]),
    {
        let n: usize = items.len();
        let mut rest = items;
        let mut stack: Vec<T> = Vec::new();
        while rest.len() > 0
            invariant
                rest@.len() + stack@.len() == n,
                n == items@.len(),
                rest@ == items@.take(rest@.len() as int),
                forall|j: int| 0 <= j < stack@.len() ==> #[trigger] stack@[j] == items@[n - 1 - j],
            decreases rest@.len(),
        {
            match rest.pop() {
                Some(item) => {
                    stack.push(item);
                },
                None => {},
            }
        }
        let mut result = Self::new(configuration);
        while stack.len() > 0
            invariant
                total_order::<T>(),
                n == items@.len(),
                stack@.len() <= n,
                forall|j: int| 0 <= j < stack@.len() ==> #[trigger] stack@[j] == items@[n - 1 - j],
                result.wf(),
                result.configuration == configuration,
                result.size <= n - stack@.len(),
                result@ == ranked_all(items@.take(n - stack@.len())),
            decreases stack@.len(),
        {
            let ghost done = n - stack@.len();
            match stack.pop() {
                Some(item) => {
                    proof {
                        assert(item == items@[done]);
                        assert(items@.take(done + 1).drop_last() =~= items@.take(done));
                    }
                    result.insert(item);
                },
                None => {},
            }
        }
        proof {
            assert(items@.take(n as int) =~= items@);
            lemma_ranked_all(items@);
        }
        result
    }

    /// A container without any bucket, with room for as many buckets as the
    /// configuration asks for.
    fn empty(configuration: BucketConfiguration) -> (r: Self)
        ensures
            r.buckets@.len() == 0,
            r.size == 0,
            r.configuration == configuration,
            r.capacity() >= 1,
    {
        let _ = configuration.max_bucket_capacity.get();
        let buckets = Vec::with_capacity(configuration.initial_set_capacity);
        SortedVec { buckets, configuration, size: 0 }
    }

    /// The number of elements.
    pub fn len(&self) -> (r: usize)
        ensures
            r == self.size,
    {
        self.size
    }

    /// The bucket that `item` belongs to: every bucket before it ends before
    /// `item`, every bucket after it starts after `item`, and `item` lies
    /// after its own range only where it is the last bucket.
    pub fn find_bucket_index(&self, item: &T) -> (idx: usize)
        requires
            total_order::<T>(),
            self.wf(),
        ensures
            routes_to(self.runs(), *item, idx as int),
            idx == bucket_of(self.runs(), *item),
    {
        let n: usize = self.buckets.len();
        let mut lo: usize = 0;
        let mut hi: usize = n;
        while lo < hi
            invariant
                total_order::<T>(),
                self.wf(),
                n == self.runs().len(),
                0 <= lo <= hi <= n,
                forall|j: int| 0 <= j < lo ==> side_of(#[trigger] self.runs()[j], *item) == Side::After,
                forall|j: int|
                    hi <= j < n ==> side_of(#[trigger] self.runs()[j], *item) == Side::Before,
            decreases hi - lo,
        {
            let mid: usize = lo + (hi - lo) / 2;
            let side = self.buckets[mid].side(item);
            proof {
                self.lemma_sides(*item, mid as int);
            }
            match side {
                Side::Within => {
                    proof {
                        lemma_route_unique(self.runs(), *item, mid as int);
                    }
                    return mid;
                },
                Side::After => {
                    lo = mid + 1;
                },
                Side::Before => {
                    hi = mid;
                },
            }
        }
        let idx = if lo < n {
            lo
        } else {
            n - 1
        };
        proof {
            lemma_route_unique(self.runs(), *item, idx as int);
        }
        idx
    }

    /// What the side of `item` at bucket `k` says of the other buckets.
    proof fn lemma_sides(&self, item: T, k: int)
        requires
            total_order::<T>(),
            self.wf(),
            0 <= k < self.runs().len(),
        ensures
            side_of(self.runs()[k], item) != Side::Before ==> forall|j: int|
                0 <= j < k ==> side_of(#[trigger] self.runs()[j], item) == Side::After,
            side_of(self.runs()[k], item) != Side::After ==> forall|j: int|
                k < j < self.runs().len() ==> side_of(#[trigger] self.runs()[j], item)
                    == Side::Before,
    {
        lemma_total_order::<T>();
        let bs = self.runs();
        if bs[k].len() > 1 {
            lemma_runs_ordered(bs, k, 0, k, bs[k].len() - 1);
        }
        if side_of(bs[k], item) != Side::Before {
            assert forall|j: int| 0 <= j < k implies side_of(#[trigger] bs[j], item)
                == Side::After by {
                assert(bs[j].len() > 0);
                assert(bs[k].len() > 0);
                lemma_runs_ordered(bs, j, bs[j].len() - 1, k, 0);
                if bs[j].len() > 1 {
                    lemma_runs_ordered(bs, j, 0, j, bs[j].len() - 1);
                }
            }
        }
        if side_of(bs[k], item) != Side::After {
            assert forall|j: int| k < j < bs.len() implies side_of(#[trigger] bs[j], item)
                == Side::Before by {
                assert(bs[j].len() > 0);
                assert(bs[k].len() > 0);
                lemma_runs_ordered(bs, k, bs[k].len() - 1, j, 0);
                if bs[j].len() > 1 {
                    lemma_runs_ordered(bs, j, 0, j, bs[j].len() - 1);
                }
            }
        }
    }

    /// The element of rank `idx`, if there is one.
    pub fn at(&self, idx: usize) -> (r: Option<&T>)
        ensures
            idx < self@.len() ==> r == Some(&self@[idx as int]),
            idx >= self@.len() ==> r.is_none(),
    {
        let mut rest: usize = idx;
        let mut k: usize = 0;
        proof {
            lemma_offset_ends(self.runs());
        }
        while k < self.buckets.len()
            invariant
                0 <= k <= self.runs().len(),
                idx == offset(self.runs(), k as int) + rest,
            decreases self.buckets.len() - k,
        {
            let bucket = &self.buckets[k];
            proof {
                lemma_parts(self.runs(), k as int);
            }
            if rest < bucket.len() {
                proof {
                    lemma_index(self.runs(), k as int, rest as int);
                }
                return Some(&bucket.data[rest]);
            }
            rest -= bucket.len();
            k += 1;
        }
        proof {
            lemma_offset_ends(self.runs());
        }
        None
    }

    /// Where the element that compares as equal to `item` stands, if there
    /// is one.
    pub fn find_index(&self, item: &T) -> (r: Option<FindResult>)
        requires
            total_order::<T>(),
            self.wf(),
        ensures
            match r {
                Some(f) => {
                    &&& f.bucket_idx == bucket_of(self.runs(), *item)
                    &&& f.item_idx == position_of(self.runs()[f.bucket_idx as int], *item)
                    &&& f.bucket_idx < self.runs().len()
                    &&& f.item_idx < self.runs()[f.bucket_idx as int].len()
                    &&& equiv(self.runs()[f.bucket_idx as int][f.item_idx as int], *item)
                    &&& self.rank(f) == position_of(self@, *item)
                    &&& has_equiv(self@, *item)
                },
                None => !has_equiv(self@, *item),
            },
    {
        let bucket_idx = self.find_bucket_index(item);
        let bucket = &self.buckets[bucket_idx];
        proof {
            lemma_total_order::<T>();
            lemma_run_sorted(self.runs(), bucket_idx as int);
            lemma_strictly_sorted_is_sorted(bucket@);
        }
        match bucket.search(item) {
            Ok(i) => {
                proof {
                    lemma_index(self.runs(), bucket_idx as int, i as int);
                    lemma_position_unique(bucket@, *item, i as int);
                    lemma_position_unique(
                        self@,
                        *item,
                        offset(self.runs(), bucket_idx as int) + i,
                    );
                }
                Some(FindResult::new(bucket_idx, i))
            },
            Err(i) => {
                proof {
                    lemma_insert_in_run(self.runs(), bucket_idx as int, *item, i as int);
                    lemma_place_unique(self@, *item, offset(self.runs(), bucket_idx as int) + i);
                }
                None
            },
        }
    }

    /// Adds `item` at its place unless an element compares as equal to it.
    /// A bucket that the addition takes over capacity is cut in two.
    pub fn insert(&mut self, item: T)
        requires
            total_order::<T>(),
            old(self).wf(),
            old(self).size < usize::MAX,
        ensures
            final(self).wf(),
            final(self).configuration == old(self).configuration,
            has_equiv(old(self)@, item) ==> {
                &&& final(self).runs() == old(self).runs()
                &&& final(self).size == old(self).size
            },
            !has_equiv(old(self)@, item) ==> {
                &&& splits_at(old(self)@, item, place_of(old(self)@, item))
                &&& final(self)@ == old(self)@.insert(place_of(old(self)@, item), item)
                &&& final(self).size == old(self).size + 1
                &&& final(self).runs() == with_item(old(self).runs(), item, old(self).capacity())
            },
    {
        let idx = self.find_bucket_index(&item);
        let cap = self.configuration.max_bucket_capacity.get();
        let count = self.buckets.len();
        let ghost before = self.runs();
        let ghost whole = self@;
        let ghost x = item;
        let ghost base = offset(before, idx as int);
        proof {
            lemma_total_order::<T>();
            lemma_run_sorted(before, idx as int);
            lemma_strictly_sorted_is_sorted(before[idx as int]);
        }
        let bucket = &mut self.buckets[idx];
        match bucket.add(item) {
            AddResult::Added(i) => {
                let ghost grown = before.update(idx as int, before[idx as int].insert(i as int, x));
                proof {
                    lemma_insert_in_run(before, idx as int, x, i as int);
                    lemma_insert_sorted(whole, x, base + i);
                    lemma_place_unique(whole, x, base + i);
                    lemma_place_unique(before[idx as int], x, i as int);
                }
                let bucket_len = bucket.len();
                if bucket_len > cap {
                    let new_bucket = bucket.split();
                    assert(idx < count);
                    self.buckets.insert(idx + 1, new_bucket);
                    proof {
                        let half = bucket_len as int / 2;
                        lemma_cut(grown, idx as int, half);
                        let after = grown.update(idx as int, grown[idx as int].take(half)).insert(
                            idx + 1,
                            grown[idx as int].skip(half),
                        );
                        assert(self.runs() =~= after);
                        assert forall|k: int| 0 <= k < after.len() implies 0 < (#[trigger] after[k]).len()
                            <= self.capacity() by {
                            if k < idx {
                                assert(after[k] == before[k]);
                            } else if k > idx + 1 {
                                assert(after[k] == before[k - 1]);
                            }
                        }
                    }
                } else {
                    proof {
                        assert(self.runs() =~= grown);
                        assert forall|k: int| 0 <= k < grown.len() implies (#[trigger] grown[k]).len()
                            <= self.capacity() && (0 < grown[k].len() || grown.len() == 1) by {
                            if k != idx {
                                assert(grown[k] == before[k]);
                            }
                        }
                    }
                }
                self.size += 1;
            },
            AddResult::Duplicated(i) => {
                proof {
                    assert(self.runs() =~= before);
                    lemma_index(before, idx as int, i as int);
                    assert(equiv(whole[base + i], x));
                }
            },
        }
    }

    /// Takes out the element that compares as equal to `item`, if there is
    /// one. A bucket that this empties leaves the container, unless it is
    /// the only one.
    pub fn remove(&mut self, item: &T)
        requires
            total_order::<T>(),
            old(self).wf(),
        ensures
            final(self).wf(),
            final(self).configuration == old(self).configuration,
            !has_equiv(old(self)@, *item) ==> {
                &&& final(self).runs() == old(self).runs()
                &&& final(self).size == old(self).size
            },
            has_equiv(old(self)@, *item) ==> {
                &&& final(self)@ == old(self)@.remove(position_of(old(self)@, *item))
                &&& final(self).size == old(self).size - 1
                &&& final(self).runs() == without_item(old(self).runs(), *item)
            },
    {
        let ghost before = self.runs();
        let ghost whole = self@;
        match self.find_index(item) {
            Some(found) => {
                let bucket_idx = found.bucket_idx();
                let item_idx = found.item_idx();
                let ghost shrunk = before.update(
                    bucket_idx as int,
                    before[bucket_idx as int].remove(item_idx as int),
                );
                proof {
                    lemma_index(before, bucket_idx as int, item_idx as int);
                    lemma_remove_in_run(before, bucket_idx as int, item_idx as int);
                    lemma_remove_sorted(whole, self.rank(found));
                }
                let bucket = &mut self.buckets[bucket_idx];
                bucket.data.remove(item_idx);
                let emptied = bucket.data.len() == 0;
                if emptied && self.buckets.len() > 1 {
                    self.buckets.remove(bucket_idx);
                    proof {
                        lemma_drop_empty(shrunk, bucket_idx as int);
                        let after = shrunk.remove(bucket_idx as int);
                        assert(self.runs() =~= after);
                        assert(after =~= before.remove(bucket_idx as int));
                        assert forall|k: int| 0 <= k < after.len() implies 0 < (#[trigger] after[k]).len()
                            <= self.capacity() by {
                            if k < bucket_idx {
                                assert(after[k] == before[k]);
                            } else {
                                assert(after[k] == before[k + 1]);
                            }
                        }
                    }
                } else {
                    proof {
                        assert(self.runs() =~= shrunk);
                        assert forall|k: int| 0 <= k < shrunk.len() implies (#[trigger] shrunk[k]).len()
                            <= self.capacity() && (0 < shrunk[k].len() || shrunk.len() == 1) by {
                            if k != bucket_idx {
                                assert(shrunk[k] == before[k]);
                            }
                        }
                    }
                }
                self.size -= 1;
            },
            None => {},
        }
    }

    /// The elements of ranks `start` to `end`, `end` left out, as far as
    /// the container holds them.
    pub fn slice(&self, start: usize, end: usize) -> (r: Vec<&T>)
        ensures
            r@.len() == slice_len(self@.len(), start, end),
            forall|i: int| 0 <= i < r@.len() ==> *(#[trigger] r@[i]) == self@[start + i],
    {
        let mut result: Vec<&T> = Vec::new();
        let mut i: usize = start;
        while i < end
            invariant
                start <= i,
                start <= end ==> i <= end,
                start > end ==> i == start,
                result@.len() == slice_len(self@.len(), start, i),
                forall|j: int| 0 <= j < result@.len() ==> *(#[trigger] result@[j]) == self@[start + j],
            decreases end - i,
        {
            match self.at(i) {
                Some(item) => {
                    result.push(item);
                },
                None => {},
            }
            i += 1;
        }
        result
    }

    /// A cursor over the elements, from rank zero.
    pub fn iter(&self) -> (r: SortedVecIter<'_, T>)
        ensures
            r.sorted_vec == self,
            r.index == 0,
    {
        SortedVecIter::new(self)
    }

    /// The least element, if there is one.
    pub fn first(&self) -> (r: Option<&T>)
        ensures
            self@.len() > 0 ==> r == Some(&self@.first()),
            self@.len() == 0 ==> r.is_none(),
    {
        self.at(0)
    }

    /// The greatest element, if there is one.
    pub fn last(&self) -> (r: Option<&T>)
        requires
            self.wf(),
        ensures
            self@.len() > 0 ==> r == Some(&self@.last()),
            self@.len() == 0 ==> r.is_none(),
    {
        if self.size == 0 {
            None
        } else {
            self.at(self.size - 1)
        }
    }
}

impl<T: Ord> Default for SortedVec<T> {
    /// An empty container with the default configuration.
    fn default() -> (r: Self)
        ensures
            r.wf(),
            r@ == Seq::<T>::empty(),
            r.capacity() == 200,
    {
        SortedVec::new(BucketConfiguration::default())
    }
}

/// By rank the elements of a container ascend: none sorts after a later
/// one, and each sorts strictly before every later one.
pub proof fn lemma_ranks_ascend<T: Ord>(v: SortedVec<T>)
    requires
        total_order::<T>(),
        v.wf(),
    ensures
        sorted(v@),
        forall|i: int, j: int| 0 <= i < j < v@.len() ==> lt(#[trigger] v@[i], #[trigger] v@[j]),
{
    lemma_strictly_sorted_is_sorted(v@);
}

/// The size of a container is the number of its elements by rank, and the
/// sum of the lengths of its buckets.
pub proof fn lemma_size_counts<T: Ord>(v: SortedVec<T>)
    requires
        v.wf(),
    ensures
        v.size == v@.len(),
        v.size == count(v.runs()),
{
    lemma_count(v.runs());
}

/// No bucket of a container holds more elements than the capacity allows,
/// and a bucket is empty only where it is the sole one.
pub proof fn lemma_capacity_bound<T: Ord>(v: SortedVec<T>, k: int)
    requires
        v.wf(),
        0 <= k < v.runs().len(),
    ensures
        v.runs()[k].len() <= v.capacity(),
        v.runs()[k].len() == 0 ==> v.runs().len() == 1,
{
}

/// An element found in a bucket stands in the whole at the rank of that
/// position: the element of that rank compares as equal to what was looked
/// up, and no other rank holds such an element.
pub proof fn lemma_round_trip<T: Ord>(v: SortedVec<T>, item: T, f: FindResult)
    requires
        total_order::<T>(),
        v.wf(),
        f.bucket_idx < v.runs().len(),
        f.item_idx < v.runs()[f.bucket_idx as int].len(),
        equiv(v.runs()[f.bucket_idx as int][f.item_idx as int], item),
    ensures
        0 <= v.rank(f) < v@.len(),
        v.rank(f) < v.size,
        equiv(v@[v.rank(f)], item),
        forall|r: int| 0 <= r < v@.len() && equiv(#[trigger] v@[r], item) ==> r == v.rank(f),
{
    lemma_total_order::<T>();
    lemma_index(v.runs(), f.bucket_idx as int, f.item_idx as int);
    assert forall|r: int| 0 <= r < v@.len() && equiv(#[trigger] v@[r], item) implies r == v.rank(
        f,
    ) by {
        if r < v.rank(f) {
            assert(lt(v@[r], v@[v.rank(f)]));
        } else if r > v.rank(f) {
            assert(lt(v@[v.rank(f)], v@[r]));
        }
    }
}

/// The number of ranks from `start` up to `end`, `end` left out, that are
/// below `n`.
pub open spec fn slice_len(n: nat, start: usize, end: usize) -> int {
    if start >= end || start >= n {
        0
    } else if end <= n {
        end - start
    } else {
        n - start
    }
}

} // verus!
