//! A sequence of runs and the single sequence that they make when laid end
//! to end.
use vstd::prelude::*;
use vstd::seq_lib::lemma_flatten_concat;
use crate::order::{lemma_total_order, lt, splits_at, strictly_sorted, total_order};

verus! {

/// The number of elements in the first `k` runs: the rank at which run `k`
/// starts.
pub open spec fn offset<T>(bs: Seq<Seq<T>>, k: int) -> int {
    bs.take(k).flatten().len() as int
}

/// The sum of the lengths of the runs.
pub open spec fn count<T>(bs: Seq<Seq<T>>) -> int
    decreases bs.len(),
{
    if bs.len() == 0 {
        0
    } else {
        count(bs.drop_last()) + bs.last().len()
    }
}

/// The whole is as long as the runs are together.
pub proof fn lemma_count<T>(bs: Seq<Seq<T>>)
    ensures
        bs.flatten().len() == count(bs),
    decreases bs.len(),
{
    if bs.len() > 0 {
        lemma_count(bs.drop_last());
        bs.drop_last().lemma_flatten_push(bs.last());
        assert(bs.drop_last().push(bs.last()) =~= bs);
    }
}

/// Run `k` stands in the whole between the runs before it and those after.
pub proof fn lemma_parts<T>(bs: Seq<Seq<T>>, k: int)
    requires
        0 <= k < bs.len(),
    ensures
        bs.flatten() == bs.take(k).flatten() + bs[k] + bs.skip(k + 1).flatten(),
        offset(bs, k + 1) == offset(bs, k) + bs[k].len(),
        offset(bs, k) + bs[k].len() <= bs.flatten().len(),
{
    let one = seq![bs[k]];
    assert(bs =~= bs.take(k) + one + bs.skip(k + 1));
    lemma_flatten_concat(bs.take(k) + one, bs.skip(k + 1));
    lemma_flatten_concat(bs.take(k), one);
    one.lemma_flatten_singleton();
    assert(bs.take(k + 1) =~= bs.take(k) + one);
}

/// The ranks start at zero and end at the length of the whole.
pub proof fn lemma_offset_ends<T>(bs: Seq<Seq<T>>)
    ensures
        offset(bs, 0) == 0,
        offset(bs, bs.len() as int) == bs.flatten().len(),
{
    assert(bs.take(0) =~= Seq::<Seq<T>>::empty());
    assert(bs.take(bs.len() as int) =~= bs);
}

/// Element `i` of run `k` has rank `offset(bs, k) + i` in the whole.
pub proof fn lemma_index<T>(bs: Seq<Seq<T>>, k: int, i: int)
    requires
        0 <= k < bs.len(),
        0 <= i < bs[k].len(),
    ensures
        0 <= offset(bs, k) + i < bs.flatten().len(),
        bs.flatten()[offset(bs, k) + i] == bs[k][i],
{
    lemma_parts(bs, k);
}

/// A later run starts at a higher or equal rank.
pub proof fn lemma_offset_monotone<T>(bs: Seq<Seq<T>>, j: int, k: int)
    requires
        0 <= j <= k <= bs.len(),
    ensures
        offset(bs, j) <= offset(bs, k),
    decreases k - j,
{
    if j < k {
        lemma_parts(bs, k - 1);
        lemma_offset_monotone(bs, j, k - 1);
    }
}

/// Replacing run `k` replaces its stretch of the whole.
pub proof fn lemma_replace<T>(bs: Seq<Seq<T>>, k: int, s: Seq<T>)
    requires
        0 <= k < bs.len(),
    ensures
        bs.update(k, s).flatten() == bs.take(k).flatten() + s + bs.skip(k + 1).flatten(),
        offset(bs.update(k, s), k) == offset(bs, k),
{
    let n = bs.update(k, s);
    lemma_parts(n, k);
    assert(n.take(k) =~= bs.take(k));
    assert(n.skip(k + 1) =~= bs.skip(k + 1));
}

/// Cutting run `k` in two leaves the whole as it was.
pub proof fn lemma_cut<T>(bs: Seq<Seq<T>>, k: int, at: int)
    requires
        0 <= k < bs.len(),
        0 <= at <= bs[k].len(),
    ensures
        bs.update(k, bs[k].take(at)).insert(k + 1, bs[k].skip(at)).flatten() == bs.flatten(),
{
    let lo = bs[k].take(at);
    let hi = bs[k].skip(at);
    let n = bs.update(k, lo).insert(k + 1, hi);
    lemma_parts(bs, k);
    lemma_parts(n, k);
    lemma_parts(n.skip(k + 1), 0);
    assert(n.take(k) =~= bs.take(k));
    assert(n.skip(k + 1).take(0) =~= Seq::<Seq<T>>::empty());
    assert(n.skip(k + 1).skip(1) =~= bs.skip(k + 1));
    assert(n.skip(k + 1)[0] == hi);
    assert(lo + hi =~= bs[k]);
    assert(n.flatten() =~= bs.flatten());
}

/// Dropping an empty run leaves the whole as it was.
pub proof fn lemma_drop_empty<T>(bs: Seq<Seq<T>>, k: int)
    requires
        0 <= k < bs.len(),
        bs[k].len() == 0,
    ensures
        bs.remove(k).flatten() == bs.flatten(),
{
    lemma_parts(bs, k);
    assert(bs.remove(k) =~= bs.take(k) + bs.skip(k + 1));
    lemma_flatten_concat(bs.take(k), bs.skip(k + 1));
    assert(bs.remove(k).flatten() =~= bs.flatten());
}

/// Where the whole is strictly sorted, an element of an earlier run, or an
/// earlier element of the same run, sorts strictly before a later one.
pub proof fn lemma_runs_ordered<T: Ord>(bs: Seq<Seq<T>>, j: int, a: int, k: int, b: int)
    requires
        strictly_sorted(bs.flatten()),
        0 <= j <= k < bs.len(),
        0 <= a < bs[j].len(),
        0 <= b < bs[k].len(),
        j < k || a < b,
    ensures
        lt(bs[j][a], bs[k][b]),
{
    lemma_index(bs, j, a);
    lemma_index(bs, k, b);
    if j < k {
        lemma_parts(bs, j);
        lemma_offset_monotone(bs, j + 1, k);
    }
}

/// Where the whole is strictly sorted, so is each run.
pub proof fn lemma_run_sorted<T: Ord>(bs: Seq<Seq<T>>, k: int)
    requires
        strictly_sorted(bs.flatten()),
        0 <= k < bs.len(),
    ensures
        strictly_sorted(bs[k]),
{
    assert forall|a: int, b: int| 0 <= a < b < bs[k].len() implies lt(
        #[trigger] bs[k][a],
        #[trigger] bs[k][b],
    ) by {
        lemma_runs_ordered(bs, k, a, k, b);
    }
}

/// Where the whole is strictly sorted, what sorts after the end of the run
/// before `k` sorts after everything before run `k`, and what sorts before the
/// start of the run after `k` sorts before everything after run `k`.
pub proof fn lemma_around<T: Ord>(bs: Seq<Seq<T>>, k: int, x: T)
    requires
        total_order::<T>(),
        strictly_sorted(bs.flatten()),
        0 <= k < bs.len(),
        forall|j: int| 0 <= j < bs.len() ==> (#[trigger] bs[j]).len() > 0 || bs.len() == 1,
        k > 0 ==> lt(bs[k - 1].last(), x),
        k + 1 < bs.len() ==> lt(x, bs[k + 1].first()),
    ensures
        forall|r: int| 0 <= r < offset(bs, k) ==> lt(#[trigger] bs.flatten()[r], x),
        forall|r: int|
            offset(bs, k) + bs[k].len() <= r < bs.flatten().len() ==> lt(
                x,
                #[trigger] bs.flatten()[r],
            ),
{
    lemma_total_order::<T>();
    lemma_parts(bs, k);
    let whole = bs.flatten();
    if k > 0 {
        assert(bs[k - 1].len() > 0);
        lemma_parts(bs, k - 1);
        lemma_index(bs, k - 1, bs[k - 1].len() - 1);
        let top = offset(bs, k) - 1;
        assert(whole[top] == bs[k - 1].last());
        assert forall|r: int| 0 <= r < offset(bs, k) implies lt(#[trigger] whole[r], x) by {
            if r < top {
                assert(lt(whole[r], whole[top]));
            }
        }
    } else {
        lemma_offset_ends(bs);
    }
    if k + 1 < bs.len() {
        assert(bs[k + 1].len() > 0);
        lemma_parts(bs, k + 1);
        lemma_index(bs, k + 1, 0);
        let bottom = offset(bs, k + 1);
        assert(whole[bottom] == bs[k + 1].first());
        assert forall|r: int| offset(bs, k) + bs[k].len() <= r < whole.len() implies lt(
            x,
            #[trigger] whole[r],
        ) by {
            if r > bottom {
                assert(lt(whole[bottom], whole[r]));
            }
        }
    } else {
        lemma_offset_ends(bs);
    }
}

/// The place of `x` in run `k` gives its place in the whole, and putting
/// `x` there puts it at that place of the whole.
pub proof fn lemma_insert_in_run<T: Ord>(bs: Seq<Seq<T>>, k: int, x: T, i: int)
    requires
        total_order::<T>(),
        strictly_sorted(bs.flatten()),
        0 <= k < bs.len(),
        forall|j: int| 0 <= j < bs.len() ==> (#[trigger] bs[j]).len() > 0 || bs.len() == 1,
        k > 0 ==> lt(bs[k - 1].last(), x),
        k + 1 < bs.len() ==> lt(x, bs[k + 1].first()),
        splits_at(bs[k], x, i),
    ensures
        splits_at(bs.flatten(), x, offset(bs, k) + i),
        bs.update(k, bs[k].insert(i, x)).flatten() == bs.flatten().insert(offset(bs, k) + i, x),
{
    lemma_total_order::<T>();
    lemma_around(bs, k, x);
    lemma_parts(bs, k);
    lemma_replace(bs, k, bs[k].insert(i, x));
    let whole = bs.flatten();
    let base = offset(bs, k);
    assert forall|r: int| 0 <= r < base + i implies lt(#[trigger] whole[r], x) by {
        if r >= base {
            lemma_index(bs, k, r - base);
            assert(lt(bs[k][r - base], x));
        }
    }
    assert forall|r: int| base + i <= r < whole.len() implies lt(x, #[trigger] whole[r]) by {
        if r < base + bs[k].len() {
            lemma_index(bs, k, r - base);
            assert(lt(x, bs[k][r - base]));
        }
    }
    assert(bs.update(k, bs[k].insert(i, x)).flatten() =~= whole.insert(base + i, x));
}

/// Taking element `i` out of run `k` takes it out of the whole.
pub proof fn lemma_remove_in_run<T>(bs: Seq<Seq<T>>, k: int, i: int)
    requires
        0 <= k < bs.len(),
        0 <= i < bs[k].len(),
    ensures
        bs.update(k, bs[k].remove(i)).flatten() == bs.flatten().remove(offset(bs, k) + i),
{
    lemma_parts(bs, k);
    lemma_replace(bs, k, bs[k].remove(i));
    assert(bs.update(k, bs[k].remove(i)).flatten() =~= bs.flatten().remove(offset(bs, k) + i));
}

} // verus!
