use sorted_vec::bucket::{Bucket, Side};
use sorted_vec::AddResult;
use std::cmp::Ordering;

#[test]
fn test_bucket_insert() {
    let mut bucket = Bucket::empty();
    bucket.insert(1);
    bucket.insert(2);
    bucket.insert(3);
    bucket.insert(4);
    bucket.insert(5);

    assert_eq!(bucket.data, vec![1, 2, 3, 4, 5]);
}

#[test]
fn test_bucket_split() {
    let mut bucket = Bucket::new(vec![1, 2, 3, 4, 5]);
    let new_bucket = bucket.split();

    assert_eq!(bucket.data, vec![1, 2]);
    assert_eq!(new_bucket.data, vec![3, 4, 5]);
}

#[test]
fn bucket_empty_has_no_elements() {
    let bucket = Bucket::<i32>::empty();
    assert_eq!(bucket.len(), 0);
}

#[test]
fn bucket_new_has_correct_elements() {
    let bucket = Bucket::new(vec![1, 2, 3]);
    assert_eq!(bucket.data, vec![1, 2, 3]);
}

#[test]
fn bucket_add_inserts_in_sorted_order() {
    let mut bucket = Bucket::empty();
    bucket.add(3);
    bucket.add(1);
    bucket.add(2);
    assert_eq!(bucket.data, vec![1, 2, 3]);
}

#[test]
fn bucket_add_returns_correct_result() {
    let mut bucket = Bucket::empty();
    assert_eq!(bucket.add(1), AddResult::Added(0));
    assert_eq!(bucket.add(1), AddResult::Duplicated(0));
}

#[test]
fn bucket_split_on_empty_bucket() {
    let mut bucket = Bucket::<i32>::empty();
    let new_bucket = bucket.split();
    assert_eq!(bucket.data, vec![]);
    assert_eq!(new_bucket.data, vec![]);
}

#[test]
fn bucket_item_compare_less_than_first() {
    let bucket = Bucket::new(vec![2, 3, 4]);
    assert_eq!(bucket.item_compare(&1), Ordering::Greater);
}

#[test]
fn bucket_item_compare_greater_than_last() {
    let bucket = Bucket::new(vec![2, 3, 4]);
    assert_eq!(bucket.item_compare(&5), Ordering::Less);
}

#[test]
fn bucket_item_compare_within_range() {
    let bucket = Bucket::new(vec![2, 3, 4]);
    assert_eq!(bucket.item_compare(&3), Ordering::Equal);
}

#[test]
fn bucket_item_compare_on_empty_bucket_is_equal() {
    let bucket = Bucket::<i32>::empty();
    assert_eq!(bucket.item_compare(&7), Ordering::Equal);
    assert_eq!(bucket.side(&7), Side::Within);
}

#[test]
fn bucket_item_compare_at_the_ends_of_the_range() {
    let bucket = Bucket::new(vec![2, 3, 4]);
    assert_eq!(bucket.item_compare(&2), Ordering::Equal);
    assert_eq!(bucket.item_compare(&4), Ordering::Equal);
    assert_eq!(bucket.side(&1), Side::Before);
    assert_eq!(bucket.side(&5), Side::After);
    assert_eq!(bucket.side(&3), Side::Within);
}

#[test]
fn bucket_default_is_empty() {
    let bucket = Bucket::<u8>::default();
    assert_eq!(bucket.len(), 0);
}

#[test]
fn bucket_search_finds_positions_and_places() {
    let bucket = Bucket::new(vec![10, 20, 30, 40]);
    assert_eq!(bucket.search(&10), Ok(0));
    assert_eq!(bucket.search(&30), Ok(2));
    assert_eq!(bucket.search(&40), Ok(3));
    assert_eq!(bucket.search(&5), Err(0));
    assert_eq!(bucket.search(&25), Err(2));
    assert_eq!(bucket.search(&45), Err(4));
    let empty = Bucket::<i32>::empty();
    assert_eq!(empty.search(&1), Err(0));
}

#[test]
fn bucket_add_reports_the_place_of_each_item() {
    let mut bucket = Bucket::empty();
    assert_eq!(bucket.add(20), AddResult::Added(0));
    assert_eq!(bucket.add(10), AddResult::Added(0));
    assert_eq!(bucket.add(30), AddResult::Added(2));
    assert_eq!(bucket.add(25), AddResult::Added(2));
    assert_eq!(bucket.add(30), AddResult::Duplicated(3));
    assert_eq!(bucket.data, vec![10, 20, 25, 30]);
    assert_eq!(bucket.len(), 4);
}

#[test]
fn bucket_split_of_even_and_single_lengths() {
    let mut even = Bucket::new(vec![1, 2, 3, 4]);
    let upper = even.split();
    assert_eq!(even.data, vec![1, 2]);
    assert_eq!(upper.data, vec![3, 4]);

    let mut single = Bucket::new(vec![9]);
    let upper = single.split();
    assert_eq!(single.data, Vec::<i32>::new());
    assert_eq!(upper.data, vec![9]);
}

#[test]
fn bucket_split_keeps_every_element_once() {
    let mut n: usize = 0;
    while n < 12 {
        let all: Vec<usize> = (0..n).collect();
        let mut bucket = Bucket::new(all.clone());
        let upper = bucket.split();
        assert_eq!(bucket.len(), n / 2);
        assert_eq!(upper.len(), n - n / 2);
        let mut joined = bucket.data.clone();
        joined.extend(upper.data.iter().cloned());
        assert_eq!(joined, all);
        n += 1;
    }
}

#[test]
fn bucket_holds_strings() {
    let mut bucket = Bucket::empty();
    bucket.add(String::from("pear"));
    bucket.add(String::from("apple"));
    bucket.add(String::from("fig"));
    assert_eq!(bucket.add(String::from("fig")), AddResult::Duplicated(1));
    assert_eq!(bucket.data, vec!["apple", "fig", "pear"]);
}
