use sorted_vec::sorted_vec::{BucketConfiguration, FindResult, MaxBucketCapacity, SortedVec};

fn filled(capacity: usize, items: &[i32]) -> SortedVec<i32> {
    let config = BucketConfiguration::new(MaxBucketCapacity::new(capacity), 0);
    let mut sorted_vec: SortedVec<i32> = SortedVec::new(config);
    for item in items {
        sorted_vec.insert(*item);
    }
    sorted_vec
}

fn contents(sorted_vec: &SortedVec<i32>) -> Vec<i32> {
    let mut out = Vec::new();
    let mut iter = sorted_vec.iter();
    while let Some(item) = iter.next() {
        out.push(*item);
    }
    out
}

fn bucket_lengths(sorted_vec: &SortedVec<i32>) -> Vec<usize> {
    sorted_vec.buckets.iter().map(|b| b.len()).collect()
}

#[test]
fn max_bucket_capacity_new_with_valid_size() {
    let capacity = MaxBucketCapacity::new(10);
    assert_eq!(*capacity, 10);
}

#[test]
fn max_bucket_capacity_default() {
    let capacity = MaxBucketCapacity::default();
    assert_eq!(*capacity, 200);
}

#[test]
fn bucket_configuration_new_with_valid_values() {
    let config = BucketConfiguration::new(MaxBucketCapacity::new(10), 5);
    assert_eq!(*config.max_bucket_capacity, 10);
    assert_eq!(config.initial_set_capacity, 5);
}

#[test]
fn sorted_vec_new_with_configuration() {
    let config = BucketConfiguration::new(MaxBucketCapacity::new(10), 5);
    let sorted_vec: SortedVec<i32> = SortedVec::new(config);
    assert_eq!(sorted_vec.buckets.len(), 1);
    assert_eq!(sorted_vec.size, 0);
}

#[test]
fn sorted_vec_insert_single_element() {
    let config = BucketConfiguration::new(MaxBucketCapacity::new(10), 5);
    let mut sorted_vec: SortedVec<i32> = SortedVec::new(config);
    sorted_vec.insert(5);
    assert_eq!(sorted_vec.size, 1);
    assert_eq!(sorted_vec.at(0), Some(&5));
}

#[test]
fn sorted_vec_insert_multiple_elements() {
    let config = BucketConfiguration::new(MaxBucketCapacity::new(10), 5);
    let mut sorted_vec: SortedVec<i32> = SortedVec::new(config);
    sorted_vec.insert(5);
    sorted_vec.insert(3);
    sorted_vec.insert(8);
    assert_eq!(sorted_vec.size, 3);
    assert_eq!(sorted_vec.at(0), Some(&3));
    assert_eq!(sorted_vec.at(1), Some(&5));
    assert_eq!(sorted_vec.at(2), Some(&8));
}

#[test]
fn sorted_vec_insert_duplicate_element() {
    let config = BucketConfiguration::new(MaxBucketCapacity::new(10), 5);
    let mut sorted_vec: SortedVec<i32> = SortedVec::new(config);
    sorted_vec.insert(5);
    sorted_vec.insert(5);
    assert_eq!(sorted_vec.size, 1);
    assert_eq!(sorted_vec.at(0), Some(&5));
}

#[test]
fn sorted_vec_insert_triggers_split() {
    let config = BucketConfiguration::new(MaxBucketCapacity::new(1), 5);
    let mut sorted_vec: SortedVec<i32> = SortedVec::new(config);
    sorted_vec.insert(5);
    sorted_vec.insert(3);
    println!("{:?}", sorted_vec);

    assert_eq!(sorted_vec.buckets.len(), 2);
    assert_eq!(sorted_vec.size, 2);
    assert_eq!(sorted_vec.at(0), Some(&3));
    assert_eq!(sorted_vec.at(1), Some(&5));
}

#[test]
fn sorted_vec_at_out_of_bounds() {
    let config = BucketConfiguration::new(MaxBucketCapacity::new(10), 5);
    let sorted_vec: SortedVec<i32> = SortedVec::new(config);
    assert_eq!(sorted_vec.at(0), None);
}

#[test]
fn sorted_vec_remove_single_element() {
    let config = BucketConfiguration::new(MaxBucketCapacity::new(10), 5);
    let mut sorted_vec: SortedVec<i32> = SortedVec::new(config);
    sorted_vec.insert(5);
    sorted_vec.remove(&5);
    assert_eq!(sorted_vec.size, 0);
    assert_eq!(sorted_vec.at(0), None);
}

#[test]
fn sorted_vec_remove_multiple_elements() {
    let config = BucketConfiguration::new(MaxBucketCapacity::new(10), 5);
    let mut sorted_vec: SortedVec<i32> = SortedVec::new(config);
    sorted_vec.insert(5);
    sorted_vec.insert(3);
    sorted_vec.insert(8);
    sorted_vec.remove(&3);
    sorted_vec.remove(&8);
    assert_eq!(sorted_vec.size, 1);
    assert_eq!(sorted_vec.at(0), Some(&5));
}

#[test]
fn find_result_keeps_its_two_positions() {
    let found = FindResult::new(3, 7);
    assert_eq!(found.bucket_idx(), 3);
    assert_eq!(found.item_idx(), 7);
    assert_eq!(*found, 7);
}

#[test]
fn bucket_configuration_default_values() {
    let config = BucketConfiguration::default();
    assert_eq!(*config.max_bucket_capacity, 200);
    assert_eq!(config.max_bucket_capacity.get(), 200);
    assert_eq!(config.initial_set_capacity, 0);
}

#[test]
fn sorted_vec_default_is_empty_with_one_bucket() {
    let sorted_vec: SortedVec<i32> = SortedVec::default();
    assert_eq!(sorted_vec.buckets.len(), 1);
    assert_eq!(sorted_vec.len(), 0);
    assert_eq!(sorted_vec.at(0), None);
}

#[test]
fn iteration_yields_inserted_values_in_order() {
    let sorted_vec = filled(10, &[5, 3, 8]);
    assert_eq!(contents(&sorted_vec), vec![3, 5, 8]);
}

#[test]
fn empty_container_has_nothing_to_show() {
    let sorted_vec = filled(10, &[]);
    assert_eq!(sorted_vec.at(0), None);
    assert_eq!(sorted_vec.first(), None);
    assert_eq!(sorted_vec.last(), None);
    assert_eq!(contents(&sorted_vec), Vec::<i32>::new());
    assert_eq!(sorted_vec.slice(0, 4), Vec::<&i32>::new());
    assert!(sorted_vec.find_index(&1).is_none());
}

#[test]
fn removal_leaves_the_rest_in_place() {
    let mut sorted_vec = filled(10, &[5, 3, 8]);
    sorted_vec.remove(&3);
    sorted_vec.remove(&8);
    assert_eq!(sorted_vec.len(), 1);
    assert_eq!(sorted_vec.at(0), Some(&5));
    assert_eq!(sorted_vec.at(1), None);
}

#[test]
fn duplicate_insert_changes_nothing_at_any_capacity() {
    let mut capacity: usize = 1;
    while capacity < 5 {
        let sorted_vec = filled(capacity, &[5, 5]);
        assert_eq!(sorted_vec.len(), 1);
        assert_eq!(contents(&sorted_vec), vec![5]);
        assert_eq!(bucket_lengths(&sorted_vec), vec![1]);
        capacity += 1;
    }
    let mut sorted_vec = filled(2, &[4, 1, 3, 2, 6, 5]);
    let lengths = bucket_lengths(&sorted_vec);
    sorted_vec.insert(3);
    sorted_vec.insert(6);
    sorted_vec.insert(1);
    assert_eq!(sorted_vec.len(), 6);
    assert_eq!(bucket_lengths(&sorted_vec), lengths);
    assert_eq!(contents(&sorted_vec), vec![1, 2, 3, 4, 5, 6]);
}

#[test]
fn elements_ascend_and_size_counts_them_after_inserts_and_removes() {
    let items = [41, 7, 19, 3, 88, 54, 7, 23, 61, 0, -5, 19, 100, 12, 35, 77, 2, 66];
    let mut capacity: usize = 1;
    while capacity < 6 {
        let mut sorted_vec = filled(capacity, &items);
        let mut expected: Vec<i32> = items.to_vec();
        expected.sort();
        expected.dedup();
        assert_eq!(contents(&sorted_vec), expected);
        assert_eq!(sorted_vec.len(), expected.len());
        assert_eq!(bucket_lengths(&sorted_vec).iter().sum::<usize>(), sorted_vec.size);

        for gone in [19, 0, 100, 5000, 41, -5] {
            sorted_vec.remove(&gone);
            expected.retain(|e| *e != gone);
            assert_eq!(contents(&sorted_vec), expected);
            assert_eq!(sorted_vec.len(), expected.len());
            assert_eq!(bucket_lengths(&sorted_vec).iter().sum::<usize>(), sorted_vec.size);
            assert_eq!(sorted_vec.iter().len(), expected.len());
        }
        capacity += 1;
    }
}

#[test]
fn no_bucket_exceeds_the_capacity_and_none_is_empty() {
    let mut capacity: usize = 1;
    while capacity < 5 {
        let config = BucketConfiguration::new(MaxBucketCapacity::new(capacity), 0);
        let mut sorted_vec: SortedVec<i32> = SortedVec::new(config);
        let mut i: i32 = 0;
        while i < 40 {
            sorted_vec.insert((i * 17) % 41);
            for length in bucket_lengths(&sorted_vec) {
                assert!(length >= 1);
                assert!(length <= capacity);
            }
            i += 1;
        }
        assert_eq!(sorted_vec.len(), 40);
        capacity += 1;
    }
}

#[test]
fn a_bucket_at_capacity_is_not_split() {
    let sorted_vec = filled(3, &[1, 2, 3]);
    assert_eq!(bucket_lengths(&sorted_vec), vec![3]);
    let sorted_vec = filled(3, &[1, 2, 3, 4]);
    assert_eq!(bucket_lengths(&sorted_vec), vec![2, 2]);
    let sorted_vec = filled(2, &[1, 2, 3]);
    assert_eq!(bucket_lengths(&sorted_vec), vec![1, 2]);
}

#[test]
fn find_index_then_at_returns_the_value() {
    let items = [9, 4, 7, 1, 8, 2, 6, 3, 5, 0];
    let sorted_vec = filled(2, &items);
    for item in items {
        let found = sorted_vec.find_index(&item).unwrap();
        let before: usize = sorted_vec.buckets[..found.bucket_idx()].iter().map(|b| b.len()).sum();
        let rank = before + found.item_idx();
        assert_eq!(sorted_vec.at(rank), Some(&item));
        assert_eq!(rank, item as usize);
    }
    assert!(sorted_vec.find_index(&10).is_none());
    assert!(sorted_vec.find_index(&-1).is_none());
}

#[test]
fn find_index_names_bucket_and_position() {
    let sorted_vec = filled(2, &[10, 20, 30, 40]);
    assert_eq!(bucket_lengths(&sorted_vec), vec![1, 1, 2]);
    let found = sorted_vec.find_index(&40).unwrap();
    assert_eq!(found.bucket_idx(), 2);
    assert_eq!(found.item_idx(), 1);
    let found = sorted_vec.find_index(&10).unwrap();
    assert_eq!(found.bucket_idx(), 0);
    assert_eq!(found.item_idx(), 0);
    assert!(sorted_vec.find_index(&25).is_none());
}

#[test]
fn find_bucket_index_routes_values_between_and_beyond_the_ranges() {
    let sorted_vec = filled(2, &[10, 20, 30, 40]);
    assert_eq!(sorted_vec.find_bucket_index(&5), 0);
    assert_eq!(sorted_vec.find_bucket_index(&10), 0);
    assert_eq!(sorted_vec.find_bucket_index(&15), 1);
    assert_eq!(sorted_vec.find_bucket_index(&20), 1);
    assert_eq!(sorted_vec.find_bucket_index(&25), 2);
    assert_eq!(sorted_vec.find_bucket_index(&35), 2);
    assert_eq!(sorted_vec.find_bucket_index(&99), 2);
    let empty = filled(2, &[]);
    assert_eq!(empty.find_bucket_index(&1), 0);
}

#[test]
fn slice_truncates_at_the_size() {
    let sorted_vec = filled(2, &[50, 10, 40, 20, 30]);
    assert_eq!(sorted_vec.slice(1, 4), vec![&20, &30, &40]);
    assert_eq!(sorted_vec.slice(0, 5), vec![&10, &20, &30, &40, &50]);
    assert_eq!(sorted_vec.slice(3, 9), vec![&40, &50]);
    assert_eq!(sorted_vec.slice(5, 9), Vec::<&i32>::new());
    assert_eq!(sorted_vec.slice(7, 9), Vec::<&i32>::new());
    assert_eq!(sorted_vec.slice(2, 2), Vec::<&i32>::new());
    assert_eq!(sorted_vec.slice(4, 1), Vec::<&i32>::new());
}

#[test]
fn first_and_last_are_the_ends() {
    let sorted_vec = filled(2, &[50, 10, 40, 20, 30]);
    assert_eq!(sorted_vec.first(), Some(&10));
    assert_eq!(sorted_vec.last(), Some(&50));
    let single = filled(2, &[7]);
    assert_eq!(single.first(), Some(&7));
    assert_eq!(single.last(), Some(&7));
}

#[test]
fn removing_the_last_element_keeps_one_bucket() {
    let mut sorted_vec = filled(1, &[1, 2, 3]);
    assert_eq!(sorted_vec.buckets.len(), 3);
    sorted_vec.remove(&2);
    assert_eq!(sorted_vec.buckets.len(), 2);
    sorted_vec.remove(&1);
    sorted_vec.remove(&3);
    assert_eq!(sorted_vec.buckets.len(), 1);
    assert_eq!(sorted_vec.len(), 0);
    sorted_vec.insert(9);
    sorted_vec.insert(4);
    assert_eq!(contents(&sorted_vec), vec![4, 9]);
}

#[test]
fn removing_an_absent_value_changes_nothing() {
    let mut sorted_vec = filled(2, &[1, 2, 3, 4, 5]);
    let lengths = bucket_lengths(&sorted_vec);
    sorted_vec.remove(&9);
    sorted_vec.remove(&0);
    assert_eq!(sorted_vec.len(), 5);
    assert_eq!(bucket_lengths(&sorted_vec), lengths);
    assert_eq!(contents(&sorted_vec), vec![1, 2, 3, 4, 5]);
}

#[test]
fn buckets_are_not_merged_after_removals() {
    let mut sorted_vec = filled(4, &[1, 2, 3, 4, 5, 6, 7, 8]);
    assert_eq!(bucket_lengths(&sorted_vec), vec![2, 2, 4]);
    sorted_vec.remove(&2);
    sorted_vec.remove(&4);
    sorted_vec.remove(&6);
    sorted_vec.remove(&7);
    assert_eq!(bucket_lengths(&sorted_vec), vec![1, 1, 2]);
    assert_eq!(contents(&sorted_vec), vec![1, 3, 5, 8]);
}

#[test]
fn container_of_strings_is_sorted() {
    let mut sorted_vec: SortedVec<String> = SortedVec::new(BucketConfiguration::new(
        MaxBucketCapacity::new(2),
        0,
    ));
    for word in ["pear", "apple", "fig", "kiwi", "apple", "date"] {
        sorted_vec.insert(String::from(word));
    }
    assert_eq!(sorted_vec.len(), 5);
    let got: Vec<&str> = sorted_vec.slice(0, 5).into_iter().map(|s| s.as_str()).collect();
    assert_eq!(got, vec!["apple", "date", "fig", "kiwi", "pear"]);
}

#[test]
fn from_vec_sorts_and_drops_duplicates() {
    let config = BucketConfiguration::with_max_bucket_capacity(MaxBucketCapacity::new(2));
    let sorted_vec = SortedVec::from_vec(vec![5, 2, 3, 1, 4, 2, 5], config);
    assert_eq!(contents(&sorted_vec), vec![1, 2, 3, 4, 5]);
    assert_eq!(sorted_vec.len(), 5);
    for length in bucket_lengths(&sorted_vec) {
        assert!(length >= 1 && length <= 2);
    }
    let one_by_one = filled(2, &[5, 2, 3, 1, 4, 2, 5]);
    assert_eq!(bucket_lengths(&sorted_vec), bucket_lengths(&one_by_one));
}

#[test]
fn from_vec_of_nothing_is_the_empty_container() {
    let config = BucketConfiguration::with_max_bucket_capacity(MaxBucketCapacity::new(3));
    let sorted_vec: SortedVec<i32> = SortedVec::from_vec(Vec::new(), config);
    assert_eq!(sorted_vec.len(), 0);
    assert_eq!(sorted_vec.buckets.len(), 1);
    assert_eq!(sorted_vec.first(), None);
}

#[test]
fn with_max_bucket_capacity_reserves_nothing() {
    let config = BucketConfiguration::with_max_bucket_capacity(MaxBucketCapacity::new(7));
    assert_eq!(*config.max_bucket_capacity, 7);
    assert_eq!(config.initial_set_capacity, 0);
}
