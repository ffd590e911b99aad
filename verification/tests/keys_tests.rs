use npb::keys::{bucket_sort, verify_sort};

#[test]
fn verify_sort_counts_descents() {
    assert_eq!(verify_sort(&vec![]), 0);
    assert_eq!(verify_sort(&vec![5]), 0);
    assert_eq!(verify_sort(&vec![1, 2, 2, 3]), 0);
    assert_eq!(verify_sort(&vec![3, 2, 1]), 2);
    assert_eq!(verify_sort(&vec![1, 3, 2, 4, 0]), 2);
    assert_eq!(verify_sort(&vec![i64::MAX, i64::MIN]), 1);
}

#[test]
fn bucket_sort_with_monotone_buckets_is_sorted() {
    let keys = vec![50, 3, 99, 17, 3, 62, 0, 88];
    let idx: Vec<usize> = keys.iter().map(|k| (*k as usize) / 25).collect();
    let out = bucket_sort(keys.clone(), &idx, 4);
    assert_eq!(out, vec![0, 3, 3, 17, 50, 62, 88, 99]);
    assert_eq!(verify_sort(&out), 0);
}

#[test]
fn bucket_sort_keeps_bucket_order() {
    // Buckets that do not follow the keys: bucket 0 holds the large keys.
    let keys = vec![1, 9, 2, 8];
    let idx: Vec<usize> = vec![1, 0, 1, 0];
    let out = bucket_sort(keys, &idx, 2);
    assert_eq!(out, vec![8, 9, 1, 2]);
    assert_eq!(verify_sort(&out), 1);
}

#[test]
fn bucket_sort_single_bucket_sorts() {
    let keys = vec![4, -1, 7, -1, 0];
    let out = bucket_sort(keys, &vec![0; 5], 1);
    assert_eq!(out, vec![-1, -1, 0, 4, 7]);
}

#[test]
fn bucket_sort_empty_inputs() {
    assert_eq!(bucket_sort(vec![], &vec![], 0), Vec::<i64>::new());
    assert_eq!(bucket_sort(vec![], &vec![], 3), Vec::<i64>::new());
}

#[test]
fn bucket_sort_is_a_permutation() {
    let keys = vec![5, 5, -3, 12, 0, 7, 5];
    let idx: Vec<usize> = vec![2, 0, 1, 2, 0, 1, 2];
    let mut out = bucket_sort(keys.clone(), &idx, 3);
    assert_eq!(out, vec![0, 5, -3, 7, 5, 5, 12]);
    let mut sorted_in = keys.clone();
    sorted_in.sort();
    out.sort();
    assert_eq!(out, sorted_in);
}
