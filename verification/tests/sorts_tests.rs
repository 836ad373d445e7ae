use algokit::sorts::{insertion_sort, merge_sort, quick_sort, selection_sort};

fn run_sort_cases(sort: fn(&mut Vec<i64>)) {
    let sorted: Vec<i64> = (0..10).collect();

    // Empty slice should work
    let mut v: Vec<i64> = vec![];
    sort(&mut v);
    assert_eq!(v, Vec::<i64>::new());

    // Trivially sorted list with a single element
    let mut v: Vec<i64> = vec![1];
    sort(&mut v);
    assert_eq!(v, vec![1]);

    // Sometimes lists of two are too much trouble.
    let mut v: Vec<i64> = vec![2, 1];
    sort(&mut v);
    assert_eq!(v, vec![1, 2]);

    let mut v: Vec<i64> = (0..10).collect();
    sort(&mut v);
    assert_eq!(v, sorted);

    let mut v: Vec<i64> = (0..10).rev().collect();
    sort(&mut v);
    assert_eq!(v, sorted);

    let mut v: Vec<i64> = vec![0, 9, 1, 8, 2, 7, 3, 6, 4, 5];
    sort(&mut v);
    assert_eq!(v, sorted);

    // Duplicates must survive sorting
    let mut v: Vec<i64> = vec![3, 1, 3, -5, 0, 3, 1];
    sort(&mut v);
    assert_eq!(v, vec![-5, 0, 1, 1, 3, 3, 3]);
}

#[test]
fn check_selection_sort() {
    run_sort_cases(selection_sort);
}

#[test]
fn check_insertion_sort() {
    run_sort_cases(insertion_sort);
}

#[test]
fn check_merge_sort() {
    run_sort_cases(merge_sort);
}

#[test]
fn check_quick_sort() {
    run_sort_cases(quick_sort);
}

#[test]
fn check_merge_sort_interleaves() {
    // Would fail if merging handed either half back unchanged.
    let mut v: Vec<i64> = vec![4, 1, 3, 2];
    merge_sort(&mut v);
    assert_eq!(v, vec![1, 2, 3, 4]);
}
