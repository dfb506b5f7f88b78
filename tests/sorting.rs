use exercises::sorting::{bubble_sort, merge_sort_improved, pivot, quicksort, source_merge_sort};

fn unsorted() -> Vec<i32> {
    vec![
        1273, 18273, 8273, 827, 11, 213, 9172397, 2373, 2, 4, 20983, 29831093, 287, 2837, 11,
        92900,
    ]
}

fn expected() -> Vec<i32> {
    vec![
        2, 4, 11, 11, 213, 287, 827, 1273, 2373, 2837, 8273, 18273, 20983, 92900, 9172397,
        29831093,
    ]
}

#[test]
fn test_bubble_sort() {
    let mut collection = unsorted();
    bubble_sort(&mut collection);
    assert_eq!(collection, expected());
}

#[test]
fn test_source_merge_sort() {
    let collection = source_merge_sort(unsorted());
    assert_eq!(collection, expected());
}

#[test]
fn test_merge_sort_immutable() {
    let collection = unsorted();
    let sorted = merge_sort_improved(&collection);
    assert_eq!(sorted, expected());
    assert_eq!(collection, unsorted());
}

#[test]
fn test_quicksort() {
    let mut collection = unsorted();
    quicksort(&mut collection);
    assert_eq!(collection, expected());
}

#[test]
fn test_pivot() {
    let mut collection = vec![
        11, 1273, 18273, 8273, 827, 213, 9172397, 2373, 2, 4, 20983, 29831093, 287, 2837, 11,
        92900,
    ];

    let p = pivot(&mut collection);

    for (i, element) in collection.iter().enumerate() {
        assert_eq!(
            collection[p] <= *element,
            p <= i,
            "Element {} in wrong position; array: {:?}",
            element,
            collection
        );
    }
}

#[test]
fn sorts_handle_small_and_repeated_inputs() {
    let mut empty: Vec<i32> = vec![];
    bubble_sort(&mut empty);
    quicksort(&mut empty);
    assert!(empty.is_empty());
    assert!(source_merge_sort(vec![]).is_empty());

    let mut same = vec![5, 5, 5, -1, 5];
    bubble_sort(&mut same);
    assert_eq!(same, vec![-1, 5, 5, 5, 5]);
    let mut same = vec![5, 5, 5, -1, 5];
    quicksort(&mut same);
    assert_eq!(same, vec![-1, 5, 5, 5, 5]);
    assert_eq!(merge_sort_improved(&[3]), vec![3]);
    assert_eq!(merge_sort_improved(&[i32::MAX, i32::MIN, 0]), vec![i32::MIN, 0, i32::MAX]);
}
