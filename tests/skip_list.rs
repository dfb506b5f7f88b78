use exercises::skip_list::SkipList;

#[test]
fn skip_list_rows_are_sorted_and_nested() {
    let mut list = SkipList::new();
    assert_eq!(list.print(String::new()), "Empty skip list!");
    for v in [4, 6, 77, 84, 23, 1] {
        list.insert(v);
    }
    let rows = list.rows_vec();
    assert_eq!(rows[0], vec![1, 4, 6, 23, 77, 84]);
    for pair in rows.windows(2) {
        assert!(pair[1].iter().all(|v| pair[0].contains(v)));
    }
    for row in &rows {
        assert!(!row.is_empty());
        assert!(row.windows(2).all(|w| w[0] <= w[1]));
    }
    let text = list.print(String::from(">"));
    assert!(text.starts_with(">\n1,4,6,23,77,84"));
    assert_eq!(text.matches('\n').count(), rows.len());
}

#[test]
fn skip_list_keeps_duplicates_and_negatives() {
    let mut list = SkipList::new();
    list.insert(-5);
    list.insert(3);
    list.insert(-5);
    assert_eq!(list.rows_vec()[0], vec![-5, -5, 3]);
}
