use exercises::doubly_linked_list::LinkedList;

#[test]
fn test_push_front() {
    let values = vec![1273, 18273, 8273, 827, 92900];

    let mut list = LinkedList::new();

    for value in values.iter().rev() {
        list.push_front(*value);
    }

    assert_eq!(list.values()[..], values[..]);

    let list_back_value = list.back().unwrap();

    assert_eq!(list_back_value, *values.last().unwrap());
}

#[test]
fn test_push_back() {
    let values = vec![1273, 18273, 8273, 827, 92900];

    let mut list = LinkedList::new();

    for value in &values {
        list.push_back(*value);
    }

    assert_eq!(list.values()[..], values[..]);

    let list_back_value = list.back().unwrap();

    assert_eq!(list_back_value, *values.last().unwrap());
}

#[test]
fn test_pop_front() {
    let values = vec![1273, 18273, 8273, 827, 92900];

    let mut list = LinkedList::new();

    for value in &values {
        list.push_back(*value);
    }

    for value in &values {
        let popped_value = list.pop_front();

        assert_eq!(popped_value.unwrap(), *value);
    }

    assert!(list.pop_front().is_none());
}

#[test]
fn test_pop_back() {
    let values = vec![1273, 18273, 8273, 827, 92900];

    let mut list = LinkedList::new();

    for value in &values {
        list.push_back(*value);
    }

    for value in values.iter().rev() {
        let popped_value = list.pop_back();

        assert_eq!(popped_value.unwrap(), *value);
    }

    assert!(list.pop_back().is_none());
}
