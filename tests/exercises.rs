use exercises::balanced_binary_tree;
use exercises::binary_tree;
use exercises::dynamic_programming::{fibonacci, fibonacci_dynamic};
use exercises::id_generator::{GenData, GenManager};
use exercises::linked_list::LinkedList;

#[test]
fn test_fibonacci_dynamic() {
    for i in 0..20 {
        assert_eq!(fibonacci(i), fibonacci_dynamic(i).0);
    }
}

#[test]
fn fibonacci_exact_values() {
    assert_eq!(fibonacci(0), 1);
    assert_eq!(fibonacci(1), 1);
    assert_eq!(fibonacci(10), 89);
    assert_eq!(fibonacci_dynamic(0), (1, 0));
    assert_eq!(fibonacci_dynamic(10), (89, 55));
    assert_eq!(fibonacci_dynamic(45).0, 1836311903);
}

#[test]
fn test_push_back_iterative() {
    let values = vec![
        1273, 18273, 8273, 827, 11, 213, 9172397, 2373, 2, 4, 20983, 29831093, 287, 2837, 11,
        92900,
    ];

    let mut list = LinkedList::new();

    for value in &values {
        list.push_back_iterative(*value);
    }

    assert_eq!(list.values()[..], values[..]);
}

#[test]
fn sorted_insert() {
    let values = vec![
        1273, 18273, 8273, 827, 11, 213, 9172397, 2373, 2, 4, 20983, 29831093, 287, 2837, 11,
        92900,
    ];

    let mut sorted_values = values.clone();
    sorted_values.sort();

    let mut list = LinkedList::new();

    for value in values {
        list.sorted_push_iterative(value);
    }

    assert_eq!(list.values()[..], sorted_values[..]);
}

#[test]
fn linked_list_front_and_recursive_back() {
    let mut list = LinkedList::new();
    assert!(list.values().is_empty());
    list.push_front(2);
    list.push_front(1);
    list.push_back_recursive(3);
    list.push_back_iterative(4);
    assert_eq!(list.values(), vec![1, 2, 3, 4]);
}

fn test_tree() -> binary_tree::BinaryTree<i32> {
    let mut tree = binary_tree::BinaryTree::new();

    tree.add(4);
    tree.add(5);
    tree.add(6);
    tree.add(10);
    tree.add(1);
    tree.add(94);
    tree.add(54);
    tree.add(3);

    tree
}

#[test]
fn d3_3_binary_tree_test_add() {
    let tree = test_tree();

    let actual_values = tree.sorted_values(vec![]);
    let expected_values = [1, 3, 4, 5, 6, 10, 54, 94];

    assert_eq!(actual_values, expected_values);
}

#[test]
fn binary_tree_keeps_duplicates_and_prefix() {
    let mut tree = binary_tree::BinaryTree::new();
    tree.add(2);
    tree.add(2);
    tree.add(1);
    assert_eq!(tree.sorted_values(vec![9]), vec![9, 1, 2, 2]);
}

fn balanced_test_tree() -> balanced_binary_tree::BinaryTree<i32> {
    let mut tree = balanced_binary_tree::BinaryTree::new();

    tree.add(4);
    tree.add(5);
    tree.add(6);
    tree.add(10);
    tree.add(1);
    tree.add(94);
    tree.add(54);
    tree.add(3);

    tree
}

#[test]
fn d3_4_balanced_binary_tree_test_add() {
    let tree = balanced_test_tree();

    let actual_values = tree.sorted_values(vec![]);
    let expected_values = [&1, &3, &4, &5, &6, &10, &54, &94];

    assert_eq!(actual_values, expected_values);
}

#[test]
fn balanced_tree_heights() {
    let mut tree = balanced_binary_tree::BinaryTree::new();
    assert_eq!(tree.height(), 0);
    tree.add(1);
    assert_eq!(tree.height(), 1);
    tree.add(2);
    tree.add(3);
    assert_eq!(tree.height(), 3);
    assert_eq!(balanced_test_tree().height(), 6);
}

#[test]
fn balanced_tree_rotate_left_keeps_order() {
    let mut tree = balanced_test_tree();
    tree.rotate_left();
    assert_eq!(tree.sorted_values(vec![]), [&1, &3, &4, &5, &6, &10, &54, &94]);
    assert_eq!(tree.height(), 5);

    let mut chain = balanced_binary_tree::BinaryTree::new();
    chain.add(1);
    chain.add(2);
    chain.add(3);
    chain.rotate_left();
    assert_eq!(chain.height(), 2);
    assert_eq!(chain.sorted_values(vec![]), [&1, &2, &3]);
}

#[test]
fn id_generator_reuses_dropped_slots() {
    let mut manager = GenManager::new();
    let a = manager.next();
    let b = manager.next();
    assert_eq!(a, GenData { pos: 0, gen: 0 });
    assert_eq!(b, GenData { pos: 1, gen: 0 });
    manager.drop(a);
    manager.drop(a);
    let c = manager.next();
    assert_eq!(c, GenData { pos: 0, gen: 1 });
    let d = manager.next();
    assert_eq!(d, GenData { pos: 2, gen: 0 });
}

#[test]
fn id_generator_ignores_stale_ids() {
    let mut manager = GenManager::new();
    let a = manager.next();
    manager.drop(a);
    let b = manager.next();
    manager.drop(a);
    manager.drop(GenData { pos: 7, gen: 0 });
    let c = manager.next();
    assert_eq!(b, GenData { pos: 0, gen: 1 });
    assert_eq!(c, GenData { pos: 1, gen: 0 });
}

#[test]
fn d3_3_binary_tree_test_print() {
    let tree = test_tree();

    let actual_representation = tree.print_lfirst(0, String::new());
    let expected_representation = ".1\n..3\n4\n.5\n..6\n...10\n.....54\n....94\n";

    assert_eq!(actual_representation, expected_representation);
}

#[test]
fn d3_4_balanced_binary_tree_test_print() {
    let tree = balanced_test_tree();

    let actual_representation = tree.print_lfirst(0, String::new());
    let expected_representation =
        "2:.1\n1:..3\n6:4\n5:.5\n4:..6\n3:...10\n1:.....54\n2:....94\n";

    assert_eq!(actual_representation, expected_representation);
}

#[test]
fn test_rotate_left() {
    let mut tree = balanced_test_tree();

    tree.rotate_left();

    let actual_representation = tree.print_lfirst(0, String::new());

    let expected_representation =
        "2:..1\n1:...3\n3:.4\n5:5\n4:.6\n3:..10\n1:....54\n2:...94\n";

    assert_eq!(actual_representation, expected_representation);
}

#[test]
fn print_negative_values_and_prefix() {
    let mut tree = binary_tree::BinaryTree::new();
    tree.add(-7);
    tree.add(i32::MIN);
    assert_eq!(tree.print_lfirst(1, String::from(">")), ">..-2147483648\n.-7\n");
}
