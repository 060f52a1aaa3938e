use data_structures::rbtree::{Color, RBTree};
use rand::rngs::StdRng;
use rand::{Rng, SeedableRng};

#[test]
fn successfully_construct_empty_tree() {
    let tree: RBTree<i32> = RBTree::new();
    assert!(tree.root().is_nil());
}

#[test]
fn insert_case_1_left() {
    let mut tree = RBTree::new();

    tree.insert(0);
    tree.insert(2);
    tree.insert(-2);
    tree.insert(-1);

    assert_eq!(tree.in_order_vec(), vec![-2, -1, 0, 2]);

    let root = tree.root().into_node();
    assert_eq!(tree.node(root).value, 0);
    assert_eq!(tree.node(root).color, Color::Black);
    let left_child = tree.node(root).left.into_node();
    assert_eq!(tree.node(left_child).value, -2);
    assert_eq!(tree.node(left_child).color, Color::Black);
    let right_child = tree.node(root).right.into_node();
    assert_eq!(tree.node(right_child).value, 2);
    assert_eq!(tree.node(right_child).color, Color::Black);
    let left_right_child = tree.node(left_child).right.into_node();
    assert_eq!(tree.node(left_right_child).value, -1);
    assert_eq!(tree.node(left_right_child).color, Color::Red);
}

#[test]
fn insert_case_1_left_alternate() {
    let mut tree = RBTree::new();

    tree.insert(0);
    tree.insert(2);
    tree.insert(-2);
    tree.insert(-3);

    assert_eq!(tree.in_order_vec(), vec![-3, -2, 0, 2]);

    let root = tree.root().into_node();
    assert_eq!(tree.node(root).value, 0);
    assert_eq!(tree.node(root).color, Color::Black);
    let left_child = tree.node(root).left.into_node();
    assert_eq!(tree.node(left_child).value, -2);
    assert_eq!(tree.node(left_child).color, Color::Black);
    let right_child = tree.node(root).right.into_node();
    assert_eq!(tree.node(right_child).value, 2);
    assert_eq!(tree.node(right_child).color, Color::Black);
    let left_left_child = tree.node(left_child).left.into_node();
    assert_eq!(tree.node(left_left_child).value, -3);
    assert_eq!(tree.node(left_left_child).color, Color::Red);
}

#[test]
fn insert_case_1_right() {
    let mut tree = RBTree::new();

    tree.insert(0);
    tree.insert(2);
    tree.insert(-2);
    tree.insert(1);

    assert_eq!(tree.in_order_vec(), vec![-2, 0, 1, 2]);

    let root = tree.root().into_node();
    assert_eq!(tree.node(root).value, 0);
    assert_eq!(tree.node(root).color, Color::Black);
    let left_child = tree.node(root).left.into_node();
    assert_eq!(tree.node(left_child).value, -2);
    assert_eq!(tree.node(left_child).color, Color::Black);
    let right_child = tree.node(root).right.into_node();
    assert_eq!(tree.node(right_child).value, 2);
    assert_eq!(tree.node(right_child).color, Color::Black);
    let right_left_child = tree.node(right_child).left.into_node();
    assert_eq!(tree.node(right_left_child).value, 1);
    assert_eq!(tree.node(right_left_child).color, Color::Red);
}

#[test]
fn insert_case_1_right_alternate() {
    let mut tree = RBTree::new();

    tree.insert(0);
    tree.insert(2);
    tree.insert(-2);
    tree.insert(3);

    assert_eq!(tree.in_order_vec(), vec![-2, 0, 2, 3]);

    let root = tree.root().into_node();
    assert_eq!(tree.node(root).value, 0);
    assert_eq!(tree.node(root).color, Color::Black);
    let left_child = tree.node(root).left.into_node();
    assert_eq!(tree.node(left_child).value, -2);
    assert_eq!(tree.node(left_child).color, Color::Black);
    let right_child = tree.node(root).right.into_node();
    assert_eq!(tree.node(right_child).value, 2);
    assert_eq!(tree.node(right_child).color, Color::Black);
    let right_right_child = tree.node(right_child).right.into_node();
    assert_eq!(tree.node(right_right_child).value, 3);
    assert_eq!(tree.node(right_right_child).color, Color::Red);
}

#[test]
fn insert_case_2_then_3_left() {
    let mut tree = RBTree::new();
    tree.insert(0);
    tree.insert(2);
    tree.insert(-3);
    tree.insert(-1);
    tree.insert(-2);

    assert_eq!(tree.in_order_vec(), vec![-3, -2, -1, 0, 2]);

    let root = tree.root().into_node();
    assert_eq!(tree.node(root).value, 0);
    assert_eq!(tree.node(root).color, Color::Black);
    let left_child = tree.node(root).left.into_node();
    assert_eq!(tree.node(left_child).value, -2);
    assert_eq!(tree.node(left_child).color, Color::Black);
    let right_child = tree.node(root).right.into_node();
    assert_eq!(tree.node(right_child).value, 2);
    assert_eq!(tree.node(right_child).color, Color::Black);
    let left_left_child = tree.node(left_child).left.into_node();
    assert_eq!(tree.node(left_left_child).value, -3);
    assert_eq!(tree.node(left_left_child).color, Color::Red);
    let left_right_child = tree.node(left_child).right.into_node();
    assert_eq!(tree.node(left_right_child).value, -1);
    assert_eq!(tree.node(left_right_child).color, Color::Red);
}

#[test]
fn insert_case_2_then_3_left_at_root() {
    let mut tree = RBTree::new();
    tree.insert(0);
    tree.insert(-2);
    tree.insert(-1);

    assert_eq!(tree.in_order_vec(), vec![-2, -1, 0]);

    let root = tree.root().into_node();
    assert_eq!(tree.node(root).value, -1);
    assert_eq!(tree.node(root).color, Color::Black);
    let left_child = tree.node(root).left.into_node();
    assert_eq!(tree.node(left_child).value, -2);
    assert_eq!(tree.node(left_child).color, Color::Red);
    let right_child = tree.node(root).right.into_node();
    assert_eq!(tree.node(right_child).value, 0);
    assert_eq!(tree.node(right_child).color, Color::Red);
}

#[test]
fn insert_case_2_then_3_right() {
    let mut tree = RBTree::new();
    tree.insert(0);
    tree.insert(3);
    tree.insert(-2);
    tree.insert(1);
    tree.insert(2);

    assert_eq!(tree.in_order_vec(), vec![-2, 0, 1, 2, 3]);

    let root = tree.root().into_node();
    assert_eq!(tree.node(root).value, 0);
    assert_eq!(tree.node(root).color, Color::Black);
    let left_child = tree.node(root).left.into_node();
    assert_eq!(tree.node(left_child).value, -2);
    assert_eq!(tree.node(left_child).color, Color::Black);
    let right_child = tree.node(root).right.into_node();
    assert_eq!(tree.node(right_child).value, 2);
    assert_eq!(tree.node(right_child).color, Color::Black);
    let right_left_child = tree.node(right_child).left.into_node();
    assert_eq!(tree.node(right_left_child).value, 1);
    assert_eq!(tree.node(right_left_child).color, Color::Red);
    let right_right_child = tree.node(right_child).right.into_node();
    assert_eq!(tree.node(right_right_child).value, 3);
    assert_eq!(tree.node(right_right_child).color, Color::Red);
}

#[test]
fn insert_case_2_then_3_right_at_root() {
    let mut tree = RBTree::new();
    tree.insert(0);
    tree.insert(2);
    tree.insert(1);

    assert_eq!(tree.in_order_vec(), vec![0, 1, 2]);

    let root = tree.root().into_node();
    assert_eq!(tree.node(root).value, 1);
    assert_eq!(tree.node(root).color, Color::Black);
    let left_child = tree.node(root).left.into_node();
    assert_eq!(tree.node(left_child).value, 0);
    assert_eq!(tree.node(left_child).color, Color::Red);
    let right_child = tree.node(root).right.into_node();
    assert_eq!(tree.node(right_child).value, 2);
    assert_eq!(tree.node(right_child).color, Color::Red);
}

#[test]
fn insert_case_3_left() {
    let mut tree = RBTree::new();
    tree.insert(0);
    tree.insert(-2);
    tree.insert(3);
    tree.insert(2);
    tree.insert(1);

    assert_eq!(tree.in_order_vec(), vec![-2, 0, 1, 2, 3]);

    let root = tree.root().into_node();
    assert_eq!(tree.node(root).value, 0);
    assert_eq!(tree.node(root).color, Color::Black);
    let left_child = tree.node(root).left.into_node();
    assert_eq!(tree.node(left_child).value, -2);
    assert_eq!(tree.node(left_child).color, Color::Black);
    let right_child = tree.node(root).right.into_node();
    assert_eq!(tree.node(right_child).value, 2);
    assert_eq!(tree.node(right_child).color, Color::Black);
    let right_left_child = tree.node(right_child).left.into_node();
    assert_eq!(tree.node(right_left_child).value, 1);
    assert_eq!(tree.node(right_left_child).color, Color::Red);
    let right_right_child = tree.node(right_child).right.into_node();
    assert_eq!(tree.node(right_right_child).value, 3);
    assert_eq!(tree.node(right_right_child).color, Color::Red);
}

#[test]
fn insert_case_3_left_at_root() {
    let mut tree = RBTree::new();
    tree.insert(0);
    tree.insert(-1);
    tree.insert(-2);

    assert_eq!(tree.in_order_vec(), vec![-2, -1, 0]);

    let root = tree.root().into_node();
    assert_eq!(tree.node(root).value, -1);
    assert_eq!(tree.node(root).color, Color::Black);
    let left_child = tree.node(root).left.into_node();
    assert_eq!(tree.node(left_child).value, -2);
    assert_eq!(tree.node(left_child).color, Color::Red);
    let right_child = tree.node(root).right.into_node();
    assert_eq!(tree.node(right_child).value, 0);
    assert_eq!(tree.node(right_child).color, Color::Red);
}

#[test]
fn insert_case_3_right() {
    let mut tree = RBTree::new();
    tree.insert(0);
    tree.insert(2);
    tree.insert(-3);
    tree.insert(-2);
    tree.insert(-1);

    assert_eq!(tree.in_order_vec(), vec![-3, -2, -1, 0, 2]);

    let root = tree.root().into_node();
    assert_eq!(tree.node(root).value, 0);
    assert_eq!(tree.node(root).color, Color::Black);
    let left_child = tree.node(root).left.into_node();
    assert_eq!(tree.node(left_child).value, -2);
    assert_eq!(tree.node(left_child).color, Color::Black);
    let right_child = tree.node(root).right.into_node();
    assert_eq!(tree.node(right_child).value, 2);
    assert_eq!(tree.node(right_child).color, Color::Black);
    let left_left_child = tree.node(left_child).left.into_node();
    assert_eq!(tree.node(left_left_child).value, -3);
    assert_eq!(tree.node(left_left_child).color, Color::Red);
    let left_right_child = tree.node(left_child).right.into_node();
    assert_eq!(tree.node(left_right_child).value, -1);
    assert_eq!(tree.node(left_right_child).color, Color::Red);
}

#[test]
fn insert_case_3_right_at_root() {
    let mut tree = RBTree::new();
    tree.insert(0);
    tree.insert(1);
    tree.insert(2);

    assert_eq!(tree.in_order_vec(), vec![0, 1, 2]);

    let root = tree.root().into_node();
    assert_eq!(tree.node(root).value, 1);
    assert_eq!(tree.node(root).color, Color::Black);
    let left_child = tree.node(root).left.into_node();
    assert_eq!(tree.node(left_child).value, 0);
    assert_eq!(tree.node(left_child).color, Color::Red);
    let right_child = tree.node(root).right.into_node();
    assert_eq!(tree.node(right_child).value, 2);
    assert_eq!(tree.node(right_child).color, Color::Red);
}

#[test]
fn min_and_max_height() {
    let mut tree = RBTree::new();
    for _ in 0..6 {
        tree.insert(0);
    }

    let root = tree.root().into_node();
    assert_eq!(tree.height(root), 4);
    assert_eq!(tree.min_height(root), 2);
}

#[test]
fn insertion_blackbox() {
    let mut tree = RBTree::<i32>::new();

    let mut rng = StdRng::seed_from_u64(2024);

    let items: Vec<i32> = (0..50).map(|_| rng.random_range(-100..100)).collect();

    for item in items {
        tree.insert(item);
    }

    let tree_vec = tree.in_order_vec();
    assert!(tree_vec.is_sorted());

    let max_height = tree.height(tree.root().into_node());
    let min_height = tree.min_height(tree.root().into_node());

    assert!((max_height as f32 / min_height as f32) < 2.0);
}

#[test]
fn delete_root() {
    let mut tree = RBTree::new();

    tree.insert(0);
    tree.delete(&0);

    assert!(tree.root().is_nil());
}

#[test]
fn delete_case_1_then_2_left() {
    let mut tree = RBTree::new();

    tree.insert(-7);
    tree.insert(-10);
    tree.insert(-4);
    tree.insert(-6);
    tree.insert(6);
    tree.insert(2);

    assert!(tree.delete(&-10));
    assert!(tree.in_order_vec().is_sorted());

    let root = tree.root().into_node();
    assert_eq!(tree.node(root).value, -4);
    assert_eq!(tree.node(root).color, Color::Black);

    let left = tree.node(root).left.into_node();
    assert_eq!(tree.node(left).value, -7);
    assert_eq!(tree.node(left).color, Color::Black);

    let left_right = tree.node(left).right.into_node();
    assert_eq!(tree.node(left_right).value, -6);
    assert_eq!(tree.node(left_right).color, Color::Red);

    let right = tree.node(root).right.into_node();
    assert_eq!(tree.node(right).value, 6);
    assert_eq!(tree.node(right).color, Color::Black);

    let right_left = tree.node(right).left.into_node();
    assert_eq!(tree.node(right_left).value, 2);
    assert_eq!(tree.node(right_left).color, Color::Red);
}

#[test]
fn delete_case_1_then_2_right() {
    let mut tree = RBTree::new();

    tree.insert(7);
    tree.insert(10);
    tree.insert(4);
    tree.insert(6);
    tree.insert(-6);
    tree.insert(-2);

    assert!(tree.delete(&10));
    assert!(tree.in_order_vec().is_sorted());

    let root = tree.root().into_node();
    assert_eq!(tree.node(root).value, 4);
    assert_eq!(tree.node(root).color, Color::Black);

    let left = tree.node(root).left.into_node();
    assert_eq!(tree.node(left).value, -6);
    assert_eq!(tree.node(left).color, Color::Black);

    let left_right = tree.node(left).right.into_node();
    assert_eq!(tree.node(left_right).value, -2);
    assert_eq!(tree.node(left_right).color, Color::Red);

    let right = tree.node(root).right.into_node();
    assert_eq!(tree.node(right).value, 7);
    assert_eq!(tree.node(right).color, Color::Black);

    let right_left = tree.node(right).left.into_node();
    assert_eq!(tree.node(right_left).value, 6);
    assert_eq!(tree.node(right_left).color, Color::Red);
}

#[test]
fn delete_case_3_then_4_left() {
    let mut tree = RBTree::new();

    let vals = vec![0, -10, 10, -12, 5, 3, 8];

    for val in vals {
        tree.insert(val);
    }

    assert!(tree.delete(&3));

    let root = tree.root().into_node();
    assert_eq!(tree.node(root).value, 0);
    assert_eq!(tree.node(root).color, Color::Black);

    let left = tree.node(root).left.into_node();
    assert_eq!(tree.node(left).value, -10);
    assert_eq!(tree.node(left).color, Color::Black);

    let left_left = tree.node(left).left.into_node();
    assert_eq!(tree.node(left_left).value, -12);
    assert_eq!(tree.node(left_left).color, Color::Red);

    let right = tree.node(root).right.into_node();
    assert_eq!(tree.node(right).value, 8);
    assert_eq!(tree.node(right).color, Color::Red);

    let right_left = tree.node(right).left.into_node();
    assert_eq!(tree.node(right_left).value, 5);
    assert_eq!(tree.node(right_left).color, Color::Black);

    let right_right = tree.node(right).right.into_node();
    assert_eq!(tree.node(right_right).value, 10);
    assert_eq!(tree.node(right_right).color, Color::Black);
}

#[test]
fn delete_case_3_then_4_right() {
    let mut tree = RBTree::new();

    let vals = vec![0, 10, -10, 12, -5, -3, -8];

    for val in vals {
        tree.insert(val);
    }

    assert!(tree.delete(&-3));

    let root = tree.root().into_node();
    assert_eq!(tree.node(root).value, 0);
    assert_eq!(tree.node(root).color, Color::Black);

    let left = tree.node(root).left.into_node();
    assert_eq!(tree.node(left).value, -8);
    assert_eq!(tree.node(left).color, Color::Red);

    let left_left = tree.node(left).left.into_node();
    assert_eq!(tree.node(left_left).value, -10);
    assert_eq!(tree.node(left_left).color, Color::Black);

    let left_right = tree.node(left).right.into_node();
    assert_eq!(tree.node(left_right).value, -5);
    assert_eq!(tree.node(left_right).color, Color::Black);

    let right = tree.node(root).right.into_node();
    assert_eq!(tree.node(right).value, 10);
    assert_eq!(tree.node(right).color, Color::Black);

    let right_right = tree.node(right).right.into_node();
    assert_eq!(tree.node(right_right).value, 12);
    assert_eq!(tree.node(right_right).color, Color::Red);
}

#[test]
fn delete_case_4_left() {
    let mut tree = RBTree::new();

    let vals = vec![0, -10, 10, -12, 5, 3, 12];

    for val in vals {
        tree.insert(val);
    }

    assert!(tree.delete(&3));

    let root = tree.root().into_node();
    assert_eq!(tree.node(root).value, 0);
    assert_eq!(tree.node(root).color, Color::Black);

    let left = tree.node(root).left.into_node();
    assert_eq!(tree.node(left).value, -10);
    assert_eq!(tree.node(left).color, Color::Black);

    let left_left = tree.node(left).left.into_node();
    assert_eq!(tree.node(left_left).value, -12);
    assert_eq!(tree.node(left_left).color, Color::Red);

    let right = tree.node(root).right.into_node();
    assert_eq!(tree.node(right).value, 10);
    assert_eq!(tree.node(right).color, Color::Red);

    let right_left = tree.node(right).left.into_node();
    assert_eq!(tree.node(right_left).value, 5);
    assert_eq!(tree.node(right_left).color, Color::Black);

    let right_right = tree.node(right).right.into_node();
    assert_eq!(tree.node(right_right).value, 12);
    assert_eq!(tree.node(right_right).color, Color::Black);
}

#[test]
fn delete_case_4_right() {
    let mut tree = RBTree::new();

    let vals = vec![0, 10, -10, 12, -5, -3, -12];

    for val in vals {
        tree.insert(val);
    }

    assert!(tree.delete(&-3));

    let root = tree.root().into_node();
    assert_eq!(tree.node(root).value, 0);
    assert_eq!(tree.node(root).color, Color::Black);

    let left = tree.node(root).left.into_node();
    assert_eq!(tree.node(left).value, -10);
    assert_eq!(tree.node(left).color, Color::Red);

    let left_left = tree.node(left).left.into_node();
    assert_eq!(tree.node(left_left).value, -12);
    assert_eq!(tree.node(left_left).color, Color::Black);

    let left_right = tree.node(left).right.into_node();
    assert_eq!(tree.node(left_right).value, -5);
    assert_eq!(tree.node(left_right).color, Color::Black);

    let right = tree.node(root).right.into_node();
    assert_eq!(tree.node(right).value, 10);
    assert_eq!(tree.node(right).color, Color::Black);

    let right_right = tree.node(right).right.into_node();
    assert_eq!(tree.node(right_right).value, 12);
    assert_eq!(tree.node(right_right).color, Color::Red);
}

#[test]
fn deletion_blackbox() {
    let mut tree = RBTree::<i32>::new();

    let mut rng = StdRng::seed_from_u64(2024);

    let items: Vec<i32> = (0..50).map(|_| rng.random_range(-100..100)).collect();

    for item in &items {
        tree.insert(*item);
    }

    let indices: Vec<usize> = (0..10).map(|_| rng.random_range(0..items.len())).collect();

    for index in indices {
        tree.delete(&items[index]);
    }

    let tree_vec = tree.in_order_vec();
    assert!(tree_vec.is_sorted());

    let max_height = tree.height(tree.root().into_node());
    let min_height = tree.min_height(tree.root().into_node());

    assert!((max_height as f32 / min_height as f32) < 2.0);
}
