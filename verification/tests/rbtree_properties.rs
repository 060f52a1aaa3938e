use data_structures::rbtree::{Color, Link, RBTree};

/// Walks the subtree behind `link` and returns its black height, checking on
/// the way that no red node has a red child, that both subtrees of every node
/// have the same black height, and that children point back to their parent.
fn black_height(tree: &RBTree<i32>, link: Link, parent: Link) -> u32 {
    match link {
        Link::Nil => 0,
        Link::Real(i) => {
            let node = tree.node(i);
            assert_eq!(node.parent, parent);
            if node.color == Color::Red {
                assert_eq!(tree.color(node.left), Color::Black);
                assert_eq!(tree.color(node.right), Color::Black);
            }
            let left = black_height(tree, node.left, link);
            let right = black_height(tree, node.right, link);
            assert_eq!(left, right);
            left + if node.color == Color::Black { 1 } else { 0 }
        }
    }
}

fn assert_red_black(tree: &RBTree<i32>) {
    assert_eq!(tree.color(tree.nil()), Color::Black);
    assert_eq!(tree.color(tree.root()), Color::Black);
    black_height(tree, tree.root(), Link::Nil);
    let values = tree.in_order_vec();
    for pair in values.windows(2) {
        assert!(pair[0] <= pair[1]);
    }
}

const SAMPLE: [i32; 24] = [
    41, -7, 13, 0, 99, -56, 13, 8, 77, -3, 21, 64, -90, 5, 5, 30, -12, 58, 2, 86, -41, 17, 70, -28,
];

#[test]
fn in_order_is_the_sorted_input() {
    let mut tree = RBTree::new();
    let mut expected = Vec::new();
    for value in SAMPLE {
        tree.insert(value);
        expected.push(value);
        expected.sort();
        assert_eq!(tree.in_order_vec(), expected);
    }
    assert_eq!(
        tree.in_order_vec(),
        vec![
            -90, -56, -41, -28, -12, -7, -3, 0, 2, 5, 5, 8, 13, 13, 17, 21, 30, 41, 58, 64, 70,
            77, 86, 99
        ]
    );
}

#[test]
fn invariants_hold_after_every_insert_and_delete() {
    let mut tree = RBTree::new();
    assert_red_black(&tree);
    for value in SAMPLE {
        tree.insert(value);
        assert_red_black(&tree);
    }
    for value in [13, 41, -90, 5, 99, 0, 64, 13, -7, 5] {
        assert!(tree.delete(&value));
        assert_red_black(&tree);
    }
    assert_eq!(
        tree.in_order_vec(),
        vec![-56, -41, -28, -12, -3, 2, 8, 17, 21, 30, 58, 70, 77, 86]
    );
}

#[test]
fn longest_path_is_at_most_twice_the_shortest() {
    let mut tree = RBTree::new();
    for value in 0..100 {
        tree.insert(value);
        let root = tree.root().into_node();
        assert!(tree.height(root) <= 2 * tree.min_height(root));
        assert!(tree.min_height(root) <= tree.height(root));
    }
    let root = tree.root().into_node();
    assert_eq!(tree.height(root), 11);
    assert_eq!(tree.min_height(root), 6);
}

#[test]
fn two_nodes_are_twice_as_high_as_the_shortest_path() {
    let mut tree = RBTree::new();
    tree.insert(0);
    tree.insert(1);
    let root = tree.root().into_node();
    assert_eq!(tree.height(root), 2);
    assert_eq!(tree.min_height(root), 1);
}

#[test]
fn deleting_an_absent_value_changes_nothing() {
    let mut tree = RBTree::new();
    for value in [5, 1, 9, 3, 7] {
        tree.insert(value);
    }
    let before = tree.in_order_vec();
    let root = tree.root();
    assert!(!tree.delete(&4));
    assert!(!tree.delete(&100));
    assert_eq!(tree.in_order_vec(), before);
    assert_eq!(tree.in_order_vec().len(), 5);
    assert_eq!(tree.root(), root);
    assert_red_black(&tree);
}

#[test]
fn deleting_from_an_empty_tree_returns_false() {
    let mut tree: RBTree<i32> = RBTree::new();
    assert!(!tree.delete(&0));
    assert!(tree.root().is_nil());
    assert_eq!(tree.in_order_vec(), Vec::<i32>::new());
}

#[test]
fn round_trip_leaves_an_empty_tree() {
    let mut tree = RBTree::new();
    for value in SAMPLE {
        tree.insert(value);
    }
    let mut order = SAMPLE;
    order.reverse();
    order.swap(0, 7);
    order.swap(3, 19);
    order.swap(11, 12);
    for value in order {
        assert!(tree.delete(&value));
        assert_red_black(&tree);
    }
    assert!(tree.root().is_nil());
    assert_eq!(tree.in_order_vec(), Vec::<i32>::new());
}

#[test]
fn equal_values_are_kept_and_counted() {
    let mut tree = RBTree::new();
    for _ in 0..5 {
        tree.insert(7);
    }
    tree.insert(3);
    tree.insert(7);
    assert_eq!(tree.in_order_vec(), vec![3, 7, 7, 7, 7, 7, 7]);
    assert_red_black(&tree);
    assert!(tree.delete(&7));
    assert_eq!(tree.in_order_vec(), vec![3, 7, 7, 7, 7, 7]);
    assert!(tree.search(&7));
    for _ in 0..5 {
        assert!(tree.delete(&7));
    }
    assert!(!tree.search(&7));
    assert!(!tree.delete(&7));
    assert_eq!(tree.in_order_vec(), vec![3]);
}

#[test]
fn an_equal_value_goes_to_the_right_of_the_one_in_the_tree() {
    let mut tree = RBTree::new();
    let first = tree.unsafe_insert(4);
    let second = tree.unsafe_insert(4);
    assert_eq!(tree.root(), Link::Real(first));
    assert_eq!(tree.node(first).right, Link::Real(second));
    assert_eq!(tree.node(first).left, Link::Nil);
    assert_eq!(tree.node(second).color, Color::Red);
}

#[test]
fn search_finds_what_was_inserted_and_nothing_else() {
    let mut tree = RBTree::new();
    assert!(!tree.search(&1));
    for value in [8, 3, 10, 1, 6, 14, 4, 7, 13] {
        tree.insert(value);
    }
    for value in [8, 3, 10, 1, 6, 14, 4, 7, 13] {
        assert!(tree.search(&value));
    }
    for value in [0, 2, 5, 9, 11, 12, 15, -1] {
        assert!(!tree.search(&value));
    }
}

#[test]
fn unsafe_search_returns_the_node_that_holds_the_value() {
    let mut tree = RBTree::new();
    let mut handles = Vec::new();
    for value in [8, 3, 10, 1, 6] {
        handles.push((value, tree.unsafe_insert(value)));
    }
    for (value, handle) in handles {
        assert_eq!(tree.unsafe_search(&value), Some(handle));
        assert_eq!(tree.node(handle).value, value);
    }
    assert_eq!(tree.unsafe_search(&2), None);
}

#[test]
fn unsafe_search_finds_the_topmost_of_equal_values() {
    let mut tree = RBTree::new();
    tree.insert(1);
    tree.insert(1);
    tree.insert(1);
    let root = tree.root().into_node();
    assert_eq!(tree.unsafe_search(&1), Some(root));
    assert_eq!(tree.node(tree.node(root).left.into_node()).value, 1);
    assert_eq!(tree.node(tree.node(root).right.into_node()).value, 1);
}

#[test]
fn deleting_a_node_with_two_children_keeps_the_node_and_frees_its_successor() {
    let mut tree = RBTree::new();
    let root = tree.unsafe_insert(10);
    tree.insert(5);
    let successor = tree.unsafe_insert(15);
    assert!(tree.delete(&10));
    assert_eq!(tree.root(), Link::Real(root));
    assert_eq!(tree.node(root).value, 15);
    assert_eq!(tree.node(root).color, Color::Black);
    assert_eq!(tree.node(root).right, Link::Nil);
    assert_eq!(tree.node(tree.node(root).left.into_node()).value, 5);
    let reused = tree.unsafe_insert(20);
    assert_eq!(reused, successor);
    assert_eq!(tree.in_order_vec(), vec![5, 15, 20]);
}

#[test]
fn a_freed_slot_is_taken_again() {
    let mut tree = RBTree::new();
    let a = tree.unsafe_insert(1);
    let b = tree.unsafe_insert(2);
    assert!(tree.delete(&1));
    let c = tree.unsafe_insert(3);
    assert_eq!(c, a);
    assert_ne!(c, b);
    assert_eq!(tree.in_order_vec(), vec![2, 3]);
    assert_red_black(&tree);
}

#[test]
fn delete_root_with_one_red_child_makes_the_child_a_black_root() {
    let mut tree = RBTree::new();
    tree.insert(1);
    let child = tree.unsafe_insert(2);
    assert!(tree.delete(&1));
    assert_eq!(tree.root(), Link::Real(child));
    assert_eq!(tree.node(child).color, Color::Black);
    assert_eq!(tree.node(child).parent, Link::Nil);
}

#[test]
fn ascending_and_descending_insertions_stay_balanced() {
    let mut up = RBTree::new();
    let mut down = RBTree::new();
    for value in 0..64 {
        up.insert(value);
        down.insert(-value);
    }
    assert_red_black(&up);
    assert_red_black(&down);
    assert_eq!(up.in_order_vec(), (0..64).collect::<Vec<i32>>());
    assert_eq!(down.in_order_vec(), (-63..=0).collect::<Vec<i32>>());
}

#[test]
fn delete_then_insert_many_times() {
    let mut tree = RBTree::new();
    let mut expected: Vec<i32> = Vec::new();
    let mut seed: u32 = 12345;
    for _ in 0..400 {
        seed = seed.wrapping_mul(1664525).wrapping_add(1013904223);
        let value = ((seed >> 16) % 40) as i32;
        if (seed >> 8) % 3 == 0 {
            let removed = tree.delete(&value);
            let position = expected.iter().position(|v| *v == value);
            assert_eq!(removed, position.is_some());
            if let Some(p) = position {
                expected.remove(p);
            }
        } else {
            tree.insert(value);
            let at = expected.partition_point(|v| *v <= value);
            expected.insert(at, value);
        }
        assert_eq!(tree.in_order_vec(), expected);
        assert_red_black(&tree);
    }
}
