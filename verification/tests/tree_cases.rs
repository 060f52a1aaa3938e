use data_structures::tree::{Tree, TreeError};

#[test]
fn tree_test() {
    let mut tree = Tree::new(0);

    for i in 0..3 {
        tree.add_child_node(i);
        for _j in 0..2 {
            tree[i].add_child_node(8);
        }
    }
    let _ = tree.append_at_depth(vec![0], 324);
    println!("{:?}", &tree);
    let val = tree.index_depth(vec![0, 2]).unwrap().node();
    assert_eq!(324, *val);
}

#[test]
fn a_new_tree_is_a_leaf_of_depth_one() {
    let tree = Tree::new(5);
    assert!(tree.is_leaf());
    assert_eq!(*tree.node(), 5);
    assert_eq!(tree.children().len(), 0);
    assert_eq!(tree.max_depth(), 1);
}

#[test]
fn max_depth_counts_the_nodes_on_the_longest_path() {
    let mut tree = Tree::new(0);
    tree.add_child_node(1);
    tree.add_child_node(2);
    tree.add_child_node(3);
    assert_eq!(tree.max_depth(), 2);
    tree[1].add_child_node(4);
    tree[1][0].add_child_node(5);
    tree[2].add_child_node(6);
    assert_eq!(tree.max_depth(), 4);
    assert!(!tree.is_leaf());
    assert!(tree[0].is_leaf());
}

#[test]
fn add_child_tree_appends_the_whole_tree() {
    let mut sub = Tree::new(10);
    sub.add_child_node(11);
    let mut tree = Tree::new(0);
    tree.add_child_node(1);
    tree.add_child_tree(sub);
    assert_eq!(tree.children().len(), 2);
    assert_eq!(*tree.children()[1].node(), 10);
    assert_eq!(*tree.children()[1].children()[0].node(), 11);
    assert_eq!(tree.max_depth(), 3);
}

#[test]
fn index_depth_with_an_empty_path_is_the_tree_itself() {
    let mut tree = Tree::new(7);
    tree.add_child_node(8);
    let found = tree.index_depth(vec![]).unwrap();
    assert_eq!(*found.node(), 7);
    assert_eq!(found.children().len(), 1);
}

#[test]
fn index_depth_past_a_leaf_is_an_error() {
    let mut tree = Tree::new(0);
    tree.add_child_node(1);
    assert!(matches!(
        tree.index_depth(vec![0, 0]),
        Err(TreeError::IndexOutOfBoundsError)
    ));
    assert!(matches!(
        Tree::new(3).index_depth(vec![5]),
        Err(TreeError::IndexOutOfBoundsError)
    ));
}

#[test]
fn index_mut_depth_changes_the_tree_in_place() {
    let mut tree = Tree::new(0);
    tree.add_child_node(1);
    tree[0].add_child_node(2);
    tree.index_mut_depth(vec![0, 0]).unwrap().add_child_node(3);
    assert_eq!(*tree.index_depth(vec![0, 0, 0]).unwrap().node(), 3);
    assert_eq!(tree.max_depth(), 4);
    assert!(matches!(
        tree.index_mut_depth(vec![0, 0, 0, 0]),
        Err(TreeError::IndexOutOfBoundsError)
    ));
}

#[test]
fn append_at_depth_past_a_leaf_is_an_error_and_changes_nothing() {
    let mut tree = Tree::new(0);
    tree.add_child_node(1);
    assert!(matches!(
        tree.append_at_depth(vec![0, 3], 9),
        Err(TreeError::IndexOutOfBoundsError)
    ));
    assert_eq!(tree.max_depth(), 2);
    assert_eq!(tree.children().len(), 1);
    assert!(tree.append_at_depth(vec![], 9).is_ok());
    assert_eq!(tree.children().len(), 2);
    assert_eq!(*tree[1].node(), 9);
}
