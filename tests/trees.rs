use algos::linked_lists::Queue;
use algos::trees::{
    breadth_first_search, in_order_traverse, post_order_traverse, pre_order_traverse, BinaryNode,
};

fn leaf(v: i64) -> Option<Box<BinaryNode<i64>>> {
    Some(Box::new(BinaryNode::new(v)))
}

fn search_tree() -> BinaryNode<i64> {
    let mut root = BinaryNode::new(20);
    let mut left = BinaryNode::new(10);
    let mut right = BinaryNode::new(30);
    let mut left_left = BinaryNode::new(5);
    let mut left_right = BinaryNode::new(15);
    let mut right_left = BinaryNode::new(25);
    let mut right_right = BinaryNode::new(35);
    left_left.left = leaf(3);
    left_left.right = leaf(7);
    left_right.left = leaf(13);
    left_right.right = leaf(17);
    right_left.left = leaf(23);
    right_left.right = leaf(27);
    right_right.left = leaf(33);
    right_right.right = leaf(37);
    left.left = Some(Box::new(left_left));
    left.right = Some(Box::new(left_right));
    right.left = Some(Box::new(right_left));
    right.right = Some(Box::new(right_right));
    root.left = Some(Box::new(left));
    root.right = Some(Box::new(right));
    root
}

#[test]
fn test_traverse() {
    let mut root = BinaryNode::new(1);
    let mut left = BinaryNode::new(2);
    let mut right = BinaryNode::new(3);
    let left_left = BinaryNode::new(4);
    let left_right = BinaryNode::new(5);
    let right_left = BinaryNode::new(6);
    let right_right = BinaryNode::new(7);

    left.left = Some(Box::new(left_left));
    left.right = Some(Box::new(left_right));
    right.left = Some(Box::new(right_left));
    right.right = Some(Box::new(right_right));
    root.left = Some(Box::new(left));
    root.right = Some(Box::new(right));

    let mut path = Vec::<i64>::new();
    let root = Some(Box::new(root));
    pre_order_traverse(&root, &mut path);
    assert_eq!(path, vec![1, 2, 4, 5, 3, 6, 7]);

    path.clear();
    post_order_traverse(&root, &mut path);
    assert_eq!(path, vec![4, 5, 2, 6, 7, 3, 1]);

    path.clear();
    in_order_traverse(&root, &mut path);
    assert_eq!(path, vec![4, 2, 5, 1, 6, 3, 7]);
}

#[test]
fn traversals_append_and_handle_empty() {
    let mut path = vec![0];
    pre_order_traverse(&None, &mut path);
    post_order_traverse(&None, &mut path);
    in_order_traverse(&None, &mut path);
    assert_eq!(path, vec![0]);
    in_order_traverse(&leaf(9), &mut path);
    assert_eq!(path, vec![0, 9]);
}

#[test]
fn test_bst_search() {
    let root = search_tree();
    assert_eq!(root.search(37), true);
    assert_eq!(root.search(38), false);
    assert_eq!(root.search(3), true);
    assert_eq!(root.search(4), false);
    assert_eq!(root.search(20), true);
}

#[test]
fn test_bst_insert() {
    let mut root = search_tree();
    root.insert(38);
    assert_eq!(root.search(38), true);
}

#[test]
fn bst_insert_keeps_existing_values_in_order() {
    let mut root = search_tree();
    root.insert(38);
    root.insert(12);
    root.insert(20);
    let mut path = Vec::new();
    in_order_traverse(&Some(Box::new(root)), &mut path);
    assert_eq!(
        path,
        vec![3, 5, 7, 10, 12, 13, 15, 17, 20, 20, 23, 25, 27, 30, 33, 35, 37, 38]
    );
}

#[test]
fn node_getters() {
    let n = BinaryNode::new(42);
    assert_eq!(n.get_value(), 42);
    assert!(n.left.is_none() && n.right.is_none());
}

#[test]
fn trees_test_bfs() {
    let mut queue = Queue::<Box<BinaryNode<i64>>>::new();
    let mut root = BinaryNode::new(1);
    let mut left = BinaryNode::new(2);
    let mut right = BinaryNode::new(3);
    let mut left_left = BinaryNode::new(4);
    let mut left_right = BinaryNode::new(5);
    let mut right_left = BinaryNode::new(6);
    let mut right_right = BinaryNode::new(7);
    left_left.left = leaf(8);
    left_left.right = leaf(9);
    left_right.left = leaf(10);
    left_right.right = leaf(11);
    right_left.left = leaf(12);
    right_left.right = leaf(13);
    right_right.left = leaf(14);
    right_right.right = leaf(15);
    left.left = Some(Box::new(left_left));
    left.right = Some(Box::new(left_right));
    right.left = Some(Box::new(right_left));
    right.right = Some(Box::new(right_right));
    root.left = Some(Box::new(left));
    root.right = Some(Box::new(right));

    queue.enque(Box::new(root));
    let found = breadth_first_search(&mut queue, 10);
    assert_eq!(found, true);
    assert_eq!(queue.peek().unwrap().get_value(), 10);

    let mut queue = Queue::<Box<BinaryNode<i64>>>::new();
    let found = breadth_first_search(&mut queue, -1);
    assert_eq!(found, false);
}

#[test]
fn bfs_missing_value_empties_queue() {
    let mut queue = Queue::new();
    queue.enque(Box::new(search_tree()));
    assert!(!breadth_first_search(&mut queue, 4));
    assert_eq!(queue.size(), 0);
}
