use rbst328::Node;

#[test]
fn new_node_is_a_leaf_of_height_one() {
    let node = Node::<u32, &str>::new(4, "four");

    assert_eq!(node.key, 4);
    assert_eq!(node.value, "four");
    assert!(node.left.is_none());
    assert!(node.right.is_none());
    assert_eq!(node.height, 1);
    assert_eq!(node.left_height(), 0);
    assert_eq!(node.right_height(), 0);
    assert_eq!(node.balance(), 0);
}

#[test]
fn balance_is_right_height_minus_left_height() {
    let mut low = Node::<u32, &str>::new(1, "one");
    low.left = Some(Box::new(Node::new(0, "zero")));
    low.update_height();
    let mut node = Node::<u32, &str>::new(4, "four");
    node.left = Some(Box::new(low));
    node.right = Some(Box::new(Node::new(9, "nine")));

    assert_eq!(node.left_height(), 2);
    assert_eq!(node.right_height(), 1);
    assert_eq!(node.balance(), -1);
}

#[test]
fn update_height_is_one_more_than_the_taller_child() {
    let mut node = Node::<u32, &str>::new(4, "four");
    let mut right = Node::<u32, &str>::new(9, "nine");
    right.right = Some(Box::new(Node::new(11, "eleven")));
    right.update_height();
    assert_eq!(right.height, 2);
    node.right = Some(Box::new(right));

    node.update_height();

    assert_eq!(node.height, 3);
    assert_eq!(node.balance(), 2);
}
