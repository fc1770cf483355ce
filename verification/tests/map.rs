use rbst328::BSTMap;

fn filled(pairs: &[(u32, &str)]) -> BSTMap<u32, String> {
    let mut bst = BSTMap::<u32, String>::new();
    for (k, v) in pairs {
        bst.insert(*k, v.to_string());
    }
    bst
}

#[test]
fn new_map_is_empty() {
    let bst = BSTMap::<u32, String>::new();

    assert_eq!(bst.len(), 0);
    assert!(bst.is_empty());
}

#[test]
fn insertion_changes_length_but_duplicates_do_not() {
    let mut bst = BSTMap::<u32, String>::new();

    const SERIES_OF_INSERTIONS: [(u32, &str); 6] = [
        (12, "hello"),
        (35, "bye"),
        (999, "test"),
        (0, "test2"),
        (1200, "high number"),
        (36, "utf8 string ąąąąą"),
    ];
    const SERIES_OF_DUPLICATES: [(u32, &str); 6] = [
        (12, "hello1"),
        (35, "bye2"),
        (999, "test3"),
        (0, "test24"),
        (1200, "high number5"),
        (36, "utf8 string ąąąąą6"),
    ];

    for (k, v) in &SERIES_OF_INSERTIONS {
        bst.insert(*k, v.to_string());
    }

    for (k, v) in &SERIES_OF_DUPLICATES {
        bst.insert(*k, v.to_string());
    }

    // Duplicates should not change length!
    assert_eq!(bst.len(), SERIES_OF_INSERTIONS.len());
    assert!(!bst.is_empty());
}

#[test]
fn removal_changes_length() {
    let mut bst = BSTMap::<u32, String>::new();

    const KEY: u32 = 1;
    const VALUE: &str = "test";
    bst.insert(KEY, VALUE.to_string());

    bst.remove(KEY);

    assert_eq!(bst.len(), 0);
    assert!(bst.is_empty());
}

#[test]
fn retrieval_of_nonexistent_key_returns_none() {
    let mut bst = BSTMap::<u32, String>::new();

    const KEY: u32 = 999;

    assert!(!bst.contains(KEY));
    assert!(bst.get(&KEY).is_none());
    assert!(bst.get_mut(&KEY).is_none());
}

#[test]
fn retrieval_of_existent_key_returns_some() {
    let mut bst = BSTMap::<u32, String>::new();

    const KEY: u32 = 999;
    const VALUE: &str = "something";
    bst.insert(KEY, VALUE.to_string());

    assert!(bst.contains(KEY));
    assert!(bst.get(&KEY).is_some());
    assert!(bst.get_mut(&KEY).is_some());
    assert_eq!(*bst.get(&KEY).unwrap(), VALUE.to_string());
    assert_eq!(*bst.get_mut(&KEY).unwrap(), VALUE.to_string());
}

#[test]
fn insertion_overwrites_existing_key() {
    let mut bst = BSTMap::<u32, String>::new();

    const KEY: u32 = 999;
    const FIRST_VALUE: &str = "hallo";
    const NEW_VALUE: &str = "bye";
    let mut return_val = bst.insert(KEY, FIRST_VALUE.to_string());

    assert!(return_val.is_none());

    // overwrite
    return_val = bst.insert(KEY, NEW_VALUE.to_string());

    assert!(return_val.is_some());
    assert_eq!(return_val.unwrap(), FIRST_VALUE.to_string());
}

#[test]
fn removal_returns_none_on_nonexistent_key() {
    let mut bst = BSTMap::<u32, String>::new();

    const KEY: u32 = 1;
    let return_val = bst.remove(KEY);

    assert!(return_val.is_none());
}

#[test]
fn removal_returns_some_on_existent_key() {
    let mut bst = BSTMap::<u32, String>::new();

    const KEY: u32 = 1;
    const VALUE: &str = "hello";
    bst.insert(KEY, VALUE.to_string());

    let return_val = bst.remove(KEY);

    assert!(return_val.is_some());
    assert_eq!(return_val.unwrap(), VALUE.to_string());
}

#[test]
fn clear_sets_length_to_zero() {
    let mut bst = BSTMap::<u32, String>::new();

    const KEY: u32 = 1;
    const VALUE: &str = "hi";
    bst.insert(KEY, VALUE.to_string());

    bst.clear();

    assert_eq!(bst.len(), 0);
    assert!(bst.is_empty());
}

#[test]
fn removal_of_node_with_one_child() {
    let mut bst = BSTMap::<u32, String>::new();

    const TEST_INSERTIONS: [(u32, &str); 5] = [
        (10, "hello"),
        (5, "hi"),
        (15, "bye"),
        (2, "leaf_node_child"),
        (20, "right_child"),
    ];
    for (k, v) in &TEST_INSERTIONS {
        bst.insert(*k, v.to_string());
    }

    //      10
    //     /  \
    //    5   15
    //   /      \
    //  2       20
    // test removal of parent with left child
    let mut return_val = bst.remove(5);

    assert_eq!(bst.len(), TEST_INSERTIONS.len() - 1);
    assert!(return_val.is_some());
    assert_eq!(return_val.unwrap(), "hi".to_string());

    // child should remain accessible
    let mut child_node = bst.get(&2);

    assert!(child_node.is_some());
    assert_eq!(*child_node.unwrap(), "leaf_node_child".to_string());

    // test removal of parent with right child
    return_val = bst.remove(15);

    assert_eq!(bst.len(), TEST_INSERTIONS.len() - 2);
    assert!(return_val.is_some());
    assert_eq!(return_val.unwrap(), "bye".to_string());

    // child should remain accessible
    assert!(bst.contains(20));
    child_node = bst.get(&20);

    assert!(child_node.is_some());
    assert_eq!(*child_node.unwrap(), "right_child".to_string());
}

#[test]
fn removal_of_node_with_two_children_and_right_node_successor() {
    let mut bst = BSTMap::<u32, String>::new();

    const TEST_INSERTIONS: [(u32, &str); 8] = [
        (10, "hello"),
        (5, "hi"),
        (15, "bye"),
        (2, "leaf_node_child"),
        (13, "left_child"),
        (20, "right_child"),
        (12, "left_child_subtree_l"),
        (14, "left_child_subtree_r"),
    ];

    // Children to check after removing 15
    const CHILDREN_TO_CHECK: [(u32, &str); 4] = [
        (13, "left_child"),
        (20, "right_child"),
        (12, "left_child_subtree_l"),
        (14, "left_child_subtree_r"),
    ];
    for (k, v) in &TEST_INSERTIONS {
        bst.insert(*k, v.to_string());
    }

    //      10
    //     /  \
    //    5   15
    //   /   /  \
    //  2   13  20
    //     /  \
    //    12  14
    let return_val = bst.remove(15);

    assert_eq!(bst.len(), TEST_INSERTIONS.len() - 1);
    assert!(return_val.is_some());
    assert_eq!(return_val.unwrap(), "bye".to_string());

    // children should remain accessible
    for (k, v) in &CHILDREN_TO_CHECK {
        assert!(bst.contains(*k));
        let child_node = bst.get(k);

        assert!(child_node.is_some());
        assert_eq!(*child_node.unwrap(), v.to_string());
    }
}

#[test]
fn removal_of_node_with_two_children_and_successor_in_right_subtree() {
    let mut bst = BSTMap::<u32, String>::new();

    const TEST_INSERTIONS: [(u32, &str); 11] = [
        (10, "hello"),
        (5, "hi"),
        (15, "bye"),
        (2, "leaf_node_child"),
        (13, "left_child"),
        (20, "right_child"),
        (12, "left_child_subtree_l"),
        (14, "left_child_subtree_r"),
        (19, "right_child_subtree_l"),
        (17, "right_child_subtree_l_l"),
        (21, "right_child_subtree_r"),
    ];

    // Children to check after removing 15
    const CHILDREN_TO_CHECK: [(u32, &str); 7] = [
        (13, "left_child"),
        (20, "right_child"),
        (12, "left_child_subtree_l"),
        (14, "left_child_subtree_r"),
        (19, "right_child_subtree_l"),
        (17, "right_child_subtree_l_l"),
        (21, "right_child_subtree_r"),
    ];
    for (k, v) in &TEST_INSERTIONS {
        bst.insert(*k, v.to_string());
    }

    //      10
    //     /  \
    //    5   15
    //   /   /  \
    //  2   13  20
    //     / |  | \
    //    12 14 19 21
    //         /
    //        17
    let return_val = bst.remove(15);

    assert_eq!(bst.len(), TEST_INSERTIONS.len() - 1);
    assert!(return_val.is_some());
    assert_eq!(return_val.unwrap(), "bye".to_string());

    // children should remain accessible
    for (k, v) in &CHILDREN_TO_CHECK {
        assert!(bst.contains(*k));
        let child_node = bst.get(k);

        assert!(child_node.is_some());
        assert_eq!(*child_node.unwrap(), v.to_string());
    }
}

#[test]
fn default_map_is_empty() {
    let bst = BSTMap::<u32, String>::default();

    assert_eq!(bst.len(), 0);
    assert!(bst.is_empty());
    assert!(!bst.contains(0));
}

#[test]
fn insert_on_new_key_returns_none_and_grows_by_one() {
    let mut bst = filled(&[(4, "d"), (2, "b")]);

    assert_eq!(bst.insert(3, "c".to_string()), None);
    assert_eq!(bst.len(), 3);
    assert_eq!(bst.get(&3), Some(&"c".to_string()));
}

#[test]
fn insert_on_held_key_returns_previous_value_and_keeps_length() {
    let mut bst = filled(&[(4, "d"), (2, "b"), (6, "f")]);

    assert_eq!(bst.insert(2, "B".to_string()), Some("b".to_string()));
    assert_eq!(bst.len(), 3);
    assert_eq!(bst.get(&2), Some(&"B".to_string()));
    assert_eq!(bst.get(&4), Some(&"d".to_string()));
    assert_eq!(bst.get(&6), Some(&"f".to_string()));
}

#[test]
fn remove_on_absent_key_changes_nothing() {
    let mut bst = filled(&[(4, "d"), (2, "b"), (6, "f")]);

    assert_eq!(bst.remove(5), None);
    assert_eq!(bst.len(), 3);
    assert!(bst.contains(4) && bst.contains(2) && bst.contains(6));
}

#[test]
fn remove_on_held_key_returns_value_and_key_is_gone() {
    let mut bst = filled(&[(4, "d"), (2, "b"), (6, "f")]);

    assert_eq!(bst.remove(4), Some("d".to_string()));
    assert_eq!(bst.len(), 2);
    assert!(!bst.contains(4));
    assert_eq!(bst.get(&4), None);
    assert_eq!(bst.get(&2), Some(&"b".to_string()));
    assert_eq!(bst.get(&6), Some(&"f".to_string()));
}

#[test]
fn remove_of_a_leaf_leaves_the_rest() {
    let mut bst = filled(&[(10, "hello"), (5, "hi"), (15, "bye")]);

    assert_eq!(bst.remove(15), Some("bye".to_string()));
    assert_eq!(bst.len(), 2);
    assert_eq!(bst.get(&10), Some(&"hello".to_string()));
    assert_eq!(bst.get(&5), Some(&"hi".to_string()));
    assert_eq!(bst.remove(5), Some("hi".to_string()));
    assert_eq!(bst.remove(10), Some("hello".to_string()));
    assert!(bst.is_empty());
}

#[test]
fn remove_of_the_root_with_two_children() {
    let mut bst = filled(&[(10, "a"), (5, "b"), (15, "c"), (12, "d"), (20, "e"), (11, "f")]);

    assert_eq!(bst.remove(12), Some("d".to_string()));
    assert_eq!(bst.len(), 5);
    for (k, v) in [(10, "a"), (5, "b"), (15, "c"), (20, "e"), (11, "f")] {
        assert_eq!(bst.get(&k), Some(&v.to_string()));
    }
    assert!(!bst.contains(12));
}

#[test]
fn get_mut_changes_the_value_in_place() {
    let mut bst = filled(&[(4, "d"), (2, "b"), (6, "f")]);

    *bst.get_mut(&6).unwrap() = "changed".to_string();

    assert_eq!(bst.get(&6), Some(&"changed".to_string()));
    assert_eq!(bst.get(&4), Some(&"d".to_string()));
    assert_eq!(bst.get(&2), Some(&"b".to_string()));
    assert_eq!(bst.len(), 3);
    assert_eq!(bst.insert(5, "e".to_string()), None);
    assert_eq!(bst.len(), 4);
}

#[test]
fn length_counts_distinct_keys() {
    let mut bst = BSTMap::<u32, u32>::new();
    let keys = [7, 3, 7, 9, 3, 3, 1, 9, 8];

    for (round, k) in keys.iter().enumerate() {
        bst.insert(*k, round as u32);
    }

    assert_eq!(bst.len(), 5);
    assert_eq!(bst.get(&7), Some(&2));
    assert_eq!(bst.get(&3), Some(&5));
    assert_eq!(bst.get(&9), Some(&7));
    assert_eq!(bst.get(&1), Some(&6));
    assert_eq!(bst.get(&8), Some(&8));
}

#[test]
fn clear_then_reuse() {
    let mut bst = filled(&[(1, "a"), (2, "b"), (3, "c"), (4, "d")]);

    bst.clear();

    assert!(bst.is_empty());
    assert!(!bst.contains(2));
    assert_eq!(bst.insert(2, "again".to_string()), None);
    assert_eq!(bst.len(), 1);
}

#[test]
fn release_takes_a_deep_chain_apart() {
    let mut bst = BSTMap::<u32, u32>::new();
    for k in 0..2000 {
        bst.insert(k, k);
    }
    assert_eq!(bst.len(), 2000);

    bst.clear();

    assert_eq!(bst.len(), 0);
}

#[test]
fn string_keys_are_ordered_as_strings() {
    let mut bst = BSTMap::<String, u32>::new();
    for (i, k) in ["pear", "apple", "fig", "apple"].iter().enumerate() {
        bst.insert(k.to_string(), i as u32);
    }

    assert_eq!(bst.len(), 3);
    assert_eq!(bst.get(&"apple".to_string()), Some(&3));
    assert!(bst.contains("fig".to_string()));
    assert!(!bst.contains("plum".to_string()));
}

#[test]
fn level_rows_show_every_place_down_to_the_last_node() {
    //        13
    //       /  \
    //      7    15
    //     / \
    //    2   8
    let bst = filled(&[(13, "hello"), (15, "bye"), (7, "test"), (2, "test2"), (8, "high number")]);

    let rows = bst.level_rows();
    let keys: Vec<Vec<Option<u32>>> =
        rows.iter().map(|row| row.iter().map(|place| place.map(|n| n.key)).collect()).collect();

    assert_eq!(
        keys,
        vec![
            vec![Some(13)],
            vec![Some(7), Some(15)],
            vec![Some(2), Some(8), None, None],
        ]
    );
    assert_eq!(rows[0][0].unwrap().height, 3);
    assert_eq!(rows[1][0].unwrap().height, 2);
    assert_eq!(rows[1][1].unwrap().height, 1);
    assert_eq!(rows[1][0].unwrap().balance(), 0);
    assert_eq!(rows[0][0].unwrap().balance(), -1);
}

#[test]
fn level_rows_of_the_empty_map_are_none() {
    let bst = BSTMap::<u32, String>::new();

    assert!(bst.level_rows().is_empty());
}

#[test]
fn removal_keeps_the_cached_heights() {
    let mut bst = filled(&[(10, "a"), (5, "b"), (15, "c"), (2, "d")]);

    assert_eq!(bst.remove(2), Some("d".to_string()));

    let rows = bst.level_rows();
    assert_eq!(rows.len(), 2);
    assert_eq!(rows[0][0].unwrap().key, 10);
    assert_eq!(rows[0][0].unwrap().height, 3);
    assert_eq!(rows[1][0].unwrap().key, 5);
    assert_eq!(rows[1][0].unwrap().height, 2);
    assert_eq!(rows[1][1].unwrap().height, 1);
}

fn height_of(node: &rbst328::Node<u32, u32>) -> i32 {
    let left = node.left.as_ref().map_or(0, |child| height_of(child));
    let right = node.right.as_ref().map_or(0, |child| height_of(child));
    1 + left.max(right)
}

#[test]
fn insertions_keep_every_node_balanced_and_its_height_cached() {
    let mut bst = BSTMap::<u32, u32>::new();
    let mut k: u32 = 1;
    for round in 0..700 {
        k = (k * 131 + 7) % 2003;
        bst.insert(k, round);
    }

    let rows = bst.level_rows();
    let mut seen = 0;
    for row in &rows {
        for node in row.iter().flatten() {
            seen += 1;
            assert_eq!(node.height, height_of(node));
            assert!(node.balance().abs() <= 1);
            if let Some(left) = &node.left {
                assert!(left.key < node.key);
            }
            if let Some(right) = &node.right {
                assert!(node.key < right.key);
            }
        }
    }
    assert_eq!(seen, bst.len());
    assert!(rows.len() <= 14);
}

#[test]
fn rising_keys_fill_the_tree_level_by_level() {
    let mut bst = BSTMap::<u32, u32>::new();
    for k in 0..1023 {
        bst.insert(k, k);
    }

    let rows = bst.level_rows();

    assert_eq!(rows.len(), 10);
    assert!(rows.iter().all(|row| row.iter().all(|place| place.is_some())));
    assert_eq!(rows[0][0].unwrap().key, 511);
    assert_eq!(rows[0][0].unwrap().height, 10);
}

#[test]
fn extend_puts_the_pairs_in_one_after_the_other() {
    let mut bst = filled(&[(4, "d"), (2, "b")]);

    bst.extend(vec![
        (9, "i".to_string()),
        (2, "B".to_string()),
        (7, "g".to_string()),
        (9, "I".to_string()),
    ]);

    assert_eq!(bst.len(), 4);
    assert_eq!(bst.get(&4), Some(&"d".to_string()));
    assert_eq!(bst.get(&2), Some(&"B".to_string()));
    assert_eq!(bst.get(&7), Some(&"g".to_string()));
    assert_eq!(bst.get(&9), Some(&"I".to_string()));
}

#[test]
fn from_iter_keeps_the_last_value_of_each_key() {
    let bst = BSTMap::<u32, u32>::from_iter(vec![(5, 1), (3, 2), (5, 3), (8, 4), (3, 5)]);

    assert_eq!(bst.len(), 3);
    assert_eq!(bst.get(&5), Some(&3));
    assert_eq!(bst.get(&3), Some(&5));
    assert_eq!(bst.get(&8), Some(&4));
}

#[test]
fn from_iter_of_no_pairs_is_the_empty_map() {
    let bst = BSTMap::<u32, u32>::from_iter(Vec::new());

    assert!(bst.is_empty());
}

#[test]
fn overwrite_after_a_removal_that_left_a_height_stale() {
    let mut bst = BSTMap::<u32, u32>::new();
    bst.insert(2, 20);
    bst.insert(1, 10);
    assert_eq!(bst.remove(1), Some(10));
    assert_eq!(bst.level_rows()[0][0].unwrap().height, 2);

    assert_eq!(bst.insert(2, 21), Some(20));

    assert_eq!(bst.len(), 1);
    assert_eq!(bst.get(&2), Some(&21));
    assert_eq!(bst.level_rows()[0][0].unwrap().height, 2);
}

#[test]
fn new_key_after_a_removal_that_left_a_height_stale() {
    let mut bst = BSTMap::<u32, u32>::new();
    bst.insert(2, 20);
    bst.insert(1, 10);
    assert_eq!(bst.remove(1), Some(10));

    assert_eq!(bst.insert(3, 30), None);

    assert_eq!(bst.len(), 2);
    assert_eq!(bst.get(&2), Some(&20));
    assert_eq!(bst.get(&3), Some(&30));
    let rows = bst.level_rows();
    assert_eq!(rows[0][0].unwrap().key, 2);
    assert_eq!(rows[0][0].unwrap().height, 2);
    assert_eq!(rows[1][1].unwrap().key, 3);
}

#[test]
fn insertions_and_removals_in_turn_keep_order_and_pairs() {
    let mut bst = BSTMap::<u32, u32>::new();
    for k in [50, 30, 70, 20, 40, 60, 80] {
        bst.insert(k, k);
    }
    assert_eq!(bst.remove(20), Some(20));
    assert_eq!(bst.insert(65, 1), None);
    assert_eq!(bst.remove(80), Some(80));
    assert_eq!(bst.insert(45, 2), None);
    assert_eq!(bst.insert(30, 3), Some(30));

    let pairs = bst.into_iter_inorder().collect();

    assert_eq!(pairs, vec![(30, 3), (40, 40), (45, 2), (50, 50), (60, 60), (65, 1), (70, 70)]);
}

#[test]
fn new_key_where_stale_heights_call_for_a_rotation_without_its_child() {
    let mut bst = BSTMap::<u32, u32>::new();
    bst.insert(30, 3);
    bst.insert(20, 2);
    bst.insert(40, 4);
    bst.insert(10, 1);
    bst.insert(25, 5);
    assert_eq!(bst.remove(30), Some(3));

    assert_eq!(bst.insert(5, 0), None);

    assert_eq!(bst.len(), 5);
    assert_eq!(bst.get(&5), Some(&0));
    assert_eq!(
        bst.iter_inorder().collect(),
        vec![(&5, &0), (&10, &1), (&20, &2), (&25, &5), (&40, &4)]
    );
    let rows = bst.level_rows();
    assert_eq!(rows[0][0].unwrap().key, 40);
    assert_eq!(rows[0][0].unwrap().height, 4);
    assert_eq!(rows[0][0].unwrap().balance(), -3);
    assert!(rows[0][0].unwrap().right.is_none());
}

#[test]
fn insertions_go_on_after_any_removals() {
    let mut bst = BSTMap::<u32, u32>::new();
    let mut k: u32 = 3;
    for round in 0..4000u32 {
        k = (k * 211 + 17) % 1511;
        if round % 3 == 2 {
            bst.remove(k);
        } else {
            bst.insert(k, round);
        }
    }

    let pairs = bst.iter_inorder().collect();

    assert_eq!(pairs.len(), bst.len());
    assert!(pairs.windows(2).all(|w| w[0].0 < w[1].0));
    for (key, value) in &pairs {
        assert_eq!(bst.get(key), Some(*value));
    }
}

#[test]
fn get_mut_after_a_removal_and_an_insertion() {
    let mut bst = BSTMap::<u32, u32>::new();
    for k in [4, 2, 6, 1, 3, 5, 7, 0] {
        bst.insert(k, k);
    }
    for k in [3, 1, 0, 5, 7, 6] {
        assert_eq!(bst.remove(k), Some(k));
    }

    assert_eq!(bst.insert(9, 90), None);
    *bst.get_mut(&9).unwrap() += 1;

    assert_eq!(bst.len(), 3);
    assert_eq!(bst.iter_inorder().collect(), vec![(&2, &2), (&4, &4), (&9, &91)]);
}
