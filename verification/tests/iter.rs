use rbst328::{
    BSTMap, BSTMapByrefBreadthfirstIter, BSTMapByrefInorderIter, BSTMapByrefInorderIterMut,
    BSTMapConsumingInorderIter,
};

const SERIES_OF_INSERTIONS: [(u32, &str); 5] = [
    (13, "hello"),
    (15, "bye"),
    (7, "test"),
    (2, "test2"),
    (8, "high number"),
];

const SERIES_OF_CHECKS: [(u32, &str); 4] =
    [(13, "hello"), (15, "bye"), (2, "test2"), (8, "high number")];

fn sample() -> BSTMap<u32, String> {
    let mut bst = BSTMap::<u32, String>::new();
    for (k, v) in &SERIES_OF_INSERTIONS {
        bst.insert(*k, v.to_string());
    }
    bst
}

fn breadthfirst_keys(bst: &BSTMap<u32, String>) -> Vec<u32> {
    bst.iter_breadthfirst().collect().iter().map(|(k, _)| **k).collect()
}

fn of_keys(keys: &[u32]) -> BSTMap<u32, String> {
    let mut bst = BSTMap::<u32, String>::new();
    for k in keys {
        bst.insert(*k, k.to_string());
    }
    bst
}

#[test]
fn byref_inorder_iter_is_empty_from_empty_map() {
    let bst = BSTMap::<u32, String>::new();

    assert_eq!(bst.len(), 0);
    assert!(bst.is_empty());

    let mut iter = BSTMapByrefInorderIter::new(&bst);
    let next_item = iter.next();

    assert!(next_item.is_none());
}

#[test]
fn byref_inorder_iter_contains_all_items() {
    let mut bst = sample();

    bst.remove(7); // remove non-leaf node

    let collected: Vec<(&u32, &String)> = BSTMapByrefInorderIter::new(&bst).collect();

    assert_eq!(collected.len(), bst.len());

    for (k, v) in &SERIES_OF_CHECKS {
        assert!(collected.iter().any(|(k_iter, v_iter)| *k == **k_iter && *v == **v_iter));
    }
}

#[test]
fn byref_inorder_iter_is_sorted_by_key() {
    let bst = sample();

    let collected: Vec<_> =
        BSTMapByrefInorderIter::new(&bst).collect().iter().map(|(k, _)| **k).collect();

    assert!(collected.is_sorted());
}

#[test]
fn byref_inorder_iter_mut_is_empty_from_empty_map() {
    let mut bst = BSTMap::<u32, String>::new();

    assert_eq!(bst.len(), 0);
    assert!(bst.is_empty());

    let mut iter = BSTMapByrefInorderIterMut::new(&mut bst);
    let next_item = iter.next();

    assert!(next_item.is_none());
}

#[test]
fn byref_inorder_iter_mut_contains_all_items() {
    let mut bst = sample();

    bst.remove(7); // remove non-leaf node

    let bst_len = bst.len();

    let collected: Vec<(&u32, &mut String)> =
        BSTMapByrefInorderIterMut::new(&mut bst).collect();

    assert_eq!(collected.len(), bst_len);

    for (k, v) in &SERIES_OF_CHECKS {
        assert!(collected.iter().any(|(k_iter, v_iter)| *k == **k_iter && *v == **v_iter));
    }
}

#[test]
fn byref_inorder_iter_mut_is_sorted_by_key() {
    let mut bst = sample();

    let collected: Vec<_> = BSTMapByrefInorderIterMut::new(&mut bst).collect()
        .iter()
        .map(|(k, _)| **k)
        .collect();

    assert!(collected.is_sorted());
}

#[test]
fn byref_inorder_iter_mut_modifies_all_entries() {
    let mut bst = sample();

    let mut iter = BSTMapByrefInorderIterMut::new(&mut bst);

    while let Some((_, v)) = iter.next() {
        v.insert_str(0, "AAA");
    }

    let mut check = bst.iter();
    let mut seen = 0;
    while let Some((_, v)) = check.next() {
        assert!(v.starts_with("AAA"));
        seen += 1;
    }
    assert_eq!(seen, SERIES_OF_INSERTIONS.len());
}

#[test]
fn consuming_inorder_iter_is_empty_from_empty_map() {
    let bst = BSTMap::<u32, String>::new();

    assert_eq!(bst.len(), 0);
    assert!(bst.is_empty());

    let mut iter = BSTMapConsumingInorderIter::new(bst);
    let next_item = iter.next();

    assert!(next_item.is_none());
}

#[test]
fn consuming_inorder_iter_contains_all_items() {
    let mut bst = sample();

    bst.remove(7); // remove non-leaf node

    let saved_len = bst.len();

    let collected: Vec<(u32, String)> = BSTMapConsumingInorderIter::new(bst).collect();

    assert_eq!(collected.len(), saved_len);

    for (k, v) in &SERIES_OF_CHECKS {
        assert!(collected.iter().any(|(k_iter, v_iter)| *k == *k_iter && *v == *v_iter));
    }
}

#[test]
fn consuming_inorder_iter_is_sorted_by_key() {
    let bst = sample();

    let collected: Vec<_> = BSTMapConsumingInorderIter::new(bst).collect()
        .into_iter()
        .map(|(k, _)| k)
        .collect();

    assert!(collected.is_sorted());
}

#[test]
fn byref_breadthfirst_iter_is_empty_from_empty_map() {
    let bst = BSTMap::<u32, String>::new();

    assert_eq!(bst.len(), 0);
    assert!(bst.is_empty());

    let mut iter = BSTMapByrefBreadthfirstIter::new(&bst);
    let next_item = iter.next();

    assert!(next_item.is_none());
}

#[test]
fn byref_breadthfirst_iter_contains_all_items() {
    let mut bst = sample();

    bst.remove(7); // remove non-leaf node

    let collected: Vec<(&u32, &String)> =
        BSTMapByrefBreadthfirstIter::new(&bst).collect();

    assert_eq!(collected.len(), bst.len());

    for (k, v) in &SERIES_OF_CHECKS {
        assert!(collected.iter().any(|(k_iter, v_iter)| *k == **k_iter && *v == **v_iter));
    }
}

#[test]
fn inorder_yields_exact_pairs_in_key_order() {
    let bst = sample();

    let collected: Vec<(u32, String)> =
        bst.iter_inorder().collect().iter().map(|(k, v)| (**k, (*v).clone())).collect();

    assert_eq!(
        collected,
        vec![
            (2, "test2".to_string()),
            (7, "test".to_string()),
            (8, "high number".to_string()),
            (13, "hello".to_string()),
            (15, "bye".to_string()),
        ]
    );
}

#[test]
fn inorder_after_the_last_pair_stays_at_the_end() {
    let bst = of_keys(&[1]);
    let mut iter = bst.iter();

    assert_eq!(iter.next(), Some((&1, &"1".to_string())));
    assert_eq!(iter.next(), None);
    assert_eq!(iter.next(), None);
}

#[test]
fn breadthfirst_yields_the_root_first_and_each_level_from_the_left() {
    //        13
    //       /  \
    //      7    15
    //     / \
    //    2   8
    let bst = sample();

    assert_eq!(breadthfirst_keys(&bst), vec![13, 7, 15, 2, 8]);
}

#[test]
fn breadthfirst_has_as_many_pairs_as_the_map() {
    let bst = of_keys(&[50, 20, 70, 10, 30, 60, 80, 5, 25, 65]);

    assert_eq!(breadthfirst_keys(&bst).len(), bst.len());
    assert_eq!(breadthfirst_keys(&bst), vec![50, 20, 70, 10, 30, 60, 80, 5, 25, 65]);
}

#[test]
fn rising_keys_are_rotated_left() {
    assert_eq!(breadthfirst_keys(&of_keys(&[1, 2, 3])), vec![2, 1, 3]);
}

#[test]
fn falling_keys_are_rotated_right() {
    assert_eq!(breadthfirst_keys(&of_keys(&[3, 2, 1])), vec![2, 1, 3]);
}

#[test]
fn left_right_case_is_rotated_twice() {
    assert_eq!(breadthfirst_keys(&of_keys(&[3, 1, 2])), vec![2, 1, 3]);
}

#[test]
fn right_left_case_is_rotated_twice() {
    assert_eq!(breadthfirst_keys(&of_keys(&[1, 3, 2])), vec![2, 1, 3]);
}

#[test]
fn fifteen_rising_keys_make_a_full_tree() {
    let keys: Vec<u32> = (1..=15).collect();

    assert_eq!(
        breadthfirst_keys(&of_keys(&keys)),
        vec![8, 4, 12, 2, 6, 10, 14, 1, 3, 5, 7, 9, 11, 13, 15]
    );
}

#[test]
fn removal_replaces_a_node_by_its_successor() {
    //        10                      10
    //       /  \                    /  \
    //      5    17        =>       5    19
    //     /    /  \               /    /  \
    //    2   15    20            2   15    20
    //       /     /  \              /        \
    //     13    19    21           13         21
    let mut bst = of_keys(&[10, 5, 15, 2, 13, 20, 17, 21, 19]);
    assert_eq!(breadthfirst_keys(&bst), vec![10, 5, 17, 2, 15, 20, 13, 19, 21]);

    assert_eq!(bst.remove(17), Some("17".to_string()));

    assert_eq!(breadthfirst_keys(&bst), vec![10, 5, 19, 2, 15, 20, 13, 21]);
}

#[test]
fn removal_hands_the_left_subtree_to_the_right_child() {
    let mut bst = of_keys(&[10, 5, 15, 2, 13, 20, 21]);

    assert_eq!(bst.remove(15), Some("15".to_string()));

    assert_eq!(breadthfirst_keys(&bst), vec![10, 5, 20, 2, 13, 21]);
}

#[test]
fn iter_mut_changes_land_in_the_map() {
    let mut bst = of_keys(&[4, 2, 6, 1, 3]);

    let mut iter = bst.iter_mut();
    let mut seen = Vec::new();
    while let Some((k, v)) = iter.next() {
        seen.push(*k);
        v.push('!');
    }

    assert_eq!(seen, vec![1, 2, 3, 4, 6]);
    for k in [1u32, 2, 3, 4, 6] {
        assert_eq!(bst.get(&k), Some(&format!("{}!", k)));
    }
    assert_eq!(bst.len(), 5);
}

#[test]
fn round_trip_gives_the_last_written_pairs_sorted() {
    let mut bst = BSTMap::<u32, String>::new();
    let writes = [(5, "a"), (1, "b"), (9, "c"), (5, "d"), (3, "e"), (1, "f"), (7, "g")];
    for (k, v) in &writes {
        bst.insert(*k, v.to_string());
    }

    let collected = bst.into_iter_inorder().collect();

    assert_eq!(
        collected,
        vec![
            (1, "f".to_string()),
            (3, "e".to_string()),
            (5, "d".to_string()),
            (7, "g".to_string()),
            (9, "c".to_string()),
        ]
    );
}

#[test]
fn inorder_is_sorted_after_many_writes_and_removals() {
    let mut bst = BSTMap::<u32, String>::new();
    let mut k: u32 = 7;
    for _ in 0..500 {
        k = (k * 37 + 11) % 1009;
        bst.insert(k, k.to_string());
    }
    let before = bst.len();
    let mut removed = 0;
    for gone in (0..1009).step_by(3) {
        if bst.remove(gone).is_some() {
            removed += 1;
        }
    }

    let keys: Vec<u32> = bst.iter().collect().iter().map(|(k, _)| **k).collect();

    assert_eq!(keys.len(), bst.len());
    assert_eq!(bst.len(), before - removed);
    assert!(keys.windows(2).all(|w| w[0] < w[1]));
    assert!(keys.iter().all(|k| k % 3 != 0));
}

#[test]
fn collected_references_write_into_the_map() {
    let mut bst = sample();

    let items = bst.iter_mut().collect();
    for (_, v) in items {
        v.insert_str(0, "AAA");
    }

    assert_eq!(bst.len(), 5);
    assert_eq!(bst.get(&13), Some(&"AAAhello".to_string()));
    assert_eq!(bst.get(&15), Some(&"AAAbye".to_string()));
    assert_eq!(bst.get(&7), Some(&"AAAtest".to_string()));
    assert_eq!(bst.get(&2), Some(&"AAAtest2".to_string()));
    assert_eq!(bst.get(&8), Some(&"AAAhigh number".to_string()));
    assert_eq!(breadthfirst_keys(&bst), vec![13, 7, 15, 2, 8]);
}

#[test]
fn a_walk_that_stops_early_leaves_the_rest_as_it_was() {
    let mut bst = sample();

    let mut iter = bst.iter_mut();
    if let Some((k, v)) = iter.next() {
        assert_eq!(*k, 2);
        v.push('!');
    }

    assert_eq!(bst.get(&2), Some(&"test2!".to_string()));
    assert_eq!(bst.get(&7), Some(&"test".to_string()));
    assert_eq!(bst.get(&13), Some(&"hello".to_string()));
    assert_eq!(bst.len(), 5);
}
