use dsalgo::data_structures::avl_bst::{AVLNode, Avl};
use std::collections::BTreeMap;

fn get_balance_from_outside<K, V>(node: &AVLNode<K, V>) -> i32 {
    let left_height = node.left.as_ref().map(|n| n.height).unwrap_or(0);
    let right_height = node.right.as_ref().map(|n| n.height).unwrap_or(0);
    left_height - right_height
}

fn collect_in_order<K: Clone, V>(node: Option<&AVLNode<K, V>>, out: &mut Vec<K>) {
    if let Some(n) = node {
        collect_in_order(n.left.as_deref(), out);
        out.push(n.key.clone());
        collect_in_order(n.right.as_deref(), out);
    }
}

fn in_order_keys<K: Ord + Clone, V: Clone>(avl: &Avl<K, V>) -> Vec<K> {
    let mut out = Vec::new();
    collect_in_order(avl.root(), &mut out);
    out
}

// Checks the cached heights and the balance of every node; returns the height.
fn check_node<K, V>(node: Option<&AVLNode<K, V>>) -> i32 {
    match node {
        None => 0,
        Some(n) => {
            let l = check_node(n.left.as_deref());
            let r = check_node(n.right.as_deref());
            assert!((l - r).abs() <= 1);
            assert_eq!(n.height, 1 + l.max(r));
            n.height
        }
    }
}

fn count_nodes<K, V>(node: Option<&AVLNode<K, V>>) -> usize {
    match node {
        None => 0,
        Some(n) => 1 + count_nodes(n.left.as_deref()) + count_nodes(n.right.as_deref()),
    }
}

#[test]
fn test_new_avl_is_empty() {
    let avl: Avl<i32, String> = Avl::new();
    assert!(avl.root().is_none());
}

#[test]
fn test_insert_single() {
    let mut avl = Avl::new();
    avl.insert(5, "five");

    assert!(avl.root().is_some());
    assert_eq!(avl.search(&5), Some("five"));
}

#[test]
fn test_insert_and_search() {
    let mut avl = Avl::new();
    avl.insert(5, "five");
    avl.insert(3, "three");
    avl.insert(7, "seven");

    assert_eq!(avl.search(&5), Some("five"));
    assert_eq!(avl.search(&3), Some("three"));
    assert_eq!(avl.search(&7), Some("seven"));
    assert_eq!(avl.search(&10), None);
}

#[test]
fn test_insert_updates_existing() {
    let mut avl = Avl::new();
    avl.insert(5, "five");
    avl.insert(5, "FIVE");

    assert_eq!(avl.search(&5), Some("FIVE"));
}

#[test]
fn test_right_rotation_ll_case() {
    let mut avl = Avl::new();
    avl.insert(3, "three");
    avl.insert(2, "two");
    avl.insert(1, "one"); // Triggers LL rotation

    // Root should be 2 after rotation
    let root = avl.root().unwrap();
    assert_eq!(root.key, 2);

    // All values should still be searchable
    assert_eq!(avl.search(&1), Some("one"));
    assert_eq!(avl.search(&2), Some("two"));
    assert_eq!(avl.search(&3), Some("three"));
}

#[test]
fn test_left_rotation_rr_case() {
    let mut avl = Avl::new();
    avl.insert(1, "one");
    avl.insert(2, "two");
    avl.insert(3, "three"); // Triggers RR rotation

    // Root should be 2 after rotation
    let root = avl.root().unwrap();
    assert_eq!(root.key, 2);

    assert_eq!(avl.search(&1), Some("one"));
    assert_eq!(avl.search(&2), Some("two"));
    assert_eq!(avl.search(&3), Some("three"));
}

#[test]
fn test_left_right_rotation_lr_case() {
    let mut avl = Avl::new();
    avl.insert(3, "three");
    avl.insert(1, "one");
    avl.insert(2, "two"); // Triggers LR rotation

    // Root should be 2 after rotation
    let root = avl.root().unwrap();
    assert_eq!(root.key, 2);

    assert_eq!(avl.search(&1), Some("one"));
    assert_eq!(avl.search(&2), Some("two"));
    assert_eq!(avl.search(&3), Some("three"));
}

#[test]
fn test_right_left_rotation_rl_case() {
    let mut avl = Avl::new();
    avl.insert(1, "one");
    avl.insert(3, "three");
    avl.insert(2, "two"); // Triggers RL rotation

    // Root should be 2 after rotation
    let root = avl.root().unwrap();
    assert_eq!(root.key, 2);

    assert_eq!(avl.search(&1), Some("one"));
    assert_eq!(avl.search(&2), Some("two"));
    assert_eq!(avl.search(&3), Some("three"));
}

#[test]
fn test_sorted_insert_stays_balanced() {
    let mut avl = Avl::new();

    // Insert 1-10 in order (worst case for BST)
    for i in 1..=10 {
        avl.insert(i, i * 10);
    }

    // Check all values are findable
    for i in 1..=10 {
        assert_eq!(avl.search(&i), Some(i * 10));
    }

    // Height should be log(n), not n
    // For 10 nodes, height should be ~4, not 10
    let root = avl.root().unwrap();
    assert!(root.height <= 5); // Allow some slack
}

#[test]
fn test_reverse_sorted_insert_stays_balanced() {
    let mut avl = Avl::new();

    // Insert 10-1 in reverse order
    for i in (1..=10).rev() {
        avl.insert(i, i * 10);
    }

    for i in 1..=10 {
        assert_eq!(avl.search(&i), Some(i * 10));
    }

    let root = avl.root().unwrap();
    assert!(root.height <= 5);
}

#[test]
fn avl_bst_test_delete_leaf() {
    let mut avl = Avl::new();
    avl.insert(5, "five");
    avl.insert(3, "three");
    avl.insert(7, "seven");

    avl.delete(&3);

    assert_eq!(avl.search(&3), None);
    assert_eq!(avl.search(&5), Some("five"));
    assert_eq!(avl.search(&7), Some("seven"));
}

#[test]
fn test_delete_node_with_one_child() {
    let mut avl = Avl::new();
    avl.insert(5, "five");
    avl.insert(3, "three");
    avl.insert(7, "seven");
    avl.insert(6, "six");

    avl.delete(&7); // 7 has only left child (6)

    assert_eq!(avl.search(&7), None);
    assert_eq!(avl.search(&6), Some("six"));
}

#[test]
fn avl_bst_test_delete_node_with_two_children() {
    let mut avl = Avl::new();
    for i in 1..=7 {
        avl.insert(i, i * 10);
    }

    avl.delete(&4); // Node with two children

    assert_eq!(avl.search(&4), None);
    // All other nodes should still exist
    for i in [1, 2, 3, 5, 6, 7] {
        assert_eq!(avl.search(&i), Some(i * 10));
    }
}

#[test]
fn test_delete_root() {
    let mut avl = Avl::new();
    avl.insert(5, "five");
    avl.insert(3, "three");
    avl.insert(7, "seven");

    avl.delete(&5);

    assert_eq!(avl.search(&5), None);
    assert_eq!(avl.search(&3), Some("three"));
    assert_eq!(avl.search(&7), Some("seven"));
}

#[test]
fn avl_bst_test_delete_all_nodes() {
    let mut avl = Avl::new();
    for i in 1..=5 {
        avl.insert(i, i * 10);
    }

    for i in 1..=5 {
        avl.delete(&i);
    }

    for i in 1..=5 {
        assert_eq!(avl.search(&i), None);
    }
}

#[test]
fn avl_bst_test_delete_nonexistent() {
    let mut avl = Avl::new();
    avl.insert(5, "five");

    avl.delete(&10); // Doesn't exist

    // Tree should be unchanged
    assert_eq!(avl.search(&5), Some("five"));
}

#[test]
fn test_delete_maintains_balance() {
    let mut avl = Avl::new();

    for i in 1..=10 {
        avl.insert(i, i * 10);
    }

    // Delete several nodes
    avl.delete(&1);
    avl.delete(&2);
    avl.delete(&3);

    // Tree should still be balanced
    let root = avl.root().unwrap();
    let balance = get_balance_from_outside(root);
    assert!(balance >= -1 && balance <= 1);
}

#[test]
fn test_insert_delete_insert() {
    let mut avl = Avl::new();

    avl.insert(5, "five");
    avl.delete(&5);
    avl.insert(5, "FIVE");

    assert_eq!(avl.search(&5), Some("FIVE"));
}

#[test]
fn avl_bst_test_large_tree() {
    let mut avl = Avl::new();

    // Insert 100 elements
    for i in 0..100 {
        avl.insert(i, i * 2);
    }

    // All should be searchable
    for i in 0..100 {
        assert_eq!(avl.search(&i), Some(i * 2));
    }

    // Height should be ~log2(100) ≈ 7
    let root = avl.root().unwrap();
    assert!(root.height <= 10);
}

#[test]
fn test_string_keys() {
    let mut avl = Avl::new();

    avl.insert("dog".to_string(), 1);
    avl.insert("cat".to_string(), 2);
    avl.insert("zebra".to_string(), 3);
    avl.insert("ant".to_string(), 4);

    assert_eq!(avl.search(&"dog".to_string()), Some(1));
    assert_eq!(avl.search(&"cat".to_string()), Some(2));

    avl.delete(&"cat".to_string());
    assert_eq!(avl.search(&"cat".to_string()), None);
}

#[test]
fn test_random_operations() {
    let mut avl = Avl::new();

    avl.insert(50, "fifty");
    avl.insert(25, "twenty-five");
    avl.delete(&50);
    avl.insert(75, "seventy-five");
    avl.insert(10, "ten");
    avl.delete(&25);
    avl.insert(30, "thirty");

    assert_eq!(avl.search(&50), None);
    assert_eq!(avl.search(&25), None);
    assert_eq!(avl.search(&75), Some("seventy-five"));
    assert_eq!(avl.search(&10), Some("ten"));
    assert_eq!(avl.search(&30), Some("thirty"));
}

#[test]
fn avl_in_order_walk_ascends_after_mixed_operations() {
    let mut avl = Avl::new();
    for k in [41, 7, 93, 15, 2, 68, 30, 77, 54, 8, 99, 1, 23] {
        avl.insert(k, k * 3);
        check_node(avl.root());
    }
    for k in [7, 93, 1, 500, 54] {
        avl.delete(&k);
        check_node(avl.root());
    }
    assert_eq!(in_order_keys(&avl), vec![2, 8, 15, 23, 30, 41, 68, 77, 99]);
}

#[test]
fn avl_every_node_is_balanced_and_caches_its_height() {
    let mut avl = Avl::new();
    for k in 0..200 {
        avl.insert((k * 37) % 211, k);
        check_node(avl.root());
    }
    for k in 0..200 {
        if k % 3 != 0 {
            avl.delete(&((k * 37) % 211));
            check_node(avl.root());
        }
    }
    let keys = in_order_keys(&avl);
    assert!(keys.windows(2).all(|w| w[0] < w[1]));
    assert_eq!(keys.len(), 67);
}

#[test]
fn avl_height_after_one_hundred_sequential_inserts() {
    let mut avl = Avl::new();
    for i in 1..=100 {
        avl.insert(i, ());
    }
    // 100 nodes: fib(9 + 2) - 1 = 88 <= 100 < 143 = fib(10 + 2) - 1
    assert!(avl.root().unwrap().height <= 10);
    assert_eq!(avl.root().unwrap().height, 7);
    assert_eq!(check_node(avl.root()), 7);
}

#[test]
fn avl_height_is_one_for_a_single_node_and_two_for_two() {
    let mut avl = Avl::new();
    avl.insert(1, 'a');
    assert_eq!(avl.root().unwrap().height, 1);
    avl.insert(2, 'b');
    assert_eq!(avl.root().unwrap().height, 2);
    assert_eq!(avl.root().unwrap().right.as_ref().unwrap().height, 1);
}

#[test]
fn avl_round_trip() {
    let mut avl = Avl::new();
    avl.insert(10, "ten");
    assert_eq!(avl.search(&10), Some("ten"));
    assert!(avl.contains(&10));
    avl.delete(&10);
    assert_eq!(avl.search(&10), None);
    assert!(!avl.contains(&10));
    assert!(avl.is_empty());
}

#[test]
fn avl_reinsert_keeps_one_node_with_the_latest_value() {
    let mut avl = Avl::new();
    for k in [4, 2, 6, 1, 3, 5, 7] {
        avl.insert(k, "old");
    }
    let shape_before = in_order_keys(&avl);
    let root_before = avl.root().unwrap().key;
    avl.insert(3, "new");
    assert_eq!(count_nodes(avl.root()), 7);
    assert_eq!(in_order_keys(&avl), shape_before);
    assert_eq!(avl.root().unwrap().key, root_before);
    assert_eq!(avl.search(&3), Some("new"));
    assert_eq!(avl.search(&4), Some("old"));
}

#[test]
fn avl_delete_with_two_children_promotes_the_successor() {
    let mut avl = Avl::new();
    for i in 1..=7 {
        avl.insert(i, i * 10);
    }
    assert_eq!(avl.root().unwrap().key, 4);
    avl.delete(&4);
    // 5 is the smallest key of the right subtree of 4
    assert_eq!(avl.root().unwrap().key, 5);
    assert_eq!(avl.root().unwrap().value, 50);
    assert_eq!(in_order_keys(&avl), vec![1, 2, 3, 5, 6, 7]);
    check_node(avl.root());
}

#[test]
fn avl_delete_all_in_any_order_leaves_the_tree_empty() {
    let orders: [[i32; 5]; 4] =
        [[1, 2, 3, 4, 5], [5, 4, 3, 2, 1], [3, 1, 5, 2, 4], [2, 4, 1, 5, 3]];
    for order in orders {
        let mut avl = Avl::new();
        for i in 1..=5 {
            avl.insert(i, i * 10);
        }
        for k in order {
            avl.delete(&k);
            check_node(avl.root());
        }
        assert!(avl.is_empty());
        assert!(avl.root().is_none());
        for i in 1..=5 {
            assert_eq!(avl.search(&i), None);
        }
    }
}

#[test]
fn avl_delete_of_a_missing_key_changes_nothing() {
    let mut avl = Avl::new();
    for k in [8, 4, 12, 2, 6] {
        avl.insert(k, k);
    }
    let before = in_order_keys(&avl);
    let root = avl.root().unwrap().key;
    avl.delete(&5);
    assert_eq!(in_order_keys(&avl), before);
    assert_eq!(avl.root().unwrap().key, root);

    let mut empty: Avl<i32, i32> = Avl::new();
    empty.delete(&1);
    assert!(empty.is_empty());
}

#[test]
fn avl_delete_rebalances_with_single_and_double_rotations() {
    // Deleting 1 leaves the root 2 right-heavy with a balanced right child:
    // a single left rotation that keeps the height.
    let mut avl = Avl::new();
    for k in [2, 1, 4, 3, 5] {
        avl.insert(k, ());
    }
    avl.delete(&1);
    assert_eq!(avl.root().unwrap().key, 4);
    assert_eq!(avl.root().unwrap().height, 3);
    check_node(avl.root());

    // Deleting 4 leaves the root 3 left-heavy with a right-leaning left
    // child: a left-right rotation.
    let mut avl = Avl::new();
    for k in [3, 1, 4, 2] {
        avl.insert(k, ());
    }
    avl.delete(&4);
    assert_eq!(avl.root().unwrap().key, 2);
    assert_eq!(avl.root().unwrap().height, 2);
    check_node(avl.root());
}

#[test]
fn avl_default_is_empty() {
    let avl: Avl<u8, u8> = Avl::default();
    assert!(avl.is_empty());
    assert_eq!(avl.search(&0), None);
}

fn permutations(items: &mut Vec<i32>, from: usize, out: &mut Vec<Vec<i32>>) {
    if from == items.len() {
        out.push(items.clone());
        return;
    }
    for i in from..items.len() {
        items.swap(from, i);
        permutations(items, from + 1, out);
        items.swap(from, i);
    }
}

#[test]
fn avl_delete_all_in_every_order_of_five_keys() {
    let mut orders = Vec::new();
    permutations(&mut vec![1, 2, 3, 4, 5], 0, &mut orders);
    assert_eq!(orders.len(), 120);
    for order in orders {
        let mut avl = Avl::new();
        for i in 1..=5 {
            avl.insert(i, i * 10);
        }
        for (done, k) in order.iter().enumerate() {
            avl.delete(k);
            check_node(avl.root());
            assert_eq!(count_nodes(avl.root()), 4 - done);
            assert_eq!(avl.search(k), None);
        }
        assert!(avl.is_empty());
    }
}

#[test]
fn avl_insert_in_every_order_of_five_keys_keeps_the_invariant() {
    let mut orders = Vec::new();
    permutations(&mut vec![1, 2, 3, 4, 5], 0, &mut orders);
    for order in orders {
        let mut avl = Avl::new();
        for k in &order {
            avl.insert(*k, ());
            check_node(avl.root());
        }
        assert_eq!(in_order_keys(&avl), vec![1, 2, 3, 4, 5]);
        assert_eq!(avl.root().unwrap().height, 3);
    }
}

#[test]
fn avl_agrees_with_a_sorted_map_on_many_changes() {
    let mut avl = Avl::new();
    let mut model = BTreeMap::new();
    let mut state: u64 = 0x2545F4914F6CDD1D;
    for round in 0..4000u32 {
        state ^= state << 13;
        state ^= state >> 7;
        state ^= state << 17;
        let key = (state % 257) as i32;
        if state % 3 == 0 {
            avl.delete(&key);
            model.remove(&key);
        } else {
            avl.insert(key, round);
            model.insert(key, round);
        }
        if round % 97 == 0 {
            let height = check_node(avl.root());
            let nodes = count_nodes(avl.root());
            assert_eq!(nodes, model.len());
            // a tree of height h has at least fib(h + 2) - 1 nodes
            let (mut a, mut b) = (0usize, 1usize);
            for _ in 0..height + 2 {
                (a, b) = (b, a + b);
            }
            assert!(a <= nodes + 1);
            assert_eq!(in_order_keys(&avl), model.keys().copied().collect::<Vec<_>>());
        }
    }
    for key in 0..257 {
        assert_eq!(avl.search(&key), model.get(&key).copied());
        assert_eq!(avl.contains(&key), model.contains_key(&key));
    }
}
