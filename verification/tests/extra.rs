use std::collections::HashMap;

use dsalgo::algoritms::compression::hufman;
use dsalgo::algoritms::compression::huffman::{
    build_huffman_tree, count_frequencies, decode, encode, generate_codes, generate_codes_helper,
    HeapNode, NodeHeap,
};
use dsalgo::algoritms::recursive_stuff::{
    count_recursive, max_value_recursive, max_value_recursive_pattern, sum_recursive,
    sum_recursive_match,
};
use dsalgo::algoritms::search::binary_search::binary_search;
use dsalgo::algoritms::sorting::bubble_sort::bubble_sort;
use dsalgo::algoritms::sorting::quick_sort::quick_sort;
use dsalgo::algoritms::sorting::selection_sort::{find_smallest, selection_sort};
use dsalgo::data_structures::b_tree::{BTree, BTreeNode};
use dsalgo::data_structures::bst::{Bst, BstNode};
use dsalgo::data_structures::graphs::{MoGraph, Node};
use dsalgo::data_structures::hash_tables::MoMap;
use dsalgo::data_structures::hash_tables_generic::MoMap as KeyedMap;
use dsalgo::data_structures::tree::TreeNode;
use dsalgo::order::{is_eq, is_gt, is_lt, is_same};
use dsalgo::slices::clone_list;

fn bst_in_order<K: Clone, V>(node: Option<&BstNode<K, V>>, out: &mut Vec<K>) {
    if let Some(n) = node {
        bst_in_order(n.left.as_deref(), out);
        out.push(n.key.clone());
        bst_in_order(n.right.as_deref(), out);
    }
}

fn node(name: &str, is_seller: bool) -> Node {
    Node { name: name.to_string(), is_seller }
}

fn leaf(keys: Vec<i32>) -> Box<BTreeNode<i32, i32>> {
    let values = keys.iter().map(|k| k * 100).collect();
    Box::new(BTreeNode { keys, values, children: None })
}

// ---- comparisons ----

#[test]
fn comparisons_agree_with_the_order_of_the_keys() {
    assert!(is_lt(&1, &2));
    assert!(!is_lt(&2, &2));
    assert!(is_gt(&3, &2));
    assert!(!is_gt(&2, &3));
    assert!(is_eq(&"a", &"a"));
    assert!(!is_eq(&"a", &"b"));
    assert!(is_same(&(1, 2), &(1, 2)));
    assert!(!is_same(&(1, 2), &(2, 1)));
}

#[test]
fn clone_list_clones_every_element_in_place() {
    let list = vec!["x".to_string(), "y".to_string(), "x".to_string()];
    assert_eq!(clone_list(&list), list);
    let none: Vec<u8> = vec![];
    assert_eq!(clone_list(&none), none);
}

// ---- recursion ----

#[test]
fn sums_reach_the_ends_of_the_range() {
    assert_eq!(sum_recursive(&[i32::MAX, -1, 1]), i32::MAX);
    assert_eq!(sum_recursive_match(&[i32::MIN, 1, -1]), i32::MIN);
    assert_eq!(sum_recursive(&[7]), 7);
    assert_eq!(count_recursive(&[0; 1000]), 1000);
}

#[test]
fn maximum_of_equal_and_of_extreme_numbers() {
    assert_eq!(max_value_recursive(&[3, 3, 3]), 3);
    assert_eq!(max_value_recursive(&[i32::MIN, i32::MAX, 0]), i32::MAX);
    assert_eq!(max_value_recursive_pattern(&[i32::MIN]), i32::MIN);
    assert_eq!(max_value_recursive_pattern(&[5, 9, 9, 1]), 9);
}

// ---- search and sorting ----

#[test]
fn binary_search_in_lists_of_even_and_odd_length() {
    let even = [1, 3, 5, 7];
    for x in even {
        assert_eq!(binary_search(&even, x), Some(x));
    }
    for x in [0, 2, 4, 6, 8] {
        assert_eq!(binary_search(&even, x), None);
    }
    let odd = [-5, 0, 5];
    assert_eq!(binary_search(&odd, -5), Some(-5));
    assert_eq!(binary_search(&odd, 5), Some(5));
    assert_eq!(binary_search(&odd, 1), None);
}

#[test]
fn binary_search_answers_only_with_the_target() {
    // not sorted: the search may miss, but never answers with another number
    let list = [9, 1, 8, 2, 7];
    for x in 0..10 {
        let found = binary_search(&list, x);
        assert!(found.is_none() || found == Some(x));
    }
    assert_eq!(binary_search(&list, 8), Some(8));
}

#[test]
fn sorts_agree_on_one_list() {
    let list = vec![5, -3, 9, 0, -3, 12, 7, 7, 1];
    let expected = vec![-3, -3, 0, 1, 5, 7, 7, 9, 12];
    assert_eq!(bubble_sort(&list), expected);
    assert_eq!(quick_sort(&list), expected);
    assert_eq!(selection_sort(&list), expected);
    let empty: Vec<i32> = vec![];
    assert_eq!(bubble_sort(&empty), empty);
    assert_eq!(selection_sort(&empty), empty);
}

#[test]
fn bubble_sort_sorts_texts_that_are_cloned() {
    let list = vec!["pear".to_string(), "apple".to_string(), "fig".to_string()];
    assert_eq!(bubble_sort(&list), vec!["apple", "fig", "pear"]);
    assert_eq!(list[0], "pear");
}

#[test]
fn find_smallest_of_one_and_of_equal_numbers() {
    assert_eq!(find_smallest(&[4]), 0);
    assert_eq!(find_smallest(&[2, 2, 2]), 0);
    assert_eq!(find_smallest(&[3, -1, -1]), 1);
}

// ---- unbalanced search tree ----

#[test]
fn bst_keeps_its_keys_in_order() {
    let mut bst = Bst::new();
    for k in [50, 30, 70, 20, 40, 60, 80, 30] {
        bst.insert(k, k);
    }
    let mut keys = Vec::new();
    bst_in_order(bst.root.as_deref(), &mut keys);
    assert_eq!(keys, vec![20, 30, 40, 50, 60, 70, 80]);
    bst.delete(&50);
    bst.delete(&20);
    bst.delete(&99);
    let mut keys = Vec::new();
    bst_in_order(bst.root.as_deref(), &mut keys);
    assert_eq!(keys, vec![30, 40, 60, 70, 80]);
    // the successor of 50 took its place
    assert_eq!(bst.root.as_ref().unwrap().key, 60);
}

#[test]
fn bst_does_not_rebalance() {
    let mut bst = Bst::new();
    for k in 1..=4 {
        bst.insert(k, ());
    }
    let root = bst.root.as_ref().unwrap();
    assert_eq!(root.key, 1);
    assert!(root.left.is_none());
    assert_eq!(root.right.as_ref().unwrap().key, 2);
}

#[test]
fn bst_delete_helper_hands_back_what_is_left() {
    let mut bst = Bst::new();
    bst.insert(2, "two");
    bst.insert(1, "one");
    let root = bst.root.take().unwrap();
    let left = Bst::delete_helper(root, &2).unwrap();
    assert_eq!(left.key, 1);
    assert!(Bst::delete_helper(left, &1).is_none());
}

// ---- B-tree ----

#[test]
fn btree_search_in_a_leaf() {
    let mut tree = BTree::new(5);
    assert_eq!(tree.search(&20), None);
    tree.root = Some(Box::new(BTreeNode {
        keys: vec![10, 20, 30],
        values: vec!["ten", "twenty", "thirty"],
        children: None,
    }));
    assert_eq!(tree.search(&20), Some("twenty"));
    assert_eq!(tree.search(&10), Some("ten"));
    assert_eq!(tree.search(&30), Some("thirty"));
    assert_eq!(tree.search(&99), None);
    assert_eq!(tree.search(&5), None);
}

#[test]
fn btree_search_goes_down_to_the_child_between_the_keys() {
    let mut tree = BTree::new(3);
    tree.root = Some(Box::new(BTreeNode {
        keys: vec![10, 20],
        values: vec![1000, 2000],
        children: Some(vec![leaf(vec![1, 5]), leaf(vec![12, 17]), leaf(vec![25])]),
    }));
    assert_eq!(tree.search(&10), Some(1000));
    assert_eq!(tree.search(&1), Some(100));
    assert_eq!(tree.search(&5), Some(500));
    assert_eq!(tree.search(&17), Some(1700));
    assert_eq!(tree.search(&25), Some(2500));
    assert_eq!(tree.search(&11), None);
    assert_eq!(tree.search(&30), None);
}

#[test]
fn btree_search_ends_where_a_child_is_missing() {
    let mut tree = BTree::new(3);
    tree.root = Some(Box::new(BTreeNode {
        keys: vec![10],
        values: vec![1000],
        children: Some(vec![leaf(vec![1])]),
    }));
    assert_eq!(tree.search(&1), Some(100));
    assert_eq!(tree.search(&50), None);
}

// ---- graph ----

#[test]
fn graph_edges_keep_their_order_and_their_doubles() {
    let mut graph = MoGraph::new();
    graph.add_edge("a".to_string(), "c".to_string());
    graph.add_edge("a".to_string(), "b".to_string());
    graph.add_edge("a".to_string(), "c".to_string());
    graph.add_edge("b".to_string(), "a".to_string());
    assert_eq!(graph.neighbors("a").unwrap(), &vec!["c", "b", "c"]);
    assert_eq!(graph.neighbors("b").unwrap(), &vec!["a"]);
    assert!(graph.neighbors("c").is_none());
    assert_eq!(graph.source_count(), 2);
    assert_eq!(graph.node_count(), 0);
}

#[test]
fn graph_search_needs_a_node_at_the_start_only_breadth_first() {
    let mut graph = MoGraph::new();
    graph.add_node(node("goal", true));
    graph.add_edge("nowhere".to_string(), "goal".to_string());
    // no node is called "nowhere"
    assert!(graph.bfs("nowhere", &|n| n.is_seller).is_none());
    assert_eq!(graph.dfs("nowhere", &|n| n.is_seller).unwrap().name, "goal");
}

#[test]
fn graph_search_walks_over_names_without_nodes() {
    let mut graph = MoGraph::new();
    graph.add_node(node("a", false));
    graph.add_node(node("c", true));
    graph.add_edge("a".to_string(), "b".to_string());
    graph.add_edge("b".to_string(), "c".to_string());
    assert_eq!(graph.bfs("a", &|n| n.is_seller).unwrap().name, "c");
    assert_eq!(graph.dfs("a", &|n| n.is_seller).unwrap().name, "c");
}

#[test]
fn graph_search_ends_on_a_loop_at_the_start() {
    let mut graph = MoGraph::new();
    graph.add_node(node("a", false));
    graph.add_edge("a".to_string(), "a".to_string());
    assert!(graph.bfs("a", &|n| n.is_seller).is_none());
    assert!(graph.dfs("a", &|n| n.is_seller).is_none());
    assert_eq!(graph.bfs("a", &|n| n.name == "a").unwrap().name, "a");
}

#[test]
fn graph_add_node_replaces_and_keeps_the_others() {
    let mut graph = MoGraph::new();
    graph.add_node(node("a", false));
    graph.add_node(node("b", false));
    graph.add_node(node("a", true));
    assert_eq!(graph.node_count(), 2);
    assert!(graph.get_node("a").unwrap().is_seller);
    assert!(!graph.get_node("b").unwrap().is_seller);
    assert!(graph.get_node("").is_none());
}

// ---- hash maps ----

#[test]
fn string_map_puts_a_key_into_the_bucket_of_its_hash() {
    // "ab": (97 * 31 + 98) = 3105, and 3105 % 8 = 1
    let mut map = MoMap::new();
    map.insert("ab".to_string(), 1);
    assert_eq!(map.bucket_len(1), 1);
    assert_eq!(map.bucket(1)[0], ("ab".to_string(), 1));
    // "": hash 0, bucket 0
    map.insert("".to_string(), 2);
    assert_eq!(map.bucket(0)[0], ("".to_string(), 2));
    // "i": 105 % 8 = 1, behind "ab"
    map.insert("i".to_string(), 3);
    assert_eq!(map.bucket(1)[1], ("i".to_string(), 3));
    assert_eq!(map.bucket_item_count(), 3);
}

#[test]
fn string_map_hash_wraps_on_long_keys() {
    let mut map = MoMap::new();
    let key = "z".repeat(40);
    // the value of the hash in the arithmetic of usize
    let mut hash: usize = 0;
    for c in key.chars() {
        hash = hash.wrapping_mul(31).wrapping_add(c as usize);
    }
    map.insert(key.clone(), 7);
    assert_eq!(map.bucket(hash % 8)[0].0, key);
    assert_eq!(map.get(&key), Some(&7));
}

#[test]
fn string_map_doubles_at_seven_tenths() {
    let mut map = MoMap::new();
    for i in 0..5 {
        map.insert(format!("k{}", i), i);
    }
    // 5 of 8: below seven tenths
    map.insert("k5".to_string(), 5);
    assert_eq!(map.bucket_count(), 8);
    // 6 of 8: seven tenths reached, the next insertion doubles the table first
    map.insert("k5".to_string(), 50);
    assert_eq!(map.bucket_count(), 16);
    assert_eq!(map.bucket_item_count(), 6);
    // 12 of 16 at the sixth insertion after that
    for i in 6..12 {
        map.insert(format!("k{}", i), i);
        assert_eq!(map.bucket_count(), 16);
    }
    map.insert("k12".to_string(), 12);
    assert_eq!(map.bucket_count(), 32);
    for i in 6..13 {
        assert_eq!(map.get(&format!("k{}", i)), Some(&i));
    }
    assert_eq!(map.get("k5"), Some(&50));
}

#[test]
fn string_map_remove_moves_the_last_entry_of_the_bucket() {
    let mut map = MoMap::new();
    // 'a' = 97, 'i' = 105, 'q' = 113: all in bucket 1
    map.insert("a".to_string(), 1);
    map.insert("i".to_string(), 2);
    map.insert("q".to_string(), 3);
    assert_eq!(map.remove("a"), Some(1));
    assert_eq!(map.bucket(1)[0].0, "q");
    assert_eq!(map.bucket(1)[1].0, "i");
    assert_eq!(map.remove("a"), None);
    assert_eq!(map.bucket_item_count(), 2);
}

#[test]
fn keyed_map_works_on_a_given_bucket() {
    let mut map: KeyedMap<u32, &str> = KeyedMap::new();
    assert_eq!(map.insert_at(3, 10, "ten"), None);
    assert_eq!(map.insert_at(3, 11, "eleven"), None);
    assert_eq!(map.insert_at(3, 10, "TEN"), Some("ten"));
    assert_eq!(map.bucket(3), &vec![(10, "TEN"), (11, "eleven")]);
    assert_eq!(map.get_at(3, &11), Some(&"eleven"));
    assert_eq!(map.get_at(4, &11), None);
    assert_eq!(map.remove_at(4, &10), None);
    assert_eq!(map.remove_at(3, &10), Some("TEN"));
    assert_eq!(map.bucket(3), &vec![(11, "eleven")]);
    assert_eq!(map.bucket_item_count(), 1);
    assert_eq!(map.bucket_len(3), 1);
}

#[test]
fn keyed_map_doubles_at_seven_tenths() {
    let mut map = KeyedMap::new();
    for i in 0..6 {
        map.insert(i, i);
    }
    assert_eq!(map.bucket_count(), 8);
    map.insert(6, 6);
    assert_eq!(map.bucket_count(), 16);
    let held: usize = (0..16).map(|b| map.bucket_len(b)).sum();
    assert_eq!(held, 7);
    for i in 0..7 {
        assert_eq!(map.get(&i), Some(&i));
    }
}

// ---- Huffman ----

#[test]
fn frequencies_by_code_point() {
    let counts = count_frequencies("abracadabra");
    assert_eq!(counts.len(), 5);
    assert_eq!(counts[&('a' as u32)], 5);
    assert_eq!(counts[&('b' as u32)], 2);
    assert_eq!(counts[&('r' as u32)], 2);
    assert_eq!(counts[&('c' as u32)], 1);
    assert_eq!(counts[&('d' as u32)], 1);
    let small = hufman::count_frequencies("aab🦀");
    assert_eq!(small[&('a' as u32)], 2);
    assert_eq!(small[&0x1F980], 1);
    assert_eq!(small.len(), 3);
}

#[test]
fn second_heap_node_orders_by_falling_frequency() {
    let low = hufman::HeapNode { node: TreeNode::new_leaf('a', 1) };
    let high = hufman::HeapNode { node: TreeNode::new_leaf('b', 9) };
    let also_low = hufman::HeapNode { node: TreeNode::new_leaf('c', 1) };
    assert!(low > high);
    assert!(high < low);
    assert!(low == also_low);
    assert!(low >= also_low && low <= also_low);
}

#[test]
fn heap_node_orders_by_falling_frequency() {
    let low = HeapNode { node: TreeNode::new_leaf('a', 1) };
    let high = HeapNode { node: TreeNode::new_leaf('b', 9) };
    assert!(low > high);
    assert!(low != high);
    let mut heap = NodeHeap::new();
    assert!(heap.pop().is_none());
    heap.push(high);
    heap.push(low);
    heap.push(HeapNode { node: TreeNode::new_leaf('c', 1) });
    assert_eq!(heap.len(), 3);
    // of two nodes of the lowest frequency the one that came first leaves
    assert_eq!(heap.pop().unwrap().node.character, Some('a'));
    assert_eq!(heap.pop().unwrap().node.character, Some('c'));
    assert_eq!(heap.pop().unwrap().node.character, Some('b'));
    assert_eq!(heap.len(), 0);
}

#[test]
fn huffman_tree_of_two_characters() {
    let tree = build_huffman_tree("aab").unwrap();
    assert_eq!(tree.frequency, 3);
    assert_eq!(tree.character, None);
    // the rarer character left the heap first and stands on the left
    let left = tree.left.as_ref().unwrap();
    let right = tree.right.as_ref().unwrap();
    assert_eq!((left.character, left.frequency), (Some('b'), 1));
    assert_eq!((right.character, right.frequency), (Some('a'), 2));
    let codes = generate_codes(&tree);
    assert_eq!(codes[&('b' as u32)], "0");
    assert_eq!(codes[&('a' as u32)], "1");
    assert_eq!(encode("aab", &codes).unwrap(), "110");
    assert_eq!(decode("110", &tree).unwrap(), "aab");
}

#[test]
fn huffman_tree_of_one_character() {
    let tree = build_huffman_tree("zzz").unwrap();
    assert!(tree.is_leaf());
    assert_eq!(tree.frequency, 3);
    let codes = generate_codes(&tree);
    assert_eq!(codes.len(), 1);
    assert_eq!(codes[&('z' as u32)], "0");
    assert_eq!(encode("zzz", &codes).unwrap(), "000");
    // every bit stands for the character, whatever the bit is
    assert_eq!(decode("0x1", &tree).unwrap(), "zzz");
    assert_eq!(decode("", &tree).unwrap(), "");
}

#[test]
fn code_words_follow_the_paths_of_a_given_tree() {
    //        *
    //      /   \
    //     *     c
    //    / \
    //   a   b
    let inner = TreeNode::new_internal(2, TreeNode::new_leaf('a', 1), TreeNode::new_leaf('b', 1));
    let tree = TreeNode::new_internal(5, inner, TreeNode::new_leaf('c', 3));
    let codes = generate_codes(&tree);
    assert_eq!(codes.len(), 3);
    assert_eq!(codes[&('a' as u32)], "00");
    assert_eq!(codes[&('b' as u32)], "01");
    assert_eq!(codes[&('c' as u32)], "1");

    let mut table = HashMap::new();
    let mut path = "10".to_string();
    generate_codes_helper(&tree, &mut path, &mut table);
    assert_eq!(path, "10");
    assert_eq!(table[&('a' as u32)], "1000");
    assert_eq!(table[&('c' as u32)], "101");

    assert_eq!(encode("cab", &codes).unwrap(), "10001");
    assert_eq!(decode("10001", &tree).unwrap(), "cab");
    // bits after the last leaf are left aside
    assert_eq!(decode("100010", &tree).unwrap(), "cab");
}

#[test]
fn encode_names_the_first_character_without_a_code_word() {
    let tree = build_huffman_tree("ab").unwrap();
    let codes = generate_codes(&tree);
    assert_eq!(encode("abxy", &codes), Err("Character 'x' not in codes".to_string()));
    assert_eq!(encode("y", &HashMap::new()), Err("Character 'y' not in codes".to_string()));
}

#[test]
fn decode_says_what_stopped_it() {
    let tree = build_huffman_tree("ab").unwrap();
    assert_eq!(
        decode("01x10", &tree),
        Err("Invalid bit: 'x' (expected '0' or '1')".to_string())
    );
    // a tree with a gap on each side
    let only_right = TreeNode {
        character: None,
        frequency: 1,
        left: None,
        right: Some(TreeNode::new_leaf('r', 1)),
    };
    assert_eq!(
        decode("10", &only_right),
        Err("Invalid encoded string: tried to go left but no left child".to_string())
    );
    let only_left = TreeNode {
        character: None,
        frequency: 1,
        left: Some(TreeNode::new_leaf('l', 1)),
        right: None,
    };
    assert_eq!(
        decode("01", &only_left),
        Err("Invalid encoded string: tried to go right but no right child".to_string())
    );
    assert_eq!(decode("00", &only_left).unwrap(), "ll");
}

#[test]
fn keyed_map_remove_takes_the_first_entry_out_of_the_bucket_of_the_key() {
    let mut map = KeyedMap::new();
    for i in 0..5u32 {
        map.insert(i, i * 7);
    }
    assert_eq!(map.bucket_count(), 8);
    for key in 0..5u32 {
        let before: Vec<Vec<(u32, u32)>> = (0..8).map(|b| map.bucket(b).clone()).collect();
        let home = (0..8).find(|b| before[*b].iter().any(|e| e.0 == key)).unwrap();
        assert_eq!(map.remove(&key), Some(key * 7));
        for b in 0..8 {
            let mut expected = before[b].clone();
            if b == home {
                let at = expected.iter().position(|e| e.0 == key).unwrap();
                expected.swap_remove(at);
            }
            assert_eq!(map.bucket(b), &expected);
        }
        assert_eq!(map.remove(&key), None);
        assert_eq!(map.bucket_item_count(), 4 - key);
    }
}
