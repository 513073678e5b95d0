use dsalgo::algoritms::compression::huffman::{
    build_huffman_tree, count_frequencies, decode, encode, generate_codes, HeapNode, NodeHeap,
};
use dsalgo::data_structures::tree::TreeNode;
use std::collections::HashMap;

#[test]
fn test_count_frequencies_simple() {
    let text = "hello";
    let freqs = count_frequencies(text);

    assert_eq!(freqs.get(&('h' as u32)), Some(&1));
    assert_eq!(freqs.get(&('e' as u32)), Some(&1));
    assert_eq!(freqs.get(&('l' as u32)), Some(&2));
    assert_eq!(freqs.get(&('o' as u32)), Some(&1));
}

#[test]
fn test_count_frequencies_empty() {
    let text = "";
    let freqs = count_frequencies(text);
    assert!(freqs.is_empty());
}

#[test]
fn test_count_frequencies_duplicates() {
    let text = "aaabbc";
    let freqs = count_frequencies(text);

    assert_eq!(freqs.get(&('a' as u32)), Some(&3));
    assert_eq!(freqs.get(&('b' as u32)), Some(&2));
    assert_eq!(freqs.get(&('c' as u32)), Some(&1));
}

#[test]
fn test_build_huffman_tree_empty() {
    let tree = build_huffman_tree("");
    assert!(tree.is_none());
}

#[test]
fn test_build_huffman_tree_single_char() {
    let tree = build_huffman_tree("a").unwrap();
    let borrowed = &tree;

    assert_eq!(borrowed.frequency, 1);
    assert_eq!(borrowed.character, Some('a'));
    assert!(borrowed.is_leaf());
}

#[test]
fn test_build_huffman_tree_creates_root() {
    let tree = build_huffman_tree("hello").unwrap();
    let borrowed = &tree;

    assert_eq!(borrowed.frequency, 5); // Total characters
    assert_eq!(borrowed.character, None); // Root has no character
    assert!(!borrowed.is_leaf()); // Root is not a leaf
}

#[test]
fn test_generate_codes_single_char() {
    let tree = build_huffman_tree("a").unwrap();
    let codes = generate_codes(&tree);

    println!("{:?}", codes);

    // Single character gets empty code or single bit
    assert!(codes.contains_key(&('a' as u32)));
    assert_eq!(codes.len(), 1);
}

#[test]
fn test_generate_codes_multiple_chars() {
    let tree = build_huffman_tree("aabbc").unwrap();
    let codes = generate_codes(&tree);

    // Should have codes for a, b, c
    assert!(codes.contains_key(&('a' as u32)));
    assert!(codes.contains_key(&('b' as u32)));
    assert!(codes.contains_key(&('c' as u32)));
    assert_eq!(codes.len(), 3);

    // All codes should only contain '0' and '1'
    for code in codes.values() {
        assert!(code.chars().all(|c| c == '0' || c == '1'));
    }
}

#[test]
fn test_generate_codes_frequency_affects_length() {
    let tree = build_huffman_tree("aaabbc").unwrap();
    let codes = generate_codes(&tree);

    // More frequent character should have shorter or equal code
    let a_len = codes.get(&('a' as u32)).unwrap().len();
    let c_len = codes.get(&('c' as u32)).unwrap().len();

    assert!(
        a_len <= c_len,
        "Frequent 'a' should have shorter/equal code than rare 'c'"
    );
}

#[test]
fn test_encode_simple() {
    let tree = build_huffman_tree("ab").unwrap();
    let codes = generate_codes(&tree);
    let encoded = encode("ab", &codes).unwrap();

    // Should be binary string
    assert!(encoded.chars().all(|c| c == '0' || c == '1'));
}

#[test]
fn test_encode_missing_character() {
    let tree = build_huffman_tree("ab").unwrap();
    let codes = generate_codes(&tree);
    let result = encode("abc", &codes);

    assert!(result.is_err());
    assert!(result.unwrap_err().contains("'c'"));
}

#[test]
fn test_encode_empty_string() {
    let codes = HashMap::new();
    let encoded = encode("", &codes).unwrap();
    assert_eq!(encoded, "");
}

#[test]
fn test_decode_simple() {
    let text = "hello";
    let tree = build_huffman_tree(text).unwrap();
    let codes = generate_codes(&tree);
    let encoded = encode(text, &codes).unwrap();
    let decoded = decode(&encoded, &tree).unwrap();

    assert_eq!(text, decoded);
}

#[test]
fn test_decode_single_char() {
    let text = "a";
    let tree = build_huffman_tree(text).unwrap();
    let codes = generate_codes(&tree);
    let encoded = encode(text, &codes).unwrap();
    let decoded = decode(&encoded, &tree).unwrap();

    assert_eq!(text, decoded);
}

#[test]
fn test_decode_invalid_bit() {
    let tree = build_huffman_tree("ab").unwrap();
    let result = decode("01x10", &tree);

    assert!(result.is_err());
    assert!(result.unwrap_err().contains("Invalid bit"));
}

#[test]
fn test_encode_decode_roundtrip() {
    let texts = vec![
        "hello world",
        "aaa",
        "abcdefghijklmnopqrstuvwxyz",
        "the quick brown fox jumps over the lazy dog",
        "mississippi",
    ];

    for text in texts {
        let tree = build_huffman_tree(text).unwrap();
        let codes = generate_codes(&tree);
        let encoded = encode(text, &codes).unwrap();
        let decoded = decode(&encoded, &tree).unwrap();

        assert_eq!(text, decoded, "Failed roundtrip for: {}", text);
    }
}

#[test]
fn test_compression_actually_compresses() {
    let text = "aaaaaabbbbccde";
    let tree = build_huffman_tree(text).unwrap();
    let codes = generate_codes(&tree);
    let encoded = encode(text, &codes).unwrap();

    let original_bits = text.len() * 8; // ASCII = 8 bits per char
    let compressed_bits = encoded.len();

    // Should achieve some compression
    assert!(
        compressed_bits < original_bits,
        "Compressed {} bits should be less than original {} bits",
        compressed_bits,
        original_bits
    );
}

#[test]
fn test_huffman_codes_are_prefix_free() {
    let tree = build_huffman_tree("aabbccdd").unwrap();
    let codes = generate_codes(&tree);

    // No code should be a prefix of another
    for (char1, code1) in &codes {
        for (char2, code2) in &codes {
            if char1 != char2 {
                assert!(
                    !code2.starts_with(code1),
                    "Code for '{}' ({}) is prefix of code for '{}' ({})",
                    char1,
                    code1,
                    char2,
                    code2
                );
            }
        }
    }
}

#[test]
fn test_heap_node_ordering() {
    let node1 = TreeNode::new_leaf('a', 1);
    let node2 = TreeNode::new_leaf('b', 5);
    let node3 = TreeNode::new_leaf('c', 3);

    let mut heap = NodeHeap::new();
    heap.push(HeapNode { node: node2 });
    heap.push(HeapNode { node: node1 });
    heap.push(HeapNode { node: node3 });

    // Should pop in order: 1, 3, 5 (smallest first due to reverse ordering)
    assert_eq!(heap.pop().unwrap().node.frequency, 1);
    assert_eq!(heap.pop().unwrap().node.frequency, 3);
    assert_eq!(heap.pop().unwrap().node.frequency, 5);
}

#[test]
fn test_unicode_support() {
    let text = "hello 世界 🦀";
    let tree = build_huffman_tree(text).unwrap();
    let codes = generate_codes(&tree);
    let encoded = encode(text, &codes).unwrap();
    let decoded = decode(&encoded, &tree).unwrap();

    assert_eq!(text, decoded);
}

#[test]
fn test_long_text() {
    let text = "a".repeat(1000) + &"b".repeat(500);
    let tree = build_huffman_tree(&text).unwrap();
    let codes = generate_codes(&tree);
    let encoded = encode(&text, &codes).unwrap();
    let decoded = decode(&encoded, &tree).unwrap();

    assert_eq!(text, decoded);
}
