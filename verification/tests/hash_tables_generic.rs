use dsalgo::data_structures::hash_tables_generic::MoMap;

// Basic operations tests
#[test]
fn hash_tables_generic_test_new_map_is_empty() {
    let map: MoMap<String, i32> = MoMap::new();
    assert_eq!(map.bucket_item_count(), 0);
    assert_eq!(map.bucket_count(), 8);
}

#[test]
fn hash_tables_generic_test_insert_single_item() {
    let mut map = MoMap::new();
    let result = map.insert("hello".to_string(), 42);
    assert_eq!(result, None); // No previous value
    assert_eq!(map.bucket_item_count(), 1);
}

#[test]
fn hash_tables_generic_test_insert_and_get() {
    let mut map = MoMap::new();
    map.insert("hello".to_string(), 42);
    assert_eq!(map.get(&"hello".to_string()), Some(&42));
}

#[test]
fn hash_tables_generic_test_get_nonexistent_key() {
    let map: MoMap<String, i32> = MoMap::new();
    assert_eq!(map.get(&"hello".to_string()), None);
}

#[test]
fn hash_tables_generic_test_insert_updates_existing_key() {
    let mut map = MoMap::new();
    map.insert("hello".to_string(), 42);
    let old_value = map.insert("hello".to_string(), 99);

    assert_eq!(old_value, Some(42)); // Returns old value
    assert_eq!(map.get(&"hello".to_string()), Some(&99)); // New value stored
    assert_eq!(map.bucket_item_count(), 1); // Count doesn't increase
}

#[test]
fn hash_tables_generic_test_remove_existing_key() {
    let mut map = MoMap::new();
    map.insert("hello".to_string(), 42);

    let removed = map.remove(&"hello".to_string());
    assert_eq!(removed, Some(42));
    assert_eq!(map.get(&"hello".to_string()), None);
    assert_eq!(map.bucket_item_count(), 0);
}

#[test]
fn hash_tables_generic_test_remove_nonexistent_key() {
    let mut map: MoMap<String, i32> = MoMap::new();
    let removed = map.remove(&"hello".to_string());
    assert_eq!(removed, None);
}

#[test]
fn hash_tables_generic_test_multiple_inserts() {
    let mut map = MoMap::new();
    map.insert("a".to_string(), 1);
    map.insert("b".to_string(), 2);
    map.insert("c".to_string(), 3);

    assert_eq!(map.bucket_item_count(), 3);
    assert_eq!(map.get(&"a".to_string()), Some(&1));
    assert_eq!(map.get(&"b".to_string()), Some(&2));
    assert_eq!(map.get(&"c".to_string()), Some(&3));
}

// Collision handling tests
#[test]
fn hash_tables_generic_test_handles_collisions() {
    let mut map = MoMap::new();
    // Insert enough items to likely cause some collisions
    for i in 0..20 {
        map.insert(format!("key{}", i), i);
    }

    // All items should still be retrievable
    for i in 0..20 {
        assert_eq!(map.get(&format!("key{}", i)), Some(&i));
    }
}

// Resize tests
#[test]
fn hash_tables_generic_test_resize_triggered_at_load_factor() {
    let mut map = MoMap::new();

    // Initial size is 8, load factor 0.7 means resize at 6 items
    assert_eq!(map.bucket_count(), 8);

    for i in 0..6 {
        map.insert(format!("key{}", i), i);
    }
    assert_eq!(map.bucket_count(), 8); // Still 8 buckets

    map.insert("key6".to_string(), 6);
    assert_eq!(map.bucket_count(), 16); // Resized to 16!
}

#[test]
fn hash_tables_generic_test_items_accessible_after_resize() {
    let mut map = MoMap::new();

    // Insert items that will trigger resize
    for i in 0..10 {
        map.insert(format!("key{}", i), i);
    }

    // All items should still be accessible after resize
    for i in 0..10 {
        assert_eq!(map.get(&format!("key{}", i)), Some(&i));
    }
}

#[test]
fn hash_tables_generic_test_multiple_resizes() {
    let mut map = MoMap::new();

    // Insert enough to trigger multiple resizes
    // 8 -> 16 -> 32 -> 64
    for i in 0..50 {
        map.insert(format!("key{}", i), i);
    }

    assert_eq!(map.bucket_item_count(), 50);
    assert!(map.bucket_count() >= 64); // Should have resized to at least 64

    // Verify all items are still accessible
    for i in 0..50 {
        assert_eq!(map.get(&format!("key{}", i)), Some(&i));
    }
}

// Generic type tests
#[test]
fn test_integer_keys() {
    let mut map: MoMap<i32, String> = MoMap::new();
    map.insert(1, "one".to_string());
    map.insert(2, "two".to_string());

    assert_eq!(map.get(&1), Some(&"one".to_string()));
    assert_eq!(map.get(&2), Some(&"two".to_string()));
}

#[test]
fn test_tuple_keys() {
    let mut map: MoMap<(i32, i32), String> = MoMap::new();
    map.insert((1, 2), "point".to_string());

    assert_eq!(map.get(&(1, 2)), Some(&"point".to_string()));
    assert_eq!(map.get(&(2, 1)), None);
}

#[test]
fn test_custom_value_types() {
    let mut map: MoMap<String, Vec<i32>> = MoMap::new();
    map.insert("numbers".to_string(), vec![1, 2, 3]);

    assert_eq!(map.get(&"numbers".to_string()), Some(&vec![1, 2, 3]));
}

// Edge cases
#[test]
fn hash_tables_generic_test_empty_string_key() {
    let mut map = MoMap::new();
    map.insert("".to_string(), 42);
    assert_eq!(map.get(&"".to_string()), Some(&42));
}

#[test]
fn hash_tables_generic_test_update_then_remove() {
    let mut map = MoMap::new();
    map.insert("key".to_string(), 1);
    map.insert("key".to_string(), 2);
    map.insert("key".to_string(), 3);

    assert_eq!(map.bucket_item_count(), 1); // Only one key

    let removed = map.remove(&"key".to_string());
    assert_eq!(removed, Some(3)); // Latest value
    assert_eq!(map.bucket_item_count(), 0);
}

#[test]
fn hash_tables_generic_test_insert_remove_insert_same_key() {
    let mut map = MoMap::new();

    map.insert("key".to_string(), 1);
    assert_eq!(map.get(&"key".to_string()), Some(&1));

    map.remove(&"key".to_string());
    assert_eq!(map.get(&"key".to_string()), None);

    map.insert("key".to_string(), 2);
    assert_eq!(map.get(&"key".to_string()), Some(&2));
}

#[test]
fn hash_tables_generic_test_many_items() {
    let mut map = MoMap::new();

    // Insert 1000 items
    for i in 0..1000 {
        map.insert(i, i * 2);
    }

    assert_eq!(map.bucket_item_count(), 1000);

    // Verify random samples
    assert_eq!(map.get(&0), Some(&0));
    assert_eq!(map.get(&500), Some(&1000));
    assert_eq!(map.get(&999), Some(&1998));

    // Remove some
    map.remove(&500);
    assert_eq!(map.get(&500), None);
    assert_eq!(map.bucket_item_count(), 999);
}
