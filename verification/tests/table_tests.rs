use slotstore::table::HashTable;

#[test]
fn test_insert_and_get() {
    let mut hash_table = HashTable::<String, usize>::new();
    hash_table.insert("test".to_string(), 42);
    hash_table.insert("hello".to_string(), 100);

    assert_eq!(hash_table.get(&"test".to_string()), Some(&42));
    assert_eq!(hash_table.get(&"hello".to_string()), Some(&100));
    assert_eq!(hash_table.get(&"missing".to_string()), None); // key not present
}

#[test]
fn test_insert_overwrite() {
    let mut hash_table = HashTable::<String, usize>::new();
    hash_table.insert("key".to_string(), 10);
    assert_eq!(hash_table.get(&"key".to_string()), Some(&10));

    hash_table.insert("key".to_string(), 20); // Overwrite existing key
    assert_eq!(hash_table.get(&"key".to_string()), Some(&20)); // Updated value
}

#[test]
fn test_get_mut() {
    let mut hash_table = HashTable::<String, usize>::new();
    hash_table.insert("mutable".to_string(), 5);

    // Modify the value through a mutable reference
    if let Some(value) = hash_table.get_mut(&"mutable".to_string()) {
        *value = 15;
    }

    assert_eq!(hash_table.get(&"mutable".to_string()), Some(&15)); // Check updated value
}

#[test]
fn test_extend() {
    let mut hash_table = HashTable::<String, usize>::new();

    // Insert enough items to trigger table extension
    for i in 0..100 {
        let key = format!("key_{}", i);
        hash_table.insert(key.clone(), i);
    }

    // Check a few keys to ensure they're still accessible after resizing
    assert_eq!(hash_table.get(&"key_0".to_string()), Some(&0));
    assert_eq!(hash_table.get(&"key_50".to_string()), Some(&50));
    assert_eq!(hash_table.get(&"key_99".to_string()), Some(&99));
}

#[test]
fn test_extend_and_overwrite() {
    let mut hash_table = HashTable::<String, usize>::new();

    // Insert a large number of items to trigger table resizing
    for i in 0..100 {
        let key = format!("key_{}", i);
        hash_table.insert(key.clone(), i);
    }

    // Overwrite an existing key
    hash_table.insert("key_50".to_string(), 500);
    assert_eq!(hash_table.get(&"key_50".to_string()), Some(&500));
}

#[test]
fn generic_table_get_mut_absent_is_none() {
    let mut hash_table = HashTable::<String, usize>::new();
    hash_table.insert("present".to_string(), 1);
    assert!(hash_table.get_mut(&"absent".to_string()).is_none());
    assert_eq!(hash_table.get(&"present".to_string()), Some(&1));
}

#[test]
fn generic_table_explicit_extend_keeps_entries() {
    let mut hash_table = HashTable::<String, usize>::new();
    hash_table.insert("a".to_string(), 1);
    hash_table.insert("b".to_string(), 2);
    hash_table.extend();
    assert_eq!(hash_table.get(&"a".to_string()), Some(&1));
    assert_eq!(hash_table.get(&"b".to_string()), Some(&2));
}
