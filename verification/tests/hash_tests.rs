use slotstore::hash::HashTable;

#[test]
fn test_set_items() {
    let mut hash_table = HashTable::new();

    // insert 400 items into the table
    for i in 0..400 {
        let key = i.to_string();
        hash_table.set(&key, &key);
    }

    assert_eq!(hash_table.no_of_taken, 400);
}

#[test]
fn test_get_items() {
    let mut hash_table = HashTable::new();

    // insert 400 items into the table
    for i in 0..400 {
        let key = i.to_string();
        hash_table.set(&key, &key);
    }

    // fetch 400 items into from the table
    for i in 0..400 {
        let key = i.to_string();

        if let Some(val) = hash_table.get(&key) {
            println!("Value for key {key} is {}", val);

            assert_eq!(val, key);
        }
    }
}

#[test]
fn test_del_items() {
    let mut hash_table = HashTable::new();

    // insert 400 items into the table
    for i in 0..400 {
        let key = i.to_string();
        hash_table.set(&key, &key);
    }

    // del 400 items into from the table
    for i in 0..400 {
        let key = i.to_string();

        if let Some(val) = hash_table.del(&key) {
            assert_eq!(val, key);
        }
    }

    let mut count: usize = 0;

    // get 400 items into from the table
    for i in 0..400 {
        let key = i.to_string();

        let val = hash_table.get(&key);

        if val != None {
            println!("{key}:{:?}", Some(val));
            count += 1;
        }
    }

    assert_eq!(count, 0);
}

#[test]
fn string_table_get_after_set_returns_value() {
    let mut t = HashTable::new();
    t.set("alpha", "one");
    t.set("beta", "two");
    assert_eq!(t.get("alpha"), Some("one".to_string()));
    assert_eq!(t.get("beta"), Some("two".to_string()));
    assert_eq!(t.get("gamma"), None);
}

#[test]
fn string_table_del_returns_value_once() {
    let mut t = HashTable::new();
    t.set("alpha", "one");
    assert_eq!(t.del("alpha"), Some("one".to_string()));
    assert_eq!(t.del("alpha"), None);
    assert_eq!(t.get("alpha"), None);
    assert_eq!(t.no_of_taken, 0);
}

#[test]
fn string_table_del_absent_keeps_count() {
    let mut t = HashTable::new();
    t.set("alpha", "one");
    let before = t.no_of_taken;
    assert_eq!(t.del("missing"), None);
    assert_eq!(t.no_of_taken, before);
}
