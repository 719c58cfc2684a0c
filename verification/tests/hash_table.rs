use std::collections::hash_map::DefaultHasher;
use std::hash::{Hash, Hasher};
use wordcount::hash_table::HashTable;

fn sorted(pairs: Vec<(&String, &i32)>) -> Vec<(String, i32)> {
    let mut out: Vec<(String, i32)> = pairs.into_iter().map(|(k, v)| (k.clone(), *v)).collect();
    out.sort();
    out
}

#[test]
fn insert_ht_test() {
    let mut ht = HashTable::new();
    ht.insert(String::from("Potato"), 10);
    assert_eq!(ht.size(), 1);
    assert_eq!(ht.lookup(&String::from("Potato")), Some(&10));
    ht.insert(String::from("Potato"), 20);
    assert_eq!(ht.lookup(&String::from("Potato")), Some(&20));
}

#[test]
fn lookup_ht_test() {
    let mut ht = HashTable::new();
    ht.insert(String::from("Potato"), 10);
    let val = ht.lookup(&String::from("Potato"));
    assert_eq!(val, Some(&10));
}

#[test]
fn ht_resize_test() {
    let mut ht = HashTable::new();
    ht.insert(String::from("Potato"), 1);
    ht.insert(String::from("Tomato"), 1);
    ht.insert(String::from("Dylan"), 1);
    ht.insert(String::from("Hamlet"), 1);
    ht.insert(String::from("Pillow"), 1);
    ht.insert(String::from("Century"), 1);
    assert_eq!(ht.lookup(&String::from("Potato")), Some(&1));
    assert_eq!(ht.lookup(&String::from("Tomato")), Some(&1));
    assert_eq!(ht.lookup(&String::from("Dylan")), Some(&1));
    assert_eq!(ht.lookup(&String::from("Hamlet")), Some(&1));
    assert_eq!(ht.lookup(&String::from("Pillow")), Some(&1));
    assert_eq!(ht.lookup(&String::from("Century")), Some(&1));
}

#[test]
fn ht_remove_test() {
    let mut ht = HashTable::new();
    ht.insert(String::from("Potato"), 1);
    ht.insert(String::from("Tomato"), 1);
    assert_eq!(ht.lookup(&String::from("Tomato")), Some(&1));
    ht.remove(&String::from("Tomato"));
    assert_eq!(ht.lookup(&String::from("Tomato")), None);
}

#[test]
fn ht_get_pairs_empty_test() {
    let mut ht = HashTable::new();
    ht.insert(String::from("Tomato"), 1);
    ht.remove(&String::from("Tomato"));
    assert_eq!(ht.get_key_value_pairs(), vec![]);
}

#[test]
fn ht_get_pairs_test() {
    let mut ht = HashTable::new();
    ht.insert(String::from("Potato"), 1);
    ht.insert(String::from("Tomato"), 1);
    ht.insert(String::from("Dylan"), 1);
    let mut expected = vec![
        (String::from("Potato"), 1),
        (String::from("Tomato"), 1),
        (String::from("Dylan"), 1),
    ];
    expected.sort();
    assert_eq!(sorted(ht.get_key_value_pairs()), expected);
}

#[test]
fn new_table_is_empty_with_one_bucket() {
    let ht: HashTable<String, i32> = HashTable::new();
    assert_eq!(ht.size(), 0);
    assert!(ht.is_empty());
    assert_eq!(ht.bucket_count(), 1);
    assert_eq!(ht.lookup(&String::from("Potato")), None);
    assert_eq!(ht.get_key_value_pairs(), vec![]);
}

#[test]
fn insert_returns_absent_then_prior_value() {
    let mut ht = HashTable::new();
    assert_eq!(ht.insert(String::from("Potato"), 10), None);
    assert_eq!(ht.insert(String::from("Potato"), 20), Some(10));
    assert_eq!(ht.insert(String::from("Potato"), 30), Some(20));
    assert_eq!(ht.size(), 1);
    assert_eq!(ht.lookup(&String::from("Potato")), Some(&30));
}

#[test]
fn zero_is_a_value_like_any_other() {
    let mut ht = HashTable::new();
    assert_eq!(ht.insert(String::from("Potato"), 0), None);
    assert_eq!(ht.lookup(&String::from("Potato")), Some(&0));
    assert_eq!(ht.insert(String::from("Potato"), 1), Some(0));
    assert_eq!(ht.remove(&String::from("Potato")), Some(1));
}

#[test]
fn size_counts_distinct_keys() {
    let mut ht = HashTable::new();
    for (i, word) in ["a", "b", "a", "c", "b", "a", "d"].iter().enumerate() {
        ht.insert(String::from(*word), i as i32);
    }
    assert_eq!(ht.size(), 4);
    assert_eq!(ht.get_key_value_pairs().len(), 4);
    assert_eq!(ht.lookup(&String::from("a")), Some(&5));
    assert_eq!(ht.lookup(&String::from("b")), Some(&4));
    assert_eq!(ht.lookup(&String::from("c")), Some(&3));
    assert_eq!(ht.lookup(&String::from("d")), Some(&6));
    ht.remove(&String::from("a"));
    ht.remove(&String::from("zzz"));
    assert_eq!(ht.size(), 3);
    assert_eq!(ht.get_key_value_pairs().len(), 3);
}

#[test]
fn no_key_is_enumerated_twice() {
    let mut ht = HashTable::new();
    for round in 0..3 {
        for i in 0..50 {
            ht.insert(format!("key{}", i), round);
        }
    }
    let pairs = sorted(ht.get_key_value_pairs());
    assert_eq!(pairs.len(), 50);
    for w in pairs.windows(2) {
        assert_ne!(w[0].0, w[1].0);
    }
    for (_, v) in pairs {
        assert_eq!(v, 2);
    }
}

#[test]
fn table_grows_before_the_insertion_that_finds_it_loaded() {
    let mut ht = HashTable::new();
    let expected = [1usize, 2, 4, 8, 8, 8, 16];
    for (i, want) in expected.iter().enumerate() {
        ht.insert(format!("key{}", i), 1);
        assert_eq!(ht.bucket_count(), *want);
        assert_eq!(ht.size(), i + 1);
    }
}

#[test]
fn overwriting_grows_a_loaded_table_too() {
    let mut ht = HashTable::new();
    ht.insert(String::from("Potato"), 1);
    assert_eq!(ht.bucket_count(), 1);
    assert_eq!(ht.insert(String::from("Potato"), 2), Some(1));
    assert_eq!(ht.bucket_count(), 2);
    assert_eq!(ht.size(), 1);
}

#[test]
fn resize_doubles_and_keeps_every_entry() {
    let mut ht = HashTable::new();
    for i in 0..20 {
        ht.insert(format!("key{}", i), i);
    }
    let before = sorted(ht.get_key_value_pairs());
    let buckets = ht.bucket_count();
    ht.resize();
    assert_eq!(ht.bucket_count(), 2 * buckets);
    assert_eq!(ht.size(), 20);
    assert_eq!(sorted(ht.get_key_value_pairs()), before);
    for i in 0..20 {
        assert_eq!(ht.lookup(&format!("key{}", i)), Some(&i));
    }
}

#[test]
fn many_keys_survive_many_resizes() {
    let mut ht = HashTable::new();
    for i in 0..1000 {
        assert_eq!(ht.insert(format!("word{}", i), i), None);
    }
    assert_eq!(ht.size(), 1000);
    for i in 0..1000 {
        assert_eq!(ht.lookup(&format!("word{}", i)), Some(&i));
    }
    assert!(4 * ht.size() <= 3 * ht.bucket_count() + 3);
}

#[test]
fn remove_absent_key_changes_nothing() {
    let mut ht = HashTable::new();
    ht.insert(String::from("Potato"), 1);
    assert_eq!(ht.remove(&String::from("Tomato")), None);
    assert_eq!(ht.size(), 1);
    assert_eq!(ht.lookup(&String::from("Potato")), Some(&1));
}

#[test]
fn remove_present_key_returns_its_value() {
    let mut ht = HashTable::new();
    ht.insert(String::from("Potato"), 7);
    ht.insert(String::from("Tomato"), 9);
    assert_eq!(ht.remove(&String::from("Tomato")), Some(9));
    assert_eq!(ht.size(), 1);
    assert_eq!(ht.lookup(&String::from("Tomato")), None);
    assert_eq!(ht.remove(&String::from("Tomato")), None);
    assert_eq!(ht.lookup(&String::from("Potato")), Some(&7));
    assert!(!ht.is_empty());
    assert_eq!(ht.remove(&String::from("Potato")), Some(7));
    assert!(ht.is_empty());
}

#[test]
fn remove_never_shrinks_the_bucket_array() {
    let mut ht = HashTable::new();
    for i in 0..7 {
        ht.insert(format!("key{}", i), i);
    }
    assert_eq!(ht.bucket_count(), 16);
    for i in 0..7 {
        ht.remove(&format!("key{}", i));
    }
    assert_eq!(ht.bucket_count(), 16);
    assert!(ht.is_empty());
}

#[test]
fn remove_keeps_the_order_of_the_other_entries() {
    let mut ht = HashTable::new();
    for i in 0..40 {
        ht.insert(format!("key{}", i), i);
    }
    for gone in [3, 17, 0, 39] {
        let key = format!("key{}", gone);
        let expected: Vec<(String, i32)> = ht
            .get_key_value_pairs()
            .into_iter()
            .filter(|(k, _)| **k != key)
            .map(|(k, v)| (k.clone(), *v))
            .collect();
        assert_eq!(ht.remove(&key), Some(gone));
        let after: Vec<(String, i32)> =
            ht.get_key_value_pairs().into_iter().map(|(k, v)| (k.clone(), *v)).collect();
        assert_eq!(after, expected);
    }
}

#[test]
fn overwrite_keeps_the_place_of_the_entry() {
    let mut ht = HashTable::new();
    for i in 0..5 {
        ht.insert(format!("key{}", i), i);
    }
    let before: Vec<String> = ht.get_key_value_pairs().into_iter().map(|(k, _)| k.clone()).collect();
    assert_eq!(ht.insert(String::from("key2"), 100), Some(2));
    let after: Vec<String> = ht.get_key_value_pairs().into_iter().map(|(k, _)| k.clone()).collect();
    assert_eq!(after, before);
    assert_eq!(ht.lookup(&String::from("key2")), Some(&100));
}

#[test]
fn pairs_come_bucket_by_bucket() {
    let mut ht = HashTable::new();
    for i in 0..100 {
        ht.insert(format!("key{}", i), i);
    }
    let pairs = ht.get_key_value_pairs();
    let slots: Vec<usize> = pairs.iter().map(|(k, _)| ht.get_hash_for_key(k)).collect();
    for w in slots.windows(2) {
        assert!(w[0] <= w[1]);
    }
    for s in &slots {
        assert!(*s < ht.bucket_count());
    }
}

#[test]
fn different_texts_spread_over_the_buckets() {
    let mut ht = HashTable::new();
    for i in 0..100 {
        ht.insert(format!("key{}", i), i);
    }
    let first = ht.get_hash_for_key(&String::from("key0"));
    let spread = (1..100).any(|i| ht.get_hash_for_key(&format!("key{}", i)) != first);
    assert!(spread);
}

#[test]
fn equal_keys_share_a_bucket() {
    let mut ht = HashTable::new();
    for i in 0..30 {
        ht.insert(format!("key{}", i), i);
    }
    let a = String::from("key7");
    let b = format!("key{}", 7);
    assert_eq!(ht.get_hash_for_key(&a), ht.get_hash_for_key(&b));
    assert_eq!(ht.get_hash_for_key(&a), ht.get_hash_for_key(&a));
}

#[test]
fn lookup_twice_gives_the_same() {
    let mut ht = HashTable::new();
    ht.insert(String::from("Potato"), 10);
    let key = String::from("Potato");
    let other = String::from("Tomato");
    assert_eq!(ht.lookup(&key), ht.lookup(&key));
    assert_eq!(ht.lookup(&key), Some(&10));
    assert_eq!(ht.lookup(&other), ht.lookup(&other));
    assert_eq!(ht.lookup(&other), None);
}

#[test]
fn integer_keys_work_as_well() {
    let mut ht: HashTable<u64, &str> = HashTable::new();
    assert_eq!(ht.insert(1, "one"), None);
    assert_eq!(ht.insert(2, "two"), None);
    assert_eq!(ht.insert(u64::MAX, "many"), None);
    assert_eq!(ht.insert(2, "zwei"), Some("two"));
    assert_eq!(ht.size(), 3);
    assert_eq!(ht.lookup(&2), Some(&"zwei"));
    assert_eq!(ht.lookup(&u64::MAX), Some(&"many"));
    assert_eq!(ht.lookup(&3), None);
    assert_eq!(ht.remove(&1), Some("one"));
    assert_eq!(ht.lookup(&1), None);
    let mut big: HashTable<u64, u64> = HashTable::new();
    for i in 0..500u64 {
        big.insert(i, i * i);
    }
    for i in 0..500u64 {
        assert_eq!(big.lookup(&i), Some(&(i * i)));
    }
    let first = big.get_hash_for_key(&0);
    assert!((1..500u64).any(|i| big.get_hash_for_key(&i) != first));
}

#[test]
fn text_keys_go_where_the_standard_hasher_says() {
    let mut ht = HashTable::new();
    for i in 0..20 {
        ht.insert(format!("key{}", i), i);
    }
    let n = ht.bucket_count() as u64;
    assert_eq!(n, 32);
    for word in ["key0", "key13", "Potato", "", "grüße"] {
        let key = String::from(word);
        let mut h = DefaultHasher::new();
        key.hash(&mut h);
        assert_eq!(ht.get_hash_for_key(&key) as u64, h.finish() % n);
    }
}

#[test]
fn integer_keys_go_by_their_eight_bytes() {
    let mut ht: HashTable<u64, u64> = HashTable::new();
    for i in 0..20u64 {
        ht.insert(i, i);
    }
    let n = ht.bucket_count() as u64;
    assert_eq!(n, 32);
    for key in [0u64, 1, 19, 0x0102_0304_0506_0708, u64::MAX] {
        let mut h = DefaultHasher::new();
        h.write(&key.to_le_bytes());
        assert_eq!(ht.get_hash_for_key(&key) as u64, h.finish() % n);
    }
}
