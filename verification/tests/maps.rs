use hash_maps::chaining_hash_map::HashMap;
use hash_maps::open_addressing_hash_map::HashMap as OpenHashMap;

#[test]
fn chaining_hash_map_test() {
    let mut mp = HashMap::with_capacity(3);
    mp.insert("aaa", "abc");
    mp.insert("bbs", "bbb");

    let a = mp.get("aaa").unwrap();
    let b = mp.get("bbs").unwrap();
    assert_eq!(a, "abc");
    assert_eq!(b, "bbb");
}

#[test]
fn open_addressing_hash_map_test() {
    let mut mp = OpenHashMap::with_capacity(3);
    mp.insert("aaa", "abc");
    mp.insert("bbs", "bbb");

    let a = mp.get("aaa").unwrap();
    let b = mp.get("bbs").unwrap();
    assert_eq!(a, "abc");
    assert_eq!(b, "bbb");
}

#[test]
fn chaining_get_on_empty_returns_none() {
    let mp = HashMap::new();
    assert!(mp.get("anything").is_none());
    assert!(mp.get("").is_none());
}

#[test]
fn open_addressing_get_on_empty_returns_none() {
    let mp = OpenHashMap::new();
    assert!(mp.get("anything").is_none());
    assert!(mp.get("").is_none());
}

#[test]
fn chaining_absent_key_in_non_empty_map() {
    let mut mp = HashMap::new();
    mp.insert("present", "value");
    assert!(mp.get("absent").is_none());
    assert!(!mp.contains_key("absent"));
}

#[test]
fn open_addressing_absent_key_in_non_empty_map() {
    let mut mp = OpenHashMap::new();
    mp.insert("present", "value");
    assert!(mp.get("absent").is_none());
    assert!(!mp.contains_key("absent"));
}

#[test]
fn chaining_contains_key_matches_get() {
    let mut mp = HashMap::new();
    mp.insert("k1", "v1");
    mp.insert("k2", "v2");
    assert_eq!(mp.contains_key("k1"), mp.get("k1").is_some());
    assert_eq!(mp.contains_key("k2"), mp.get("k2").is_some());
    assert_eq!(mp.contains_key("k3"), mp.get("k3").is_some());
    assert!(mp.contains_key("k1"));
    assert!(!mp.contains_key("k3"));
}

#[test]
fn open_addressing_contains_key_matches_get() {
    let mut mp = OpenHashMap::new();
    mp.insert("k1", "v1");
    mp.insert("k2", "v2");
    assert_eq!(mp.contains_key("k1"), mp.get("k1").is_some());
    assert_eq!(mp.contains_key("k2"), mp.get("k2").is_some());
    assert_eq!(mp.contains_key("k3"), mp.get("k3").is_some());
    assert!(mp.contains_key("k1"));
    assert!(!mp.contains_key("k3"));
}

#[test]
fn chaining_growth_triggers_at_capacity() {
    let mut mp = HashMap::with_capacity(3);
    mp.insert("a", "1");
    mp.insert("b", "2");
    mp.insert("c", "3");
    assert_eq!(mp.capacity(), 3);
    assert_eq!(mp.len(), 3);
    mp.insert("d", "4");
    assert_eq!(mp.capacity(), 6);
    assert_eq!(mp.len(), 4);
}

#[test]
fn open_addressing_growth_triggers_at_capacity() {
    let mut mp = OpenHashMap::with_capacity(3);
    mp.insert("a", "1");
    mp.insert("b", "2");
    mp.insert("c", "3");
    assert_eq!(mp.capacity(), 3);
    assert_eq!(mp.len(), 3);
    mp.insert("d", "4");
    assert_eq!(mp.capacity(), 6);
    assert_eq!(mp.len(), 4);
}

#[test]
fn chaining_growth_loses_no_entry() {
    let mut mp = HashMap::new();
    assert_eq!(mp.capacity(), 2);
    mp.insert("one", "1");
    mp.insert("two", "2");
    mp.insert("three", "3");
    assert_eq!(mp.get("one").unwrap(), "1");
    assert_eq!(mp.get("two").unwrap(), "2");
    assert_eq!(mp.get("three").unwrap(), "3");
    assert_eq!(mp.len(), 3);
}

#[test]
fn open_addressing_growth_loses_no_entry() {
    let mut mp = OpenHashMap::new();
    assert_eq!(mp.capacity(), 2);
    mp.insert("one", "1");
    mp.insert("two", "2");
    mp.insert("three", "3");
    assert_eq!(mp.get("one").unwrap(), "1");
    assert_eq!(mp.get("two").unwrap(), "2");
    assert_eq!(mp.get("three").unwrap(), "3");
    assert_eq!(mp.len(), 3);
}

#[test]
fn chaining_duplicate_key_overwrites() {
    let mut mp = HashMap::new();
    mp.insert("dup", "first");
    mp.insert("dup", "second");
    assert_eq!(mp.get("dup").unwrap(), "second");
    assert_eq!(mp.len(), 1);
}

#[test]
fn open_addressing_duplicate_key_overwrites() {
    let mut mp = OpenHashMap::new();
    mp.insert("dup", "first");
    mp.insert("dup", "second");
    assert_eq!(mp.get("dup").unwrap(), "second");
    assert_eq!(mp.len(), 1);
}

#[test]
fn chaining_round_trip_many_keys() {
    let mut mp = HashMap::with_capacity(1);
    let pairs = [
        ("alpha", "a"),
        ("beta", "b"),
        ("gamma", "c"),
        ("delta", "d"),
        ("epsilon", "e"),
        ("zeta", "f"),
        ("eta", "g"),
        ("theta", "h"),
    ];
    for (k, v) in pairs.iter() {
        mp.insert(k, v);
    }
    for (k, v) in pairs.iter() {
        assert_eq!(mp.get(k).unwrap(), *v);
    }
    assert_eq!(mp.len(), pairs.len());
}

#[test]
fn open_addressing_round_trip_many_keys() {
    let mut mp = OpenHashMap::with_capacity(1);
    let pairs = [
        ("alpha", "a"),
        ("beta", "b"),
        ("gamma", "c"),
        ("delta", "d"),
        ("epsilon", "e"),
        ("zeta", "f"),
        ("eta", "g"),
        ("theta", "h"),
    ];
    for (k, v) in pairs.iter() {
        mp.insert(k, v);
    }
    for (k, v) in pairs.iter() {
        assert_eq!(mp.get(k).unwrap(), *v);
    }
    assert_eq!(mp.len(), pairs.len());
}

#[test]
fn chaining_hash_is_stable_and_in_range() {
    let mut mp = HashMap::with_capacity(5);
    let h1 = mp.hash("stable");
    let h2 = mp.hash("stable");
    assert_eq!(h1, h2);
    assert!(h1 < 5);
    mp.insert("other", "x");
    assert_eq!(mp.hash("stable"), h1);
}

#[test]
fn open_addressing_hash_is_stable_and_in_range() {
    let mut mp = OpenHashMap::with_capacity(5);
    let h1 = mp.hash("stable");
    let h2 = mp.hash("stable");
    assert_eq!(h1, h2);
    assert!(h1 < 5);
    mp.insert("other", "x");
    assert_eq!(mp.hash("stable"), h1);
}

#[test]
fn chaining_resize_preserves_contents() {
    let mut mp = HashMap::with_capacity(4);
    mp.insert("p", "1");
    mp.insert("q", "2");
    mp.resize();
    assert_eq!(mp.capacity(), 8);
    assert_eq!(mp.len(), 2);
    assert_eq!(mp.get("p").unwrap(), "1");
    assert_eq!(mp.get("q").unwrap(), "2");
    assert!(mp.get("r").is_none());
}

#[test]
fn open_addressing_resize_preserves_contents() {
    let mut mp = OpenHashMap::with_capacity(4);
    mp.insert("p", "1");
    mp.insert("q", "2");
    mp.resize();
    assert_eq!(mp.capacity(), 8);
    assert_eq!(mp.len(), 2);
    assert_eq!(mp.get("p").unwrap(), "1");
    assert_eq!(mp.get("q").unwrap(), "2");
    assert!(mp.get("r").is_none());
}

#[test]
fn chaining_empty_key_and_value_round_trip() {
    let mut mp = HashMap::new();
    mp.insert("", "");
    assert_eq!(mp.get("").unwrap(), "");
    assert!(mp.contains_key(""));
    assert_eq!(mp.len(), 1);
}

#[test]
fn open_addressing_empty_key_and_value_round_trip() {
    let mut mp = OpenHashMap::new();
    mp.insert("", "");
    assert_eq!(mp.get("").unwrap(), "");
    assert!(mp.contains_key(""));
    assert_eq!(mp.len(), 1);
}

#[test]
fn digest_is_bytewise_shift_add() {
    // Folding left to right: h = h * 8 + byte, wrapping modulo 2^64.
    assert_eq!(hash_maps::hashing::digest(&[]), 0);
    assert_eq!(hash_maps::hashing::digest(&[1]), 1);
    assert_eq!(hash_maps::hashing::digest(&[1, 2]), 10);
    assert_eq!(hash_maps::hashing::digest(&[7, 7, 7]), 511);
    assert_eq!(hash_maps::hashing::digest(b"aaa"), 97 * 64 + 97 * 8 + 97);
}

#[test]
fn slot_stays_under_capacity() {
    for cap in 1..9usize {
        for key in ["", "a", "key", "another key", "bbs"] {
            assert!(hash_maps::hashing::slot_for(key, cap) < cap);
        }
    }
}
