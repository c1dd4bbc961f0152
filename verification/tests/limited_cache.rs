use limited_cache::LimitedCache;

type Test = LimitedCache<String, usize>;

#[test]
fn test_updates_existing_item() {
    let mut t = Test::new(3);
    t.insert("abc".into(), 1);
    t.insert("abc".into(), 2);
    assert_eq!(t.get(&"abc".to_string()), Some(&2));
}

#[test]
fn test_evicts_oldest_item() {
    let mut t = Test::new(3);
    t.insert("abc".into(), 1);
    t.insert("def".into(), 2);
    t.insert("ghi".into(), 3);

    assert_eq!(t.get(&"abc".to_string()), None);
    assert_eq!(t.get(&"def".to_string()), Some(&2));
    assert_eq!(t.get(&"ghi".to_string()), Some(&3));
}

#[test]
fn test_evicts_second_oldest_item_if_first_removed() {
    let mut t = Test::new(3);
    t.insert("abc".into(), 1);
    t.insert("def".into(), 2);

    assert_eq!(t.remove(&"abc".to_string()), Some(1));

    t.insert("ghi".into(), 3);
    t.insert("jkl".into(), 4);

    assert_eq!(t.get(&"abc".to_string()), None);
    assert_eq!(t.get(&"def".to_string()), None);
    assert_eq!(t.get(&"ghi".to_string()), Some(&3));
    assert_eq!(t.get(&"jkl".to_string()), Some(&4));
}

#[test]
fn test_evicts_after_second_oldest_item_removed() {
    let mut t = Test::new(3);
    t.insert("abc".into(), 1);
    t.insert("def".into(), 2);

    assert_eq!(t.remove(&"def".to_string()), Some(2));
    assert_eq!(t.get(&"abc".to_string()), Some(&1));

    t.insert("ghi".into(), 3);
    t.insert("jkl".into(), 4);

    assert_eq!(t.get(&"abc".to_string()), None);
    assert_eq!(t.get(&"def".to_string()), None);
    assert_eq!(t.get(&"ghi".to_string()), Some(&3));
    assert_eq!(t.get(&"jkl".to_string()), Some(&4));
}

#[test]
fn test_removes_all_items() {
    let mut t = Test::new(3);
    t.insert("abc".into(), 1);
    t.insert("def".into(), 2);

    assert_eq!(t.remove(&"def".to_string()), Some(2));
    assert_eq!(t.remove(&"abc".to_string()), Some(1));

    t.insert("ghi".into(), 3);
    t.insert("jkl".into(), 4);
    t.insert("mno".into(), 5);

    assert_eq!(t.get(&"abc".to_string()), None);
    assert_eq!(t.get(&"def".to_string()), None);
    assert_eq!(t.get(&"ghi".to_string()), None);
    assert_eq!(t.get(&"jkl".to_string()), Some(&4));
    assert_eq!(t.get(&"mno".to_string()), Some(&5));
}

#[test]
fn test_inserts_many_items() {
    let mut t = Test::new(3);

    for _ in 0..10000 {
        t.insert("abc".into(), 1);
        t.insert("def".into(), 2);
        t.insert("ghi".into(), 3);
    }
}

#[test]
fn test_update_does_not_refresh_position() {
    let mut t = Test::new(3);
    t.insert("abc".into(), 1);
    t.insert("def".into(), 2);
    // updating the oldest key must not move it to the back
    t.insert("abc".into(), 9);
    t.insert("ghi".into(), 3);

    assert_eq!(t.get(&"abc".to_string()), None);
    assert_eq!(t.get(&"def".to_string()), Some(&2));
    assert_eq!(t.get(&"ghi".to_string()), Some(&3));
}

#[test]
fn test_remove_absent_key_is_noop() {
    let mut t = Test::new(3);
    t.insert("abc".into(), 1);

    assert_eq!(t.remove(&"def".to_string()), None);
    assert_eq!(t.remove(&"def".to_string()), None);
    assert_eq!(t.get(&"abc".to_string()), Some(&1));

    // the untouched slot still fills before anything is evicted
    t.insert("def".into(), 2);
    assert_eq!(t.get(&"abc".to_string()), Some(&1));
    assert_eq!(t.get(&"def".to_string()), Some(&2));
}

#[test]
fn test_eviction_is_oldest_first() {
    let mut t = Test::new(4);
    t.insert("abc".into(), 1);
    t.insert("def".into(), 2);
    t.insert("ghi".into(), 3);
    t.insert("jkl".into(), 4);
    t.insert("mno".into(), 5);

    // with a reservation of four, five distinct keys leave the
    // youngest three, the two oldest having gone in insertion order
    assert_eq!(t.get(&"abc".to_string()), None);
    assert_eq!(t.get(&"def".to_string()), None);
    assert_eq!(t.get(&"ghi".to_string()), Some(&3));
    assert_eq!(t.get(&"jkl".to_string()), Some(&4));
    assert_eq!(t.get(&"mno".to_string()), Some(&5));
}

#[test]
fn test_tiny_capacity_stays_empty() {
    // a reservation that cannot admit even one entry evicts each
    // fresh key as soon as it arrives
    let mut one = Test::new(1);
    one.insert("abc".into(), 1);
    assert_eq!(one.get(&"abc".to_string()), None);
    assert_eq!(one.remove(&"abc".to_string()), None);

    let mut zero = Test::new(0);
    zero.insert("abc".into(), 1);
    assert_eq!(zero.get(&"abc".to_string()), None);
}

#[test]
fn test_integer_keys() {
    let mut t: LimitedCache<u64, String> = LimitedCache::new(3);
    t.insert(10, "ten".to_string());
    t.insert(20, "twenty".to_string());
    t.insert(10, "TEN".to_string());

    assert_eq!(t.get(&10), Some(&"TEN".to_string()));
    assert_eq!(t.remove(&20), Some("twenty".to_string()));
    assert_eq!(t.get(&20), None);

    t.insert(30, "thirty".to_string());
    assert_eq!(t.get(&10), Some(&"TEN".to_string()));

    // the third distinct key fills the reservation and pushes out 10,
    // the oldest, despite its later update
    t.insert(40, "forty".to_string());
    assert_eq!(t.get(&10), None);
    assert_eq!(t.get(&30), Some(&"thirty".to_string()));
    assert_eq!(t.get(&40), Some(&"forty".to_string()));
}
