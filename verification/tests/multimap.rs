use ngram::multimap::ConcurrentMultiMap;

#[test]
fn set_then_get_finds_value() {
    let mut map = ConcurrentMultiMap::new(8);
    map.set(String::from("fox"), 0);
    assert_eq!(map.get(&String::from("fox")), vec![0]);
    assert_eq!(map.get(&String::from("dog")), Vec::<u64>::new());
}

#[test]
fn set_is_idempotent() {
    let mut map = ConcurrentMultiMap::new(8);
    map.set(String::from("fox"), 7);
    map.set(String::from("fox"), 7);
    assert_eq!(map.get(&String::from("fox")), vec![7]);
}

#[test]
fn one_key_many_values() {
    let mut map = ConcurrentMultiMap::new(4);
    map.set(String::from("fox"), 1);
    map.set(String::from("fox"), 2);
    map.set(String::from("fox"), 3);
    let mut values = map.get(&String::from("fox"));
    values.sort();
    assert_eq!(values, vec![1, 2, 3]);
}

#[test]
fn distinct_pairs_all_present() {
    // The sequential shape of the concurrent insertion property: inserting
    // distinct pairs in any order, every pair is found afterwards.
    let mut map = ConcurrentMultiMap::new(4);
    for i in 0..100u64 {
        map.set(format!("key-{}", i), i);
    }
    for i in 0..100u64 {
        assert_eq!(map.get(&format!("key-{}", i)), vec![i]);
    }
}

#[test]
fn single_bucket_still_correct() {
    let mut map = ConcurrentMultiMap::new(1);
    map.set(String::from("a"), 1);
    map.set(String::from("b"), 2);
    assert_eq!(map.get(&String::from("a")), vec![1]);
    assert_eq!(map.get(&String::from("b")), vec![2]);
}

#[test]
fn bucket_index_is_stable_and_in_range() {
    let map = ConcurrentMultiMap::new(16);
    let i1 = map.get_bucket_index("some-word");
    let i2 = map.get_bucket_index("some-word");
    assert_eq!(i1, i2);
    assert!(i1 < 16);
}
