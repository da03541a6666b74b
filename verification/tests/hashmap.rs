use robinhood::FxBuildHasher;
use robinhood::FxHashMap;
use robinhood::IdentityBuildHasher;

#[test]
fn it_constructs_with_an_initial_capacity() {
    let initial_capacity = 5;
    let hashmap: FxHashMap<&str, i32, FxBuildHasher> = FxHashMap::with_capacity(initial_capacity);

    assert_eq!(hashmap.capacity(), initial_capacity);
}

#[test]
fn it_inserts_values_without_initial_capacity() {
    let mut hashmap = FxHashMap::new();

    for x in 0..100 {
        hashmap.insert(x, x + 1);
    }

    for x in 100..0 {
        let val = hashmap.get(&x).unwrap();
        assert_eq!(*val, x + 1);
    }
}

#[test]
fn it_inserts_values_with_initial_capacity() {
    let mut book_reviews = FxHashMap::with_capacity(10);
    let key = "The Adventures of Sherlock Holmes".to_string();
    let value = "Eye lyked it alot.".to_string();

    book_reviews.insert(key, value);

    assert_eq!(book_reviews.capacity(), 10);
    assert_eq!(
        *book_reviews
            .get(&String::from("The Adventures of Sherlock Holmes"))
            .unwrap(),
        String::from("Eye lyked it alot.")
    );
}

#[test]
fn it_keeps_a_preset_capacity_and_serves_lookups() {
    let mut map = FxHashMap::with_capacity(10);
    map.insert("Sherlock", "notes");

    assert_eq!(map.capacity(), 10);
    assert_eq!(map.get(&"Sherlock"), Some(&"notes"));
}

#[test]
fn it_round_trips_a_hundred_entries_from_an_empty_table() {
    let mut map = FxHashMap::new();

    for x in 0..100 {
        map.insert(x, x + 1);
    }

    assert_eq!(map.len(), 100);
    for x in 0..100 {
        assert_eq!(map.get(&x), Some(&(x + 1)));
    }
}

#[test]
fn it_updates_in_place_without_growing_the_count() {
    let mut map = FxHashMap::new();
    map.insert(7u64, "first");
    assert_eq!(map.len(), 1);

    map.insert(7u64, "second");

    assert_eq!(map.get(&7u64), Some(&"second"));
    assert_eq!(map.len(), 1);
}

#[test]
fn it_keeps_displaced_and_displacing_keys_reachable() {
    // With the transparent provider the digest of a small integer key is the
    // key itself, so homes can be laid out by hand in a table of capacity 8:
    // 0, 8 and 16 pile up on slot 0 and spill into slots 1 and 2; 3 settles
    // at its home slot 3 with no walk; 2 then walks off its occupied home
    // slot 2, displaces the richer 3, and 3 is re-inserted one slot on.
    let mut map = FxHashMap::with_capacity_and_hasher(8, IdentityBuildHasher::new());
    map.insert(0u64, 10u64);
    map.insert(8u64, 18u64);
    map.insert(16u64, 26u64);
    map.insert(3u64, 13u64);
    map.insert(2u64, 12u64);

    assert_eq!(map.len(), 5);
    assert_eq!(map.capacity(), 8);
    assert_eq!(map.get(&2u64), Some(&12u64));
    assert_eq!(map.get(&3u64), Some(&13u64));
    assert_eq!(map.get(&0u64), Some(&10u64));
    assert_eq!(map.get(&8u64), Some(&18u64));
    assert_eq!(map.get(&16u64), Some(&26u64));
}

#[test]
fn it_misses_keys_never_inserted() {
    let empty: FxHashMap<u64, u64, FxBuildHasher> = FxHashMap::new();
    assert_eq!(empty.get(&42u64), None);

    let mut populated = FxHashMap::new();
    populated.insert(1u64, 100u64);
    populated.insert(2u64, 200u64);
    assert_eq!(populated.get(&42u64), None);
}

#[test]
fn it_grows_by_doubling_once_the_load_factor_passes_three_quarters() {
    let mut map = FxHashMap::new();
    assert_eq!(map.capacity(), 0);

    map.insert(1u64, 1u64);
    assert_eq!(map.capacity(), 4);

    map.insert(2u64, 2u64);
    map.insert(3u64, 3u64);
    map.insert(4u64, 4u64);
    assert_eq!(map.capacity(), 4);

    map.insert(5u64, 5u64);
    assert_eq!(map.capacity(), 8);

    assert_eq!(map.len(), 5);
    for x in 1u64..6u64 {
        assert_eq!(map.get(&x), Some(&x));
    }
}

#[test]
fn it_wraps_probes_around_a_small_full_table() {
    let mut map = FxHashMap::with_capacity(2);
    map.insert(10u64, 1u64);
    map.insert(20u64, 2u64);

    assert_eq!(map.len(), 2);
    assert_eq!(map.get(&10u64), Some(&1u64));
    assert_eq!(map.get(&20u64), Some(&2u64));

    map.insert(30u64, 3u64);
    assert!(map.capacity() > 2);
    assert_eq!(map.get(&30u64), Some(&3u64));
}

#[test]
fn it_grows_a_capacity_one_table_on_its_second_insertion() {
    let mut map = FxHashMap::with_capacity(1);
    map.insert(5i32, -5i32);
    map.insert(-6i32, 6i32);

    assert!(map.capacity() >= 2);
    assert_eq!(map.get(&5i32), Some(&-5i32));
    assert_eq!(map.get(&-6i32), Some(&6i32));
}

#[test]
fn it_serves_string_and_str_keys_alike() {
    let mut names: FxHashMap<String, u32, FxBuildHasher> = FxHashMap::new();
    names.insert(String::from("one"), 1u32);
    names.insert(String::from("two"), 2u32);
    assert_eq!(names.get(&String::from("one")), Some(&1u32));
    assert_eq!(names.get(&String::from("three")), None);

    let mut tags: FxHashMap<&str, u32, FxBuildHasher> = FxHashMap::new();
    tags.insert("alpha", 1u32);
    tags.insert("beta", 2u32);
    assert_eq!(tags.get(&"beta"), Some(&2u32));
    assert_eq!(tags.get(&"gamma"), None);
}

#[test]
fn it_keeps_every_key_through_growth_with_the_transparent_provider() {
    let mut map = FxHashMap::with_hasher(IdentityBuildHasher::new());
    for x in 0u64..50u64 {
        map.insert(x, x * 2);
    }

    assert_eq!(map.len(), 50);
    for x in 0u64..50u64 {
        assert_eq!(map.get(&x), Some(&(x * 2)));
    }
    assert_eq!(map.get(&50u64), None);
}

#[test]
fn it_returns_the_latest_value_for_a_twice_inserted_key() {
    let mut map = FxHashMap::new();
    map.insert(String::from("k"), String::from("v1"));
    map.insert(String::from("k"), String::from("v2"));

    assert_eq!(map.get(&String::from("k")), Some(&String::from("v2")));
    assert_eq!(map.len(), 1);
}
