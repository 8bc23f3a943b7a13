use latest_map::LatestMap;

fn sample() -> LatestMap<i32, i32> {
    let mut map: LatestMap<i32, i32> = LatestMap::default();
    map.insert(1, 2);
    map.insert(10, 20);
    map.insert(20, 40);
    map.insert(50, 100);
    map
}

#[test]
fn should_insert() {
    let mut map: LatestMap<i32, i32> = LatestMap::default();
    map.insert(1, 2);
    assert!(map.index().contains(&1));
    assert_eq!(map.get(&1), Some(&2));
}

#[test]
fn should_contains_key() {
    let mut map: LatestMap<i32, i32> = LatestMap::default();
    map.insert(1, 2);
    assert!(map.contains_key(&1));
    assert!(!map.contains_key(&2));
}

#[test]
fn should_get_mut() {
    let mut map: LatestMap<i32, i32> = LatestMap::default();
    map.insert(1, 2);
    let value = map.get_mut(&1).unwrap();
    *value = 3;

    assert_eq!(map.get(&1), Some(&3));
}

#[test]
fn should_get_latest() {
    let mut map: LatestMap<i32, i32> = LatestMap::default();
    map.insert(1, 2);
    map.insert(10, 20);
    map.insert(20, 40);
    map.insert(50, 100);

    assert_eq!(map.get_latest(&0), None);
    assert_eq!(map.get_latest(&1), Some(&2));
    assert_eq!(map.get_latest(&3), Some(&2));
    assert_eq!(map.get_latest(&20), Some(&40));
    assert_eq!(map.get_latest(&24), Some(&40));
    assert_eq!(map.get_latest(&1000), Some(&100));
}

#[test]
fn should_work_given_map_is_empty() {
    let map: LatestMap<i32, i32> = LatestMap::default();
    assert_eq!(map.get_latest(&0), None);
    assert_eq!(map.get_latest(&1), None);
    assert_eq!(map.get_latest(&3), None);
}

#[test]
fn should_work_pop_latest() {
    let mut map: LatestMap<i32, i32> = LatestMap::default();
    map.insert(1, 2);
    map.insert(10, 20);
    map.insert(20, 40);
    map.insert(50, 100);

    assert_eq!(map.get_latest(&0), None);
    assert_eq!(map.len(), 4);
    assert_eq!(map.get_latest(&1), Some(&2));
    assert_eq!(map.len(), 4);
    assert_eq!(map.pop_latest(&3), Some((1, 2)));
    assert_eq!(map.len(), 3);
    assert_eq!(map.index().len(), 3);
}

#[test]
fn floor_is_greatest_key_not_above_query() {
    let mut map: LatestMap<u64, &str> = LatestMap::default();
    // inserted out of order on purpose
    map.insert(30, "c");
    map.insert(10, "a");
    map.insert(40, "d");
    map.insert(20, "b");
    assert_eq!(map.get_latest(&9), None);
    assert_eq!(map.get_latest(&10), Some(&"a"));
    assert_eq!(map.get_latest(&19), Some(&"a"));
    assert_eq!(map.get_latest(&20), Some(&"b"));
    assert_eq!(map.get_latest(&39), Some(&"c"));
    assert_eq!(map.get_latest(&40), Some(&"d"));
    assert_eq!(map.get_latest(&u64::MAX), Some(&"d"));
    assert_eq!(map.get_latest(&0), None);
}

#[test]
fn exact_match_comes_before_lesser_keys() {
    let map = sample();
    assert_eq!(map.get_latest(&10), Some(&20));
    assert_eq!(map.get_latest(&50), Some(&100));
    assert_eq!(map.get_latest(&1), Some(&2));
}

#[test]
fn second_insert_of_a_key_overwrites() {
    let mut map = sample();
    assert_eq!(map.len(), 4);
    map.insert(10, 21);
    assert_eq!(map.len(), 4);
    assert_eq!(map.index().len(), 4);
    assert_eq!(map.get_latest(&10), Some(&21));
    assert_eq!(map.get_latest(&15), Some(&21));
    assert_eq!(map.get(&10), Some(&21));
    map.insert(10, 22);
    assert_eq!(map.len(), 4);
    assert_eq!(map.get_latest(&10), Some(&22));
}

#[test]
fn contains_key_ignores_the_floor() {
    let mut map = sample();
    assert!(map.contains_key(&20));
    assert!(!map.contains_key(&24));
    assert_eq!(map.get_latest(&24), Some(&40));
    assert!(!map.contains_key(&0));
    assert!(!map.contains_key(&1000));
    assert_eq!(map.pop_latest(&20), Some((20, 40)));
    assert!(!map.contains_key(&20));
    map.insert(20, 41);
    assert!(map.contains_key(&20));
}

#[test]
fn get_mut_ignores_the_floor() {
    let mut map = sample();
    assert!(map.get_mut(&24).is_none());
    assert!(map.get_mut(&0).is_none());
    assert_eq!(map.len(), 4);
    match map.get_mut(&20) {
        Some(v) => *v += 1,
        None => panic!("20 has an entry"),
    }
    assert_eq!(map.get_latest(&24), Some(&41));
    assert_eq!(map.get(&10), Some(&20));
    assert_eq!(map.len(), 4);
}

#[test]
fn get_is_exact() {
    let map = sample();
    assert_eq!(map.get(&1), Some(&2));
    assert_eq!(map.get(&3), None);
    assert_eq!(map.get(&50), Some(&100));
    assert_eq!(map.get(&51), None);
}

#[test]
fn pop_latest_removes_one_entry_and_falls_through() {
    let mut map = sample();
    assert_eq!(map.pop_latest(&24), Some((20, 40)));
    assert_eq!(map.len(), 3);
    assert_eq!(map.get_latest(&24), Some(&20));
    assert_eq!(map.pop_latest(&24), Some((10, 20)));
    assert_eq!(map.len(), 2);
    assert_eq!(map.get_latest(&24), Some(&2));
    assert_eq!(map.pop_latest(&24), Some((1, 2)));
    assert_eq!(map.len(), 1);
    assert_eq!(map.get_latest(&24), None);
    assert_eq!(map.pop_latest(&24), None);
    assert_eq!(map.len(), 1);
    assert_eq!(map.get(&50), Some(&100));
    assert_eq!(map.pop_latest(&50), Some((50, 100)));
    assert_eq!(map.len(), 0);
}

#[test]
fn pop_latest_below_every_key_changes_nothing() {
    let mut map = sample();
    assert_eq!(map.pop_latest(&0), None);
    assert_eq!(map.len(), 4);
    assert_eq!(map.index().len(), 4);
    assert_eq!(map.get_latest(&1), Some(&2));
}

#[test]
fn pop_latest_need_not_take_the_greatest_key() {
    let mut map = sample();
    assert_eq!(map.pop_latest(&10), Some((10, 20)));
    assert_eq!(map.get_last_with_key(), Some((&50, &100)));
    assert!(map.contains_key(&20));
    assert!(map.contains_key(&1));
}

#[test]
fn last_with_key_is_the_greatest_key() {
    let mut map: LatestMap<i32, i32> = LatestMap::default();
    assert_eq!(map.get_last_with_key(), None);
    map.insert(10, 20);
    assert_eq!(map.get_last_with_key(), Some((&10, &20)));
    map.insert(1, 2);
    assert_eq!(map.get_last_with_key(), Some((&10, &20)));
    map.insert(50, 100);
    assert_eq!(map.get_last_with_key(), Some((&50, &100)));
    assert_eq!(map.pop_latest(&1000), Some((50, 100)));
    assert_eq!(map.get_last_with_key(), Some((&10, &20)));
}

#[test]
fn empty_map_answers_nothing() {
    let mut map: LatestMap<i32, i32> = LatestMap::default();
    assert_eq!(map.get_latest(&i32::MIN), None);
    assert_eq!(map.get_latest(&i32::MAX), None);
    assert_eq!(map.get_last_with_key(), None);
    assert_eq!(map.pop_latest(&0), None);
    assert_eq!(map.pop_latest(&i32::MAX), None);
    assert_eq!(map.len(), 0);
    assert_eq!(map.index().len(), 0);
    assert!(!map.contains_key(&0));
    assert!(map.get_mut(&0).is_none());
    assert_eq!(map.get(&0), None);
}

#[test]
fn reads_do_not_change_the_map() {
    let map = sample();
    assert_eq!(map.get_latest(&0), None);
    assert_eq!(map.len(), 4);
    assert_eq!(map.get_latest(&1), Some(&2));
    assert_eq!(map.len(), 4);
    assert_eq!(map.get_latest(&3), Some(&2));
    assert_eq!(map.get_latest(&20), Some(&40));
    assert_eq!(map.get_latest(&24), Some(&40));
    assert_eq!(map.get_latest(&1000), Some(&100));
    assert_eq!(map.get_last_with_key(), Some((&50, &100)));
    assert!(map.contains_key(&10));
    assert_eq!(map.len(), 4);
}

#[test]
fn string_keys_are_ordered_as_strings() {
    let mut map: LatestMap<String, u32> = LatestMap::default();
    map.insert(String::from("v2"), 2);
    map.insert(String::from("v1"), 1);
    map.insert(String::from("v4"), 4);
    assert_eq!(map.get_latest(&String::from("v3")), Some(&2));
    assert_eq!(map.get_latest(&String::from("v0")), None);
    assert_eq!(map.get_latest(&String::from("v4")), Some(&4));
    assert_eq!(
        map.pop_latest(&String::from("v3")),
        Some((String::from("v2"), 2))
    );
    assert_eq!(map.get_latest(&String::from("v3")), Some(&1));
    assert_eq!(map.len(), 2);
}

#[test]
fn index_and_entries_keep_the_same_keys() {
    let mut map: LatestMap<i32, i32> = LatestMap::default();
    let keys = [7, 3, 9, 3, 1, 7, 5];
    for (n, k) in keys.iter().enumerate() {
        map.insert(*k, n as i32);
        assert_eq!(map.index().len(), map.len());
    }
    assert_eq!(map.len(), 5);
    for k in 0..11 {
        assert_eq!(map.index().contains(&k), map.contains_key(&k));
        assert_eq!(map.get(&k).is_some(), map.contains_key(&k));
    }
    assert_eq!(map.get(&3), Some(&3));
    assert_eq!(map.get(&7), Some(&5));
    while map.pop_latest(&6).is_some() {
        assert_eq!(map.index().len(), map.len());
    }
    assert_eq!(map.len(), 2);
    assert!(map.contains_key(&7));
    assert!(map.contains_key(&9));
}

#[test]
fn four_inserts_then_queries_then_pop() {
    let mut map: LatestMap<i32, i32> = LatestMap::default();
    map.insert(1, 2);
    map.insert(10, 20);
    map.insert(20, 40);
    map.insert(50, 100);
    assert_eq!(map.get_latest(&0), None);
    assert_eq!(map.len(), 4);
    assert_eq!(map.get_latest(&1), Some(&2));
    assert_eq!(map.len(), 4);
    assert_eq!(map.get_latest(&3), Some(&2));
    assert_eq!(map.len(), 4);
    assert_eq!(map.get_latest(&20), Some(&40));
    assert_eq!(map.len(), 4);
    assert_eq!(map.get_latest(&24), Some(&40));
    assert_eq!(map.len(), 4);
    assert_eq!(map.get_latest(&1000), Some(&100));
    assert_eq!(map.len(), 4);
    assert_eq!(map.pop_latest(&3), Some((1, 2)));
    assert_eq!(map.len(), 3);
    assert_eq!(map.get_latest(&3), None);
}
