use latest_map::index::OrderIndex;
use latest_map::order::{rank, Rank};

fn filled(keys: &[i64]) -> OrderIndex<i64> {
    let mut index = OrderIndex::new();
    for k in keys {
        index.insert(*k);
    }
    index
}

fn listed(index: &OrderIndex<i64>) -> Vec<i64> {
    let mut out = Vec::new();
    for pos in 0..index.len() {
        out.push(*index.key_at(pos));
    }
    out
}

#[test]
fn rank_orders_as_the_key_type_does() {
    assert_eq!(rank(&1, &2), Rank::Before);
    assert_eq!(rank(&2, &2), Rank::Same);
    assert_eq!(rank(&3, &2), Rank::After);
    assert_eq!(rank(&"a", &"b"), Rank::Before);
    assert_eq!(rank(&-1i8, &-2i8), Rank::After);
}

#[test]
fn new_index_is_empty() {
    let index: OrderIndex<i64> = OrderIndex::new();
    assert_eq!(index.len(), 0);
    assert_eq!(index.max(), None);
    assert_eq!(index.floor(&0), None);
    assert_eq!(index.position(&0), None);
    assert!(!index.contains(&0));
    assert_eq!(index.search(&0), (0, false));
}

#[test]
fn insert_keeps_keys_ascending_and_single() {
    let index = filled(&[5, 1, 9, 5, 3, 1, 7]);
    assert_eq!(listed(&index), vec![1, 3, 5, 7, 9]);
}

#[test]
fn insert_returns_position_and_freshness() {
    let mut index: OrderIndex<i64> = OrderIndex::new();
    assert_eq!(index.insert(5), (0, true));
    assert_eq!(index.insert(9), (1, true));
    assert_eq!(index.insert(1), (0, true));
    assert_eq!(index.insert(5), (1, false));
    assert_eq!(index.insert(7), (2, true));
    assert_eq!(index.len(), 4);
    assert_eq!(listed(&index), vec![1, 5, 7, 9]);
}

#[test]
fn search_counts_the_keys_before_the_query() {
    let index = filled(&[10, 20, 30]);
    assert_eq!(index.search(&5), (0, false));
    assert_eq!(index.search(&10), (0, true));
    assert_eq!(index.search(&15), (1, false));
    assert_eq!(index.search(&20), (1, true));
    assert_eq!(index.search(&25), (2, false));
    assert_eq!(index.search(&30), (2, true));
    assert_eq!(index.search(&35), (3, false));
}

#[test]
fn contains_and_position_are_exact() {
    let index = filled(&[10, 20, 30]);
    assert!(index.contains(&20));
    assert!(!index.contains(&25));
    assert_eq!(index.position(&10), Some(0));
    assert_eq!(index.position(&30), Some(2));
    assert_eq!(index.position(&29), None);
}

#[test]
fn floor_prefers_the_key_itself_then_the_one_below() {
    let index = filled(&[10, 20, 30]);
    assert_eq!(index.floor(&9), None);
    assert_eq!(index.floor(&10), Some(0));
    assert_eq!(index.floor(&11), Some(0));
    assert_eq!(index.floor(&20), Some(1));
    assert_eq!(index.floor(&29), Some(1));
    assert_eq!(index.floor(&30), Some(2));
    assert_eq!(index.floor(&i64::MAX), Some(2));
    assert_eq!(index.floor(&i64::MIN), None);
}

#[test]
fn max_is_the_last_position() {
    let mut index = filled(&[20]);
    assert_eq!(index.max(), Some(0));
    index.insert(10);
    assert_eq!(index.max(), Some(1));
    assert_eq!(*index.key_at(1), 20);
    index.insert(30);
    assert_eq!(index.max(), Some(2));
    assert_eq!(*index.key_at(2), 30);
}

#[test]
fn remove_at_returns_the_key_and_closes_the_gap() {
    let mut index = filled(&[10, 20, 30, 40]);
    assert_eq!(index.remove_at(1), 20);
    assert_eq!(listed(&index), vec![10, 30, 40]);
    assert_eq!(index.remove_at(2), 40);
    assert_eq!(index.remove_at(0), 10);
    assert_eq!(listed(&index), vec![30]);
}

#[test]
fn remove_is_idempotent() {
    let mut index = filled(&[10, 20, 30]);
    assert!(index.remove(&20));
    assert!(!index.remove(&20));
    assert!(!index.remove(&25));
    assert_eq!(listed(&index), vec![10, 30]);
    assert_eq!(index.floor(&20), Some(0));
}

#[test]
fn many_keys_stay_searchable() {
    let mut index: OrderIndex<i64> = OrderIndex::new();
    for i in 0..200 {
        index.insert((i * 37) % 200 * 2);
    }
    assert_eq!(index.len(), 200);
    for i in 0..200 {
        assert_eq!(index.position(&(2 * i)), Some(i as usize));
        assert_eq!(index.floor(&(2 * i + 1)), Some(i as usize));
        assert_eq!(index.position(&(2 * i + 1)), None);
    }
}
