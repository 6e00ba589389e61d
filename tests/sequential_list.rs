use rand::seq::SliceRandom;
use skiplists::sequential::{SkipList, HEAD};

#[test]
fn empty_list_holds_nothing() {
    let mut list: SkipList<u64> = SkipList::new();
    assert_eq!(list.get(7), None);
    assert_eq!(list.remove(7), None);
    assert_eq!(HEAD, 0);
}

#[test]
fn add_twice_keeps_first_value() {
    let mut list: SkipList<&str> = SkipList::new();
    let first = list.add(5, "v1");
    let second = list.add(5, "v2");
    assert_eq!((first, second), (true, false));
    assert_eq!(list.get(5), Some(&"v1"));
}

#[test]
fn round_trip_shuffled_thousand() {
    let mut rng = rand::thread_rng();
    let mut keys: Vec<u64> = (1..=1000).collect();
    keys.shuffle(&mut rng);
    let mut list: SkipList<u64> = SkipList::new();
    for k in keys.iter() {
        assert!(list.add(*k, *k));
    }
    for i in 1..=1000u64 {
        assert_eq!(list.get(i), Some(&i));
    }
    keys.shuffle(&mut rng);
    for k in keys.iter() {
        assert_eq!(list.remove(*k), Some(*k));
    }
    for i in 1..=1000u64 {
        assert_eq!(list.get(i), None);
        assert_eq!(list.remove(i), None);
    }
}

#[test]
fn remove_only_once() {
    let mut list: SkipList<u64> = SkipList::new();
    assert!(list.add(3, 30));
    assert_eq!(list.remove(3), Some(30));
    assert_eq!(list.remove(3), None);
    assert!(list.add(3, 31));
    assert_eq!(list.get(3), Some(&31));
}

#[test]
fn towers_of_extreme_heights() {
    let mut list: SkipList<u64> = SkipList::new();
    assert!(list.add_with_level(10, 100, 32));
    assert!(list.add_with_level(5, 50, 0));
    assert!(list.add_with_level(u64::MAX, 1, 32));
    assert!(list.add_with_level(0, 2, 7));
    assert!(!list.add_with_level(5, 51, 3));
    assert_eq!(list.get(5), Some(&50));
    assert_eq!(list.get(10), Some(&100));
    assert_eq!(list.get(0), Some(&2));
    assert_eq!(list.get(u64::MAX), Some(&1));
    assert_eq!(list.remove(10), Some(100));
    assert_eq!(list.get(5), Some(&50));
    assert_eq!(list.get(10), None);
    assert_eq!(list.get(u64::MAX), Some(&1));
}
