use skiplists::level::LEVELS;
use skiplists::lock_based::SkipList as Shared;
use skiplists::lock_free::{SkipList, SkipListError};

#[test]
fn lock_free_add_get_remove() {
    let list = SkipList::with_capacity(16);
    assert_eq!(list.get(1), Ok(None));
    assert_eq!(list.add(2, 20), Ok(true));
    assert_eq!(list.add(1, 10), Ok(true));
    assert_eq!(list.add(3, 30), Ok(true));
    assert_eq!(list.get(2), Ok(Some(20)));
    assert_eq!(list.remove(2), Ok(Some(20)));
    assert_eq!(list.get(2), Ok(None));
    assert_eq!(list.remove(2), Ok(None));
    assert_eq!(list.get(1), Ok(Some(10)));
    assert_eq!(list.get(3), Ok(Some(30)));
}

#[test]
fn lock_free_add_twice_keeps_first() {
    let list = SkipList::new();
    assert_eq!(list.add(9, 1), Ok(true));
    assert_eq!(list.add(9, 2), Ok(false));
    assert_eq!(list.get(9), Ok(Some(1)));
}

#[test]
fn lock_free_reports_full_arena() {
    let list = SkipList::with_capacity(2);
    assert_eq!(list.add(1, 1), Ok(true));
    assert_eq!(list.add(2, 2), Ok(true));
    assert_eq!(list.add(3, 3), Err(SkipListError::Full));
    assert_eq!(list.get(3), Ok(None));
}

#[test]
fn lock_free_round_trip_in_order() {
    let list = SkipList::with_capacity(1000);
    for k in (1..=1000u64).rev() {
        assert_eq!(list.add(k, k * 2), Ok(true));
    }
    for k in 1..=1000u64 {
        assert_eq!(list.get(k), Ok(Some(k * 2)));
    }
    for k in 1..=1000u64 {
        assert_eq!(list.remove(k), Ok(Some(k * 2)));
    }
    for k in 1..=1000u64 {
        assert_eq!(list.get(k), Ok(None));
    }
}

#[test]
fn lock_based_steps_single_thread() {
    let list = Shared::with_capacity(8);
    let mut preds = vec![0; LEVELS];
    let mut succs = vec![0; LEVELS];
    assert_eq!(list.find(5, &mut preds, &mut succs), Ok(None));
    let slot = list.claim_slot(5, 50).unwrap();
    let top = list.top_level(slot);
    assert!(list.can_link(&preds, &succs, top));
    list.splice(slot, &preds, &succs);
    assert_eq!(list.get(5), Ok(Some(50)));
    let level = list.find(5, &mut preds, &mut succs).unwrap().unwrap();
    assert_eq!(level, top);
    assert_eq!(succs[level], slot);
    assert!(list.can_remove(slot, level));
    assert!(list.mark(slot));
    assert!(!list.mark(slot));
    assert_eq!(list.get(5), Ok(None));
    assert!(list.can_unlink(&preds, slot, top));
    assert_eq!(list.unlink(&preds, slot), 50);
    assert_eq!(list.find(5, &mut preds, &mut succs), Ok(None));
}
