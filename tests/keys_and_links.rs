use skiplists::key::{default_cmp, Key};
use skiplists::level::{level_from_bits, random_level, MAX_LEVEL};
use skiplists::markable_atomic_ptr::{decode, encode, MarkableAtomicPtr, MAX_INDEX};
use std::cmp::Ordering;
use std::sync::atomic::Ordering::{Acquire, Relaxed, Release};

#[test]
fn sentinels_bound_real_keys() {
    assert_eq!(Key::Head.compare(&Key::Entry(0)), Ordering::Less);
    assert_eq!(Key::Tail.compare(&Key::Entry(u64::MAX)), Ordering::Greater);
    assert_eq!(Key::Entry(4).compare(&Key::Entry(9)), Ordering::Less);
    assert_eq!(Key::Entry(9).compare(&Key::Entry(9)), Ordering::Equal);
    assert_eq!(Key::Head.compare(&Key::Head), Ordering::Equal);
    assert!(Key::Head.less_than(&Key::Tail));
    assert!(!Key::Entry(3).same_as(&Key::Tail));
    assert_eq!(default_cmp(&2, &1), Ordering::Greater);
}

#[test]
fn level_counts_trailing_zero_bits() {
    assert_eq!(level_from_bits(1), 0);
    assert_eq!(level_from_bits(8), 3);
    assert_eq!(level_from_bits(0b1010_0000), 5);
    assert_eq!(level_from_bits(0), MAX_LEVEL);
    assert_eq!(level_from_bits(1 << 40), MAX_LEVEL);
    assert!(random_level() <= MAX_LEVEL);
}

#[test]
fn words_pack_index_and_mark() {
    assert_eq!(encode(5, true), 11);
    assert_eq!(encode(5, false), 10);
    assert_eq!(decode(11), (5, true));
    assert_eq!(decode(encode(MAX_INDEX, true)), (MAX_INDEX, true));
}

#[test]
fn markable_link_swaps_index_and_mark_together() {
    let link = MarkableAtomicPtr::new(7, false);
    assert_eq!(link.load(Acquire), (7, false));
    assert_eq!(link.load_ptr(Acquire), 7);
    assert_eq!(link.compare_exchange(7, 7, false, true, Release, Relaxed), Ok(7));
    assert_eq!(link.load(Acquire), (7, true));
    assert_eq!(link.compare_exchange(7, 9, false, false, Release, Relaxed), Err((7, true)));
    link.store(3, false, Relaxed);
    assert_eq!(link.load(Acquire), (3, false));
}
