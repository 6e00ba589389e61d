use std::cmp::Ordering;
use vstd::prelude::*;

verus! {

/// A key extended with two sentinels: `Head` sorts below every real key and
/// `Tail` above every real key.
#[derive(PartialEq, Eq, Structural, Clone, Copy, Debug)]
pub enum Key {
    Head,
    Entry(u64),
    Tail,
}

/// Position of a key's variant: head, then real keys, then tail.
pub open spec fn rank(k: Key) -> int {
    match k {
        Key::Head => 0,
        Key::Entry(_) => 1,
        Key::Tail => 2,
    }
}

/// The total order on keys: sentinels at the ends, real keys by value.
pub open spec fn key_lt(a: Key, b: Key) -> bool {
    match (a, b) {
        (Key::Entry(x), Key::Entry(y)) => x < y,
        _ => rank(a) < rank(b),
    }
}

/// Three-way comparison of two keys as an `Ordering`.
pub open spec fn key_cmp(a: Key, b: Key) -> Ordering {
    if key_lt(a, b) {
        Ordering::Less
    } else if a == b {
        Ordering::Equal
    } else {
        Ordering::Greater
    }
}

/// The natural order on `u64`, the default comparator of every skip list.
pub fn default_cmp(k1: &u64, k2: &u64) -> (r: Ordering)
    ensures
        r == key_cmp(Key::Entry(*k1), Key::Entry(*k2)),
        (r == Ordering::Less) == (*k1 < *k2),
        (r == Ordering::Equal) == (*k1 == *k2),
        (r == Ordering::Greater) == (*k1 > *k2),
{
    if *k1 < *k2 {
        Ordering::Less
    } else if *k1 == *k2 {
        Ordering::Equal
    } else {
        Ordering::Greater
    }
}

impl Key {
    /// Compares two keys in the sentinel-extended order.
    pub fn compare(&self, other: &Key) -> (r: Ordering)
        ensures
            r == key_cmp(*self, *other),
    {
        match (self, other) {
            (Key::Entry(a), Key::Entry(b)) => default_cmp(a, b),
            _ => {
                let (ra, rb) = (self.rank_of(), other.rank_of());
                if ra < rb {
                    Ordering::Less
                } else if ra == rb {
                    Ordering::Equal
                } else {
                    Ordering::Greater
                }
            },
        }
    }

    fn rank_of(&self) -> (r: u8)
        ensures
            r as int == rank(*self),
    {
        match self {
            Key::Head => 0,
            Key::Entry(_) => 1,
            Key::Tail => 2,
        }
    }

    /// Whether `self` sorts strictly before `other`.
    pub fn less_than(&self, other: &Key) -> (r: bool)
        ensures
            r == key_lt(*self, *other),
    {
        match self.compare(other) {
            Ordering::Less => true,
            _ => false,
        }
    }

    /// Whether the two keys are the same key.
    pub fn same_as(&self, other: &Key) -> (r: bool)
        ensures
            r == (*self == *other),
    {
        match (self, other) {
            (Key::Head, Key::Head) => true,
            (Key::Tail, Key::Tail) => true,
            (Key::Entry(a), Key::Entry(b)) => *a == *b,
            _ => false,
        }
    }
}

} // verus!
