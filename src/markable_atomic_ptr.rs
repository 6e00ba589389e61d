use std::sync::atomic::{AtomicUsize, Ordering};
use vstd::prelude::*;

verus! {

/// The largest arena index a markable link can carry: one bit of the word is
/// the mark.
pub const MAX_INDEX: usize = usize::MAX / 2;

/// The word that stores `index` together with `mark` in its lowest bit.
pub open spec fn pack(index: usize, mark: bool) -> int {
    index * 2 + if mark {
        1int
    } else {
        0int
    }
}

/// Packs an index and a mark into one word.
pub fn encode(index: usize, mark: bool) -> (r: usize)
    requires
        index <= MAX_INDEX,
    ensures
        r == pack(index, mark),
{
    index * 2 + if mark {
        1usize
    } else {
        0usize
    }
}

/// Splits a word into its index and its mark.
pub fn decode(word: usize) -> (r: (usize, bool))
    ensures
        r.0 <= MAX_INDEX,
        pack(r.0, r.1) == word,
        r.0 == word / 2,
        r.1 == (word % 2 == 1),
{
    (word / 2, word % 2 == 1)
}

/// A link to an arena slot that carries one extra "logically deleted" bit;
/// index and bit are read and replaced together by single atomic operations.
#[derive(Debug)]
pub struct MarkableAtomicPtr {
    ptr: AtomicUsize,
}

impl MarkableAtomicPtr {
    /// A link to `ptr` with the given mark.
    pub fn new(ptr: usize, mark: bool) -> (r: Self)
        requires
            ptr <= MAX_INDEX,
    {
        MarkableAtomicPtr { ptr: AtomicUsize::new(encode(ptr, mark)) }
    }

    /// The index the link currently holds, without its mark.
    pub fn load_ptr(&self, order: Ordering) -> (r: usize)
        ensures
            r <= MAX_INDEX,
    {
        decode(self.ptr.load(order)).0
    }

    /// The index and the mark the link currently holds, read together.
    pub fn load(&self, order: Ordering) -> (r: (usize, bool))
        ensures
            r.0 <= MAX_INDEX,
    {
        decode(self.ptr.load(order))
    }

    /// Replaces index and mark together.
    pub fn store(&self, ptr: usize, mark: bool, order: Ordering)
        requires
            ptr <= MAX_INDEX,
    {
        self.ptr.store(encode(ptr, mark), order)
    }

    /// Replaces `(expect, expect_mark)` by `(new, new_mark)` if the link holds
    /// exactly the former. On success yields the index it held; on failure
    /// the index and mark it holds instead.
    pub fn compare_exchange(
        &self,
        expect: usize,
        new: usize,
        expect_mark: bool,
        new_mark: bool,
        succ_order: Ordering,
        fail_order: Ordering,
    ) -> (r: Result<usize, (usize, bool)>)
        requires
            expect <= MAX_INDEX,
            new <= MAX_INDEX,
        ensures
            r is Ok ==> r->Ok_0 <= MAX_INDEX,
            r is Err ==> r->Err_0.0 <= MAX_INDEX,
    {
        match self.ptr.compare_exchange(
            encode(expect, expect_mark),
            encode(new, new_mark),
            succ_order,
            fail_order,
        ) {
            Ok(word) => Ok(decode(word).0),
            Err(word) => Err(decode(word)),
        }
    }
}

} // verus!
