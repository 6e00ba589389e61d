use crate::key::{key_lt, Key};
use crate::level::{random_level, LEVELS, MAX_LEVEL};
use crate::markable_atomic_ptr::{MarkableAtomicPtr, MAX_INDEX};
use std::sync::atomic::{AtomicU64, AtomicUsize, Ordering};
use vstd::prelude::*;

verus! {

/// Arena index of the head sentinel.
pub const HEAD: usize = 0;

/// Arena index of the tail sentinel.
pub const TAIL: usize = 1;

/// Number of slots `new` reserves for real nodes.
pub const DEFAULT_CAPACITY: usize = 65536;

/// Number of steps (link reads and retries) one operation may take before it
/// gives up and reports contention.
pub const STEP_BUDGET: u64 = 0x10_0000_0000;

/// Why a concurrent operation gave up.
#[derive(PartialEq, Eq, Structural, Clone, Copy, Debug)]
pub enum SkipListError {
    /// The operation used up its step budget without making progress.
    Contention,
    /// Every slot of the arena has been handed out.
    Full,
}

/// One arena slot. Its height is fixed when the arena is built; its key and
/// value are written by the `add` that claims it, before the slot is linked.
pub struct Entry {
    key: AtomicU64,
    value: AtomicU64,
    nexts: Vec<MarkableAtomicPtr>,
}

/// A lock-free skip list from `u64` keys to `u64` values.
///
/// Links carry a deletion mark: `remove` first marks a node's links from the
/// top down, and the mark on its level-0 link decides which remover wins.
/// Traversals unlink marked nodes they meet. Removed slots are not reused.
pub struct SkipList {
    slots: Vec<Entry>,
    next_free: AtomicUsize,
}

/// Spends one step of an operation's budget.
fn tick(budget: &mut u64) -> (r: Result<(), SkipListError>)
    ensures
        r is Ok ==> *final(budget) < *old(budget),
        r is Err ==> r->Err_0 == SkipListError::Contention && *old(budget) == 0 && *final(budget)
            == *old(budget),
{
    if *budget == 0 {
        Err(SkipListError::Contention)
    } else {
        *budget = *budget - 1;
        Ok(())
    }
}

/// What a traversal does at the node it stands before.
#[derive(PartialEq, Eq, Structural, Clone, Copy, Debug)]
pub enum Walk {
    /// The node is marked: swing the predecessor's link past it.
    Unlink,
    /// The node's key is below the target: step onto it.
    Advance,
    /// The node's key is at least the target: this level is done.
    Stop,
}

/// The traversal's choice at a node with the given mark and key.
pub open spec fn walk_next(marked: bool, key: Key, target: Key) -> Walk {
    if marked {
        Walk::Unlink
    } else if key_lt(key, target) {
        Walk::Advance
    } else {
        Walk::Stop
    }
}

/// Decides the traversal's next move from what was read at a node.
pub fn walk_step(marked: bool, key: Key, target: Key) -> (r: Walk)
    ensures
        r == walk_next(marked, key, target),
{
    if marked {
        Walk::Unlink
    } else if key.less_than(&target) {
        Walk::Advance
    } else {
        Walk::Stop
    }
}

/// What a read-only lookup does at the node it stands before.
#[derive(PartialEq, Eq, Structural, Clone, Copy, Debug)]
pub enum GetStep {
    /// The node is marked: look past it without changing anything.
    Skip,
    /// The node's key is below the target: step onto it.
    Advance,
    /// Level 0 holds the target here, unmarked.
    Found,
    /// Go down one level, or end the search at level 0.
    Descend,
}

/// The lookup's choice at a node with the given mark and key, at `level`.
pub open spec fn get_next(marked: bool, key: Key, target: Key, level: usize) -> GetStep {
    if marked {
        GetStep::Skip
    } else if key_lt(key, target) {
        GetStep::Advance
    } else if level == 0 && key == target {
        GetStep::Found
    } else {
        GetStep::Descend
    }
}

/// Decides the lookup's next move from what was read at a node.
pub fn get_step(marked: bool, key: Key, target: Key, level: usize) -> (r: GetStep)
    ensures
        r == get_next(marked, key, target, level),
{
    if marked {
        GetStep::Skip
    } else if key.less_than(&target) {
        GetStep::Advance
    } else if level == 0 && key.same_as(&target) {
        GetStep::Found
    } else {
        GetStep::Descend
    }
}

/// The outcome of a remover's attempt to mark a victim's level-0 link.
#[derive(PartialEq, Eq, Structural, Clone, Copy, Debug)]
pub enum RemoveStep {
    /// This call set the mark: it owns the removal.
    Won,
    /// Another remover's mark is already there.
    Lost,
    /// The link moved to another successor, unmarked: try again against it.
    Retry(usize),
}

/// What the compare-and-swap on the level-0 link decides.
pub open spec fn remove_next(cas: Result<usize, (usize, bool)>) -> RemoveStep {
    match cas {
        Ok(_) => RemoveStep::Won,
        Err((_, true)) => RemoveStep::Lost,
        Err((a, false)) => RemoveStep::Retry(a),
    }
}

/// Reads the outcome of the level-0 compare-and-swap of `remove`.
pub fn remove_outcome(cas: Result<usize, (usize, bool)>) -> (r: RemoveStep)
    ensures
        r == remove_next(cas),
{
    match cas {
        Ok(_) => RemoveStep::Won,
        Err((a, marked)) => if marked {
            RemoveStep::Lost
        } else {
            RemoveStep::Retry(a)
        },
    }
}

/// Whether a claimed slot number names a real slot of an arena of `len`
/// slots: the two sentinels and anything past the end do not.
pub fn claim_ok(claimed: usize, len: usize) -> (r: bool)
    ensures
        r == (2 <= claimed && claimed < len),
{
    2 <= claimed && claimed < len
}

impl Entry {
    /// Number of links in the slot's tower.
    pub closed spec fn tower_height(&self) -> nat {
        self.nexts@.len()
    }

    /// A slot with a tower of `top + 1` links, each to `target`, unmarked.
    pub fn new(top: usize, target: usize) -> (r: Entry)
        requires
            top <= MAX_LEVEL,
            target <= MAX_INDEX,
        ensures
            r.tower_height() == top + 1,
    {
        let mut nexts: Vec<MarkableAtomicPtr> = Vec::new();
        let mut l: usize = 0;
        while l <= top
            invariant
                l <= top + 1,
                top <= MAX_LEVEL,
                target <= MAX_INDEX,
                nexts@.len() == l,
            decreases top + 1 - l,
        {
            nexts.push(MarkableAtomicPtr::new(target, false));
            l = l + 1;
        }
        Entry { key: AtomicU64::new(0), value: AtomicU64::new(0), nexts }
    }
}

impl SkipList {
    /// The arena has its sentinels in place and every slot has a tower of at
    /// most `LEVELS` links.
    #[verifier::type_invariant]
    pub closed spec fn wf(&self) -> bool {
        &&& 2 <= self.slots@.len() <= MAX_INDEX
        &&& self.slots@[HEAD as int].nexts@.len() == LEVELS
        &&& forall|i: int|
            0 <= i < self.slots@.len() ==> 1 <= (#[trigger] self.slots@[i]).nexts@.len() <= LEVELS
    }

    /// Number of slots, sentinels included.
    pub closed spec fn slot_count(&self) -> nat {
        self.slots@.len()
    }

    /// An empty list with room for `DEFAULT_CAPACITY` nodes.
    pub fn new() -> (r: Self)
        ensures
            r.slot_count() == DEFAULT_CAPACITY + 2,
    {
        Self::with_capacity(DEFAULT_CAPACITY)
    }

    /// An empty list with room for `capacity` nodes; each slot's tower
    /// height is drawn from the level generator.
    pub fn with_capacity(capacity: usize) -> (r: Self)
        requires
            capacity <= MAX_INDEX - 2,
        ensures
            r.slot_count() == capacity + 2,
    {
        let mut slots: Vec<Entry> = Vec::new();
        slots.push(Entry::new(LEVELS - 1, TAIL));
        slots.push(Entry::new(LEVELS - 1, TAIL));
        let mut i: usize = 0;
        while i < capacity
            invariant
                i <= capacity,
                capacity <= MAX_INDEX - 2,
                slots@.len() == i + 2,
                slots@[HEAD as int].nexts@.len() == LEVELS,
                forall|j: int| 0 <= j < slots@.len() ==> 1 <= (#[trigger] slots@[j]).nexts@.len() <= LEVELS,
            decreases capacity - i,
        {
            slots.push(Entry::new(random_level(), TAIL));
            i = i + 1;
        }
        SkipList { slots, next_free: AtomicUsize::new(2) }
    }


    /// The key of slot `i`: the sentinels by position, any other slot by
    /// what its key cell holds.
    fn key_at(&self, i: usize) -> (r: Key)
        requires
            i < self.slot_count(),
        ensures
            i == HEAD ==> r == Key::Head,
            i == TAIL ==> r == Key::Tail,
            i != HEAD && i != TAIL ==> r is Entry,
    {
        if i == HEAD {
            Key::Head
        } else if i == TAIL {
            Key::Tail
        } else {
            Key::Entry(self.slots[i].key.load(Ordering::Acquire))
        }
    }

    /// Whether `i` names a slot with a link at `level`.
    fn links_at(&self, i: usize, level: usize) -> (r: bool)
        ensures
            r == (i < self.slot_count() && level < self.slots@[i as int].nexts@.len()),
    {
        i < self.slots.len() && level < self.slots[i].nexts.len()
    }

    /// Fills `preds` and `succs`: at each level, the last node seen whose key
    /// is below `target` and the first unmarked node after it. Marked nodes
    /// met on the way are unlinked; if that fails because the predecessor
    /// changed, the walk starts over. Yields whether `succs[0]` holds
    /// `target`.
    fn find(&self, target: Key, preds: &mut Vec<usize>, succs: &mut Vec<usize>, budget: &mut u64) -> (r:
        Result<bool, SkipListError>)
        requires
            old(preds)@.len() == LEVELS,
            old(succs)@.len() == LEVELS,
            target is Entry,
        ensures
            final(preds)@.len() == LEVELS,
            final(succs)@.len() == LEVELS,
            *final(budget) <= *old(budget),
            *old(budget) == 0 ==> r == Err::<bool, SkipListError>(SkipListError::Contention),
            r is Err ==> r->Err_0 == SkipListError::Contention,
            r matches Ok(true) ==> 2 <= final(succs)@[0] < self.slot_count(),
            r is Ok ==> forall|l: int|
                0 <= l < LEVELS ==> {
                    &&& #[trigger] final(preds)@[l] < self.slot_count()
                    &&& l < self.slots@[final(preds)@[l] as int].nexts@.len()
                    &&& final(succs)@[l] < self.slot_count()
                },
    {
        proof {
            use_type_invariant(self);
        }
        if *budget == 0 {
            return Err(SkipListError::Contention);
        }
        loop
            invariant
                preds@.len() == LEVELS,
                succs@.len() == LEVELS,
                target is Entry,
                *budget <= *old(budget),
                self.wf(),
            decreases *budget,
        {
            if let Err(e) = tick(budget) {
                return Err(e);
            }
            let ghost start = *budget;
            let mut restart = false;
            let mut pred: usize = HEAD;
            let mut level: usize = LEVELS;
            while level > 0 && !restart
                invariant
                    preds@.len() == LEVELS,
                    succs@.len() == LEVELS,
                    *budget <= start,
                    start <= *old(budget),
                    self.wf(),
                    level <= LEVELS,
                    !restart ==> forall|j: int|
                        level <= j < LEVELS ==> {
                            &&& #[trigger] preds@[j] < self.slot_count()
                            &&& j < self.slots@[preds@[j] as int].nexts@.len()
                            &&& succs@[j] < self.slot_count()
                        },
                    pred < self.slot_count(),
                    level > 0 ==> level - 1 < self.slots@[pred as int].nexts@.len(),
                decreases level,
            {
                let l = level - 1;
                let mut curr: usize = self.slots[pred].nexts[l].load_ptr(Ordering::Acquire);
                loop
                    invariant
                        preds@.len() == LEVELS,
                        succs@.len() == LEVELS,
                        *budget <= start,
                        start <= *old(budget),
                        self.wf(),
                        l < LEVELS,
                        l + 1 == level,
                        forall|j: int|
                            level <= j < LEVELS ==> {
                                &&& #[trigger] preds@[j] < self.slot_count()
                                &&& j < self.slots@[preds@[j] as int].nexts@.len()
                                &&& succs@[j] < self.slot_count()
                            },
                        pred < self.slot_count(),
                        l < self.slots@[pred as int].nexts@.len(),
                        curr <= MAX_INDEX,
                    ensures
                        restart || curr == TAIL || (curr < self.slot_count() && l
                            < self.slots@[curr as int].nexts@.len()),
                        l < self.slots@[pred as int].nexts@.len(),
                        pred < self.slot_count(),
                    decreases *budget,
                {
                    if let Err(e) = tick(budget) {
                return Err(e);
            }
                    if curr == TAIL {
                        break;
                    }
                    if !self.links_at(curr, l) {
                        restart = true;
                        break;
                    }
                    let (succ, marked) = self.slots[curr].nexts[l].load(Ordering::Acquire);
                    let step = walk_step(marked, self.key_at(curr), target);
                    if step == Walk::Unlink {
                        match self.slots[pred].nexts[l].compare_exchange(
                            curr,
                            succ,
                            false,
                            false,
                            Ordering::Release,
                            Ordering::Acquire,
                        ) {
                            Ok(_) => {
                                curr = succ;
                            },
                            Err(_) => {
                                restart = true;
                                break;
                            },
                        }
                    } else if step == Walk::Advance {
                        pred = curr;
                        curr = succ;
                    } else {
                        break;
                    }
                }
                if !restart {
                    let ghost prev_preds = preds@;
                    let ghost prev_succs = succs@;
                    preds.set(l, pred);
                    succs.set(l, curr);
                    proof {
                        assert(curr < self.slot_count());
                        assert forall|j: int| l <= j < LEVELS implies {
                            &&& #[trigger] preds@[j] < self.slot_count()
                            &&& j < self.slots@[preds@[j] as int].nexts@.len()
                            &&& succs@[j] < self.slot_count()
                        } by {
                            if j > l {
                                assert(preds@[j] == prev_preds[j]);
                                assert(succs@[j] == prev_succs[j]);
                            }
                        }
                    }
                }
                level = l;
            }
            if !restart {
                proof {
                    assert(preds@[0] < self.slot_count());
                }
                let found = self.key_at(succs[0]).same_as(&target);
                return Ok(found);
            }
        }
    }

    /// A vector with one slot per level, every entry naming the head.
    pub fn empty_levels() -> (r: Vec<usize>)
        ensures
            r@.len() == LEVELS,
    {
        let mut v: Vec<usize> = Vec::new();
        let mut l: usize = 0;
        while l < LEVELS
            invariant
                l <= LEVELS,
                v@.len() == l,
            decreases LEVELS - l,
        {
            v.push(HEAD);
            l = l + 1;
        }
        v
    }

    /// Inserts `key` with `value` unless a node with that key is reachable.
    /// `Ok(true)`: inserted; `Ok(false)`: already present, nothing changed.
    pub fn add(&self, key: u64, value: u64) -> (r: Result<bool, SkipListError>)
        ensures
            r is Err ==> r->Err_0 == SkipListError::Contention || r->Err_0 == SkipListError::Full,
    {
        proof {
            use_type_invariant(self);
        }
        let target = Key::Entry(key);
        let mut preds = Self::empty_levels();
        let mut succs = Self::empty_levels();
        let mut budget: u64 = STEP_BUDGET;
        match self.find(target, &mut preds, &mut succs, &mut budget) {
            Err(e) => return Err(e),
            Ok(true) => return Ok(false),
            Ok(false) => {},
        }
        let claimed = self.next_free.fetch_add(1, Ordering::AcqRel);
        if !claim_ok(claimed, self.slots.len()) {
            return Err(SkipListError::Full);
        }
        let slot = claimed;
        let node = &self.slots[slot];
        node.key.store(key, Ordering::Relaxed);
        node.value.store(value, Ordering::Relaxed);
        let top = node.nexts.len() - 1;
        let mut fresh = true;
        loop
            invariant
                self.wf(),
                target == Key::Entry(key),
                preds@.len() == LEVELS,
                succs@.len() == LEVELS,
                2 <= slot < self.slot_count(),
                top + 1 == self.slots@[slot as int].nexts@.len(),
                top < LEVELS,
                forall|j: int|
                    0 <= j < LEVELS ==> {
                        &&& #[trigger] preds@[j] < self.slot_count()
                        &&& j < self.slots@[preds@[j] as int].nexts@.len()
                        &&& succs@[j] < self.slot_count()
                    },
            decreases budget,
        {
            if let Err(e) = tick(&mut budget) {
                return Err(e);
            }
            if fresh {
                fresh = false;
            } else {
                match self.find(target, &mut preds, &mut succs, &mut budget) {
                    Err(e) => return Err(e),
                    Ok(true) => return Ok(false),
                    Ok(false) => {},
                }
            }
            let mut l: usize = 0;
            while l <= top
                invariant
                    l <= top + 1,
                    top < LEVELS,
                    top + 1 == self.slots@[slot as int].nexts@.len(),
                    2 <= slot < self.slot_count(),
                    preds@.len() == LEVELS,
                    succs@.len() == LEVELS,
                    forall|j: int|
                        0 <= j < LEVELS ==> {
                            &&& #[trigger] preds@[j] < self.slot_count()
                            &&& j < self.slots@[preds@[j] as int].nexts@.len()
                            &&& succs@[j] < self.slot_count()
                        },
                    self.wf(),
                    target == Key::Entry(key),
                target == Key::Entry(key),
                decreases top + 1 - l,
            {
                proof {
                    assert(preds@[l as int] < self.slot_count());
                }
                self.slots[slot].nexts[l].store(succs[l], false, Ordering::Relaxed);
                l = l + 1;
            }
            if self.slots[preds[0]].nexts[0].compare_exchange(
                succs[0],
                slot,
                false,
                false,
                Ordering::Release,
                Ordering::Relaxed,
            ).is_err() {
                continue ;
            }
            let mut l: usize = 1;
            while l <= top
                invariant
                    1 <= l <= top + 1,
                    top < LEVELS,
                    top + 1 == self.slots@[slot as int].nexts@.len(),
                    2 <= slot < self.slot_count(),
                    preds@.len() == LEVELS,
                    succs@.len() == LEVELS,
                    forall|j: int|
                        0 <= j < LEVELS ==> {
                            &&& #[trigger] preds@[j] < self.slot_count()
                            &&& j < self.slots@[preds@[j] as int].nexts@.len()
                            &&& succs@[j] < self.slot_count()
                        },
                    self.wf(),
                    target == Key::Entry(key),
                target == Key::Entry(key),
                decreases top + 1 - l, budget,
            {
                let linked = self.slots[preds[l]].nexts[l].compare_exchange(
                    succs[l],
                    slot,
                    false,
                    false,
                    Ordering::Release,
                    Ordering::Relaxed,
                );
                if linked.is_ok() {
                    l = l + 1;
                } else {
                    if let Err(e) = tick(&mut budget) {
                    return Err(e);
                }
                    if let Err(e) = self.find(target, &mut preds, &mut succs, &mut budget) {
                        return Err(e);
                    }
                    proof {
                        assert(preds@[l as int] < self.slot_count());
                    }
                    self.slots[slot].nexts[l].store(succs[l], false, Ordering::Relaxed);
                }
            }
            return Ok(true);
        }
    }

    /// Removes `key` and yields its value. Of several concurrent removers of
    /// one node, only the one whose mark lands on its level-0 link gets
    /// `Some`; the others get `None`, as does a remover of an absent key.
    pub fn remove(&self, key: u64) -> (r: Result<Option<u64>, SkipListError>)
        ensures
            r is Err ==> r->Err_0 == SkipListError::Contention,
    {
        proof {
            use_type_invariant(self);
        }
        let target = Key::Entry(key);
        let mut preds = Self::empty_levels();
        let mut succs = Self::empty_levels();
        let mut budget: u64 = STEP_BUDGET;
        match self.find(target, &mut preds, &mut succs, &mut budget) {
            Err(e) => return Err(e),
            Ok(false) => return Ok(None),
            Ok(true) => {},
        }
        proof {
            assert(preds@[0] < self.slot_count());
        }
        let victim = succs[0];
        let node = &self.slots[victim];
        proof {
            assert(1 <= self.slots@[victim as int].nexts@.len());
        }
        let mut level: usize = node.nexts.len() - 1;
        while level > 0
            invariant
                level < node.nexts@.len(),
            decreases level,
        {
            loop
                invariant
                    level < node.nexts@.len(),
                decreases budget,
            {
                let (succ, marked) = node.nexts[level].load(Ordering::Acquire);
                if marked {
                    break;
                }
                if let Err(e) = tick(&mut budget) {
                    return Err(e);
                }
                let _ = node.nexts[level].compare_exchange(
                    succ,
                    succ,
                    false,
                    true,
                    Ordering::Release,
                    Ordering::Relaxed,
                );
            }
            level = level - 1;
        }
        let mut succ: usize = node.nexts[0].load_ptr(Ordering::Acquire);
        loop
            invariant
                1 <= node.nexts@.len(),
                succ <= MAX_INDEX,
                target == Key::Entry(key),
                preds@.len() == LEVELS,
                succs@.len() == LEVELS,
            decreases budget,
        {
            if let Err(e) = tick(&mut budget) {
                return Err(e);
            }
            let cas = node.nexts[0].compare_exchange(
                succ,
                succ,
                false,
                true,
                Ordering::Release,
                Ordering::Acquire,
            );
            match remove_outcome(cas) {
                RemoveStep::Won => {
                    let value = node.value.load(Ordering::Acquire);
                    let _ = self.find(target, &mut preds, &mut succs, &mut budget);
                    return Ok(Some(value));
                },
                RemoveStep::Lost => {
                    return Ok(None);
                },
                RemoveStep::Retry(actual) => {
                    succ = actual;
                },
            }
        }
    }

    /// The value held for `key`, if a node with that key is reachable and
    /// not marked. Reads only: marked nodes are stepped over, not unlinked.
    pub fn get(&self, key: u64) -> (r: Result<Option<u64>, SkipListError>)
        ensures
            r is Err ==> r->Err_0 == SkipListError::Contention,
    {
        proof {
            use_type_invariant(self);
        }
        let target = Key::Entry(key);
        let mut budget: u64 = STEP_BUDGET;
        let mut pred: usize = HEAD;
        let mut level: usize = LEVELS;
        while level > 0
            invariant
                self.wf(),
                level <= LEVELS,
                pred < self.slot_count(),
                level > 0 ==> level - 1 < self.slots@[pred as int].nexts@.len(),
            decreases level,
        {
            let l = level - 1;
            let mut curr: usize = self.slots[pred].nexts[l].load_ptr(Ordering::Acquire);
            loop
                invariant
                    self.wf(),
                    l < LEVELS,
                    pred < self.slot_count(),
                    l < self.slots@[pred as int].nexts@.len(),
                    curr <= MAX_INDEX,
                decreases budget,
            {
                if let Err(e) = tick(&mut budget) {
                    return Err(e);
                }
                if curr == TAIL {
                    break;
                }
                if !self.links_at(curr, l) {
                    return Err(SkipListError::Contention);
                }
                let (succ, marked) = self.slots[curr].nexts[l].load(Ordering::Acquire);
                match get_step(marked, self.key_at(curr), target, l) {
                    GetStep::Skip => {
                        curr = succ;
                    },
                    GetStep::Advance => {
                        pred = curr;
                        curr = succ;
                    },
                    GetStep::Found => {
                        return Ok(Some(self.slots[curr].value.load(Ordering::Acquire)));
                    },
                    GetStep::Descend => {
                        break;
                    },
                }
            }
            level = l;
        }
        Ok(None)
    }
}

} // verus!
