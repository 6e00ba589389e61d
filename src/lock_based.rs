use crate::key::Key;
use crate::level::{random_level, LEVELS, MAX_LEVEL};
use crate::lock_free::{claim_ok, SkipListError, DEFAULT_CAPACITY, HEAD, STEP_BUDGET, TAIL};
use std::sync::atomic::{AtomicBool, AtomicU64, AtomicUsize, Ordering};
use vstd::prelude::*;

verus! {

/// One arena slot of the lock-based list. `marked` is its logical deletion,
/// `fully_linked` is set once every level has been spliced in; readers do not
/// see a node before that.
pub struct Entry {
    key: AtomicU64,
    value: AtomicU64,
    marked: AtomicBool,
    fully_linked: AtomicBool,
    nexts: Vec<AtomicUsize>,
}

/// The shared state of a skip list with optimistic fine-grained locking.
///
/// Traversals take no locks. A writer locks the predecessors it is about to
/// change (one lock per slot, held by the caller), checks with `can_link` or
/// `can_unlink` that what it saw still holds, and only then splices or
/// unlinks. Slots are addressed by index and never reused.
pub struct SkipList {
    slots: Vec<Entry>,
    next_free: AtomicUsize,
}

/// A predecessor check during validation: neither end is marked and the
/// predecessor's link still names the expected successor.
pub fn link_valid(pred_marked: bool, succ_marked: bool, link: usize, succ: usize) -> (r: bool)
    ensures
        r == (!pred_marked && !succ_marked && link == succ),
{
    !pred_marked && !succ_marked && link == succ
}

/// A node may be removed when it is fully linked, was first met at its own
/// top level, and is not marked yet.
pub fn removable(fully_linked: bool, top: usize, level_found: usize, marked: bool) -> (r: bool)
    ensures
        r == (fully_linked && top == level_found && !marked),
{
    fully_linked && top == level_found && !marked
}

/// Readers see a node only once it is fully linked and while it is unmarked.
pub fn visible(fully_linked: bool, marked: bool) -> (r: bool)
    ensures
        r == (fully_linked && !marked),
{
    fully_linked && !marked
}

/// The predecessors of levels `0..=top` with each run of repeats kept once,
/// in level order: the locks an operation takes.
pub open spec fn distinct_prefix(preds: Seq<usize>, top: int) -> Seq<usize>
    decreases top + 1,
{
    if top < 0 {
        Seq::empty()
    } else if top == 0 || preds[top] != preds[top - 1] {
        distinct_prefix(preds, top - 1).push(preds[top])
    } else {
        distinct_prefix(preds, top - 1)
    }
}

/// The slots whose locks guard levels `0..=top`, each taken once.
pub fn distinct_preds(preds: &Vec<usize>, top: usize) -> (r: Vec<usize>)
    requires
        top < preds@.len(),
        top <= MAX_LEVEL,
    ensures
        r@ == distinct_prefix(preds@, top as int),
{
    let mut r: Vec<usize> = Vec::new();
    let mut l: usize = 0;
    while l <= top
        invariant
            top < preds@.len(),
            top <= MAX_LEVEL,
            l <= top + 1,
            r@ == distinct_prefix(preds@, l - 1),
        decreases top + 1 - l,
    {
        if l == 0 || preds[l] != preds[l - 1] {
            r.push(preds[l]);
        }
        l = l + 1;
    }
    r
}

/// Where a lock-based `add` stands.
#[derive(PartialEq, Eq, Structural, Clone, Copy, Debug)]
pub enum AddState {
    /// No slot claimed yet.
    Searching,
    /// Holding a claimed, unlinked slot.
    Holding(usize),
}

/// What the caller observed since the last step.
#[derive(PartialEq, Eq, Structural, Clone, Copy, Debug)]
pub enum AddEvent {
    /// The traversal met a node with the key, with these flags.
    Present { marked: bool, fully_linked: bool },
    /// The traversal met no node with the key.
    Absent,
    /// A slot was claimed.
    ClaimedSlot(usize),
    /// No slot could be claimed.
    ClaimFailed(SkipListError),
    /// The locked predecessors were checked with `can_link`.
    Validated(bool),
}

/// What the caller does next.
#[derive(PartialEq, Eq, Structural, Clone, Copy, Debug)]
pub enum AddAction {
    /// Return `false`: the key is present.
    ReportPresent,
    /// Spin, then look at the found node's flags again.
    Wait,
    /// Release any locks and traverse again.
    Find,
    /// Claim a slot for the new node.
    Claim,
    /// Lock the distinct predecessors of the slot's levels and validate.
    Validate(usize),
    /// Splice the slot in, release the locks and return `true`.
    Splice(usize),
    /// Return the error.
    Fail(SkipListError),
}

/// The protocol of `add` with optimistic fine-grained locking.
pub open spec fn add_next(s: AddState, e: AddEvent) -> (AddState, AddAction) {
    match e {
        AddEvent::Present { marked, fully_linked } => if marked {
            (s, AddAction::Find)
        } else if fully_linked {
            (s, AddAction::ReportPresent)
        } else {
            (s, AddAction::Wait)
        },
        AddEvent::Absent => match s {
            AddState::Searching => (s, AddAction::Claim),
            AddState::Holding(slot) => (s, AddAction::Validate(slot)),
        },
        AddEvent::ClaimedSlot(slot) => (AddState::Holding(slot), AddAction::Validate(slot)),
        AddEvent::ClaimFailed(err) => (s, AddAction::Fail(err)),
        AddEvent::Validated(ok) => match s {
            AddState::Holding(slot) => if ok {
                (s, AddAction::Splice(slot))
            } else {
                (s, AddAction::Find)
            },
            AddState::Searching => (s, AddAction::Find),
        },
    }
}

/// One step of `add`: the next state and what to do.
pub fn add_step(s: AddState, e: AddEvent) -> (r: (AddState, AddAction))
    ensures
        r == add_next(s, e),
{
    match e {
        AddEvent::Present { marked, fully_linked } => if marked {
            (s, AddAction::Find)
        } else if fully_linked {
            (s, AddAction::ReportPresent)
        } else {
            (s, AddAction::Wait)
        },
        AddEvent::Absent => match s {
            AddState::Searching => (s, AddAction::Claim),
            AddState::Holding(slot) => (s, AddAction::Validate(slot)),
        },
        AddEvent::ClaimedSlot(slot) => (AddState::Holding(slot), AddAction::Validate(slot)),
        AddEvent::ClaimFailed(err) => (s, AddAction::Fail(err)),
        AddEvent::Validated(ok) => match s {
            AddState::Holding(slot) => if ok {
                (s, AddAction::Splice(slot))
            } else {
                (s, AddAction::Find)
            },
            AddState::Searching => (s, AddAction::Find),
        },
    }
}

/// Where a lock-based `remove` stands.
#[derive(PartialEq, Eq, Structural, Clone, Copy, Debug)]
pub enum RemoveState {
    /// No victim chosen yet.
    Searching,
    /// Victim and its top level chosen; its lock is being taken to mark it.
    Marking(usize, usize),
    /// This call marked the victim and owns its removal.
    Owning(usize, usize),
}

/// What the caller observed since the last step.
#[derive(PartialEq, Eq, Structural, Clone, Copy, Debug)]
pub enum RemoveEvent {
    /// The traversal met `node` with the key, first at `level`.
    Found { node: usize, level: usize, removable: bool },
    /// The traversal met no node with the key.
    Absent,
    /// `mark` ran under the victim's lock; whether it set the mark.
    Marked(bool),
    /// The locked predecessors were checked with `can_unlink`.
    Validated(bool),
}

/// What the caller does next.
#[derive(PartialEq, Eq, Structural, Clone, Copy, Debug)]
pub enum RemoveAction {
    /// Return `None`.
    ReportAbsent,
    /// Lock the node and try to mark it.
    Mark(usize),
    /// Release the predecessors' locks and traverse again.
    Find,
    /// Lock the distinct predecessors of levels `0..=top` and validate.
    Validate(usize, usize),
    /// Unlink the node, release every lock and return its value.
    Unlink(usize),
}

/// The protocol of `remove` with optimistic fine-grained locking. The mark
/// is set once, by the one caller that moves to `Owning`.
pub open spec fn remove_next(s: RemoveState, e: RemoveEvent) -> (RemoveState, RemoveAction) {
    match (s, e) {
        (RemoveState::Searching, RemoveEvent::Found { node, level, removable }) => if removable {
            (RemoveState::Marking(node, level), RemoveAction::Mark(node))
        } else {
            (s, RemoveAction::ReportAbsent)
        },
        (RemoveState::Marking(node, top), RemoveEvent::Marked(won)) => if won {
            (RemoveState::Owning(node, top), RemoveAction::Validate(node, top))
        } else {
            (s, RemoveAction::ReportAbsent)
        },
        (RemoveState::Owning(node, top), RemoveEvent::Validated(ok)) => if ok {
            (s, RemoveAction::Unlink(node))
        } else {
            (s, RemoveAction::Find)
        },
        (RemoveState::Owning(node, top), RemoveEvent::Found { .. }) => (
            s,
            RemoveAction::Validate(node, top),
        ),
        (RemoveState::Owning(node, top), RemoveEvent::Absent) => (
            s,
            RemoveAction::Validate(node, top),
        ),
        _ => (s, RemoveAction::ReportAbsent),
    }
}

/// One step of `remove`: the next state and what to do.
pub fn remove_step(s: RemoveState, e: RemoveEvent) -> (r: (RemoveState, RemoveAction))
    ensures
        r == remove_next(s, e),
{
    match (s, e) {
        (RemoveState::Searching, RemoveEvent::Found { node, level, removable }) => if removable {
            (RemoveState::Marking(node, level), RemoveAction::Mark(node))
        } else {
            (s, RemoveAction::ReportAbsent)
        },
        (RemoveState::Marking(node, top), RemoveEvent::Marked(won)) => if won {
            (RemoveState::Owning(node, top), RemoveAction::Validate(node, top))
        } else {
            (s, RemoveAction::ReportAbsent)
        },
        (RemoveState::Owning(node, top), RemoveEvent::Validated(ok)) => if ok {
            (s, RemoveAction::Unlink(node))
        } else {
            (s, RemoveAction::Find)
        },
        (RemoveState::Owning(node, top), RemoveEvent::Found { .. }) => (
            s,
            RemoveAction::Validate(node, top),
        ),
        (RemoveState::Owning(node, top), RemoveEvent::Absent) => (
            s,
            RemoveAction::Validate(node, top),
        ),
        _ => (s, RemoveAction::ReportAbsent),
    }
}

impl Entry {
    /// Number of links in the slot's tower.
    pub closed spec fn tower_height(&self) -> nat {
        self.nexts@.len()
    }

    /// An unlinked slot with a tower of `top + 1` links.
    pub fn new(top: usize) -> (r: Entry)
        requires
            top <= MAX_LEVEL,
        ensures
            r.tower_height() == top + 1,
    {
        let mut nexts: Vec<AtomicUsize> = Vec::new();
        let mut l: usize = 0;
        while l <= top
            invariant
                l <= top + 1,
                top <= MAX_LEVEL,
                nexts@.len() == l,
            decreases top + 1 - l,
        {
            nexts.push(AtomicUsize::new(TAIL));
            l = l + 1;
        }
        Entry {
            key: AtomicU64::new(0),
            value: AtomicU64::new(0),
            marked: AtomicBool::new(false),
            fully_linked: AtomicBool::new(false),
            nexts,
        }
    }
}

impl SkipList {
    /// The sentinels are in place and every slot's tower has between one and
    /// `LEVELS` links.
    #[verifier::type_invariant]
    pub closed spec fn wf(&self) -> bool {
        &&& 2 <= self.slots@.len()
        &&& self.slots@[HEAD as int].nexts@.len() == LEVELS
        &&& forall|i: int|
            0 <= i < self.slots@.len() ==> 1 <= (#[trigger] self.slots@[i]).nexts@.len() <= LEVELS
    }

    /// Number of slots, sentinels included.
    pub closed spec fn slot_count(&self) -> nat {
        self.slots@.len()
    }

    /// `preds` and `succs` name, at every level, slots that `find` could
    /// have reported: each predecessor has a link at that level.
    pub closed spec fn traced(&self, preds: Seq<usize>, succs: Seq<usize>) -> bool {
        &&& preds.len() == LEVELS
        &&& succs.len() == LEVELS
        &&& forall|l: int|
            0 <= l < LEVELS ==> {
                &&& #[trigger] preds[l] < self.slot_count()
                &&& l < self.height(preds[l] as int)
                &&& succs[l] < self.slot_count()
                &&& succs[l] == TAIL || l < self.height(succs[l] as int)
            }
    }

    /// The height of slot `i`'s tower.
    pub closed spec fn height(&self, i: int) -> nat {
        self.slots@[i].nexts@.len()
    }

    /// An empty list with room for `DEFAULT_CAPACITY` nodes.
    pub fn new() -> (r: Self)
        ensures
            r.slot_count() == DEFAULT_CAPACITY + 2,
    {
        Self::with_capacity(DEFAULT_CAPACITY)
    }

    /// An empty list with room for `capacity` nodes; each slot's tower
    /// height is drawn from the level generator.
    pub fn with_capacity(capacity: usize) -> (r: Self)
        requires
            capacity <= usize::MAX - 2,
        ensures
            r.slot_count() == capacity + 2,
    {
        let mut slots: Vec<Entry> = Vec::new();
        slots.push(Entry::new(MAX_LEVEL));
        slots.push(Entry::new(MAX_LEVEL));
        let mut i: usize = 0;
        while i < capacity
            invariant
                i <= capacity,
                capacity <= usize::MAX - 2,
                slots@.len() == i + 2,
                slots@[HEAD as int].nexts@.len() == LEVELS,
                forall|j: int| 0 <= j < slots@.len() ==> 1 <= (#[trigger] slots@[j]).nexts@.len() <= LEVELS,
            decreases capacity - i,
        {
            slots.push(Entry::new(random_level()));
            i = i + 1;
        }
        SkipList { slots, next_free: AtomicUsize::new(2) }
    }


    /// Number of slots, sentinels included: one lock per slot is needed.
    pub fn capacity(&self) -> (r: usize)
        ensures
            r == self.slot_count(),
    {
        self.slots.len()
    }

    /// Whether `i` names a slot with a link at `level`.
    pub fn links_at(&self, i: usize, level: usize) -> (r: bool)
        ensures
            r == (i < self.slot_count() && level < self.height(i as int)),
    {
        i < self.slots.len() && level < self.slots[i].nexts.len()
    }

    /// The highest level of slot `i`'s tower.
    pub fn top_level(&self, i: usize) -> (r: usize)
        requires
            i < self.slot_count(),
        ensures
            r + 1 == self.height(i as int),
            r <= MAX_LEVEL,
    {
        proof {
            use_type_invariant(self);
        }
        self.slots[i].nexts.len() - 1
    }

    fn key_at(&self, i: usize) -> (r: Key)
        requires
            i < self.slot_count(),
        ensures
            i == HEAD ==> r == Key::Head,
            i == TAIL ==> r == Key::Tail,
            i != HEAD && i != TAIL ==> r is Entry,
    {
        if i == HEAD {
            Key::Head
        } else if i == TAIL {
            Key::Tail
        } else {
            Key::Entry(self.slots[i].key.load(Ordering::Acquire))
        }
    }

    /// Whether slot `i` is logically deleted.
    pub fn is_marked(&self, i: usize) -> bool
        requires
            i < self.slot_count(),
    {
        self.slots[i].marked.load(Ordering::Acquire)
    }

    /// Whether every level of slot `i` has been spliced in.
    pub fn is_fully_linked(&self, i: usize) -> bool
        requires
            i < self.slot_count(),
    {
        self.slots[i].fully_linked.load(Ordering::Acquire)
    }

    /// Fills `preds` and `succs` top-down: at each level, the last node
    /// whose key is below `key` and the node after it. Yields the highest
    /// level whose successor holds `key`, if any. Takes no lock, so the
    /// caller validates what it saw before relying on it.
    pub fn find(&self, key: u64, preds: &mut Vec<usize>, succs: &mut Vec<usize>) -> (r: Result<
        Option<usize>,
        SkipListError,
    >)
        requires
            old(preds)@.len() == LEVELS,
            old(succs)@.len() == LEVELS,
        ensures
            final(preds)@.len() == LEVELS,
            final(succs)@.len() == LEVELS,
            r is Ok ==> self.traced(final(preds)@, final(succs)@),
            r is Err ==> r->Err_0 == SkipListError::Contention,
            r matches Ok(Some(lv)) ==> lv < LEVELS && final(succs)@[lv as int] != TAIL
                && final(succs)@[lv as int] != HEAD,
    {
        proof {
            use_type_invariant(self);
        }
        let target = Key::Entry(key);
        let mut budget: u64 = STEP_BUDGET;
        let mut found: Option<usize> = None;
        let mut pred: usize = HEAD;
        let mut level: usize = LEVELS;
        while level > 0
            invariant
                self.wf(),
                preds@.len() == LEVELS,
                succs@.len() == LEVELS,
                level <= LEVELS,
                pred < self.slot_count(),
                level > 0 ==> level - 1 < self.height(pred as int),
                forall|j: int|
                    level <= j < LEVELS ==> {
                        &&& #[trigger] preds@[j] < self.slot_count()
                        &&& j < self.height(preds@[j] as int)
                        &&& succs@[j] < self.slot_count()
                        &&& succs@[j] == TAIL || j < self.height(succs@[j] as int)
                    },
                found matches Some(lv) ==> level <= lv < LEVELS && succs@[lv as int] != TAIL
                    && succs@[lv as int] != HEAD,
            decreases level,
        {
            let l = level - 1;
            let mut curr: usize = self.slots[pred].nexts[l].load(Ordering::Acquire);
            loop
                invariant
                    self.wf(),
                    preds@.len() == LEVELS,
                    succs@.len() == LEVELS,
                    pred < self.slot_count(),
                    l < self.height(pred as int),
                    l < LEVELS,
                ensures
                    curr == TAIL || (curr < self.slot_count() && l < self.height(curr as int)
                        && curr != HEAD),
                    pred < self.slot_count(),
                    l < self.height(pred as int),
                decreases budget,
            {
                if budget == 0 {
                    return Err(SkipListError::Contention);
                }
                budget = budget - 1;
                if curr == TAIL {
                    break;
                }
                if !self.links_at(curr, l) || curr == HEAD {
                    return Err(SkipListError::Contention);
                }
                if self.key_at(curr).less_than(&target) {
                    pred = curr;
                    curr = self.slots[pred].nexts[l].load(Ordering::Acquire);
                } else {
                    break;
                }
            }
            if found.is_none() && curr != TAIL && self.key_at(curr).same_as(&target) {
                found = Some(l);
            }
            let ghost prev_preds = preds@;
            let ghost prev_succs = succs@;
            preds.set(l, pred);
            succs.set(l, curr);
            proof {
                assert forall|j: int| l <= j < LEVELS implies {
                    &&& #[trigger] preds@[j] < self.slot_count()
                    &&& j < self.height(preds@[j] as int)
                    &&& succs@[j] < self.slot_count()
                    &&& succs@[j] == TAIL || j < self.height(succs@[j] as int)
                } by {
                    if j > l {
                        assert(preds@[j] == prev_preds[j]);
                        assert(succs@[j] == prev_succs[j]);
                    }
                }
                if let Some(lv) = found {
                    if lv > l {
                        assert(succs@[lv as int] == prev_succs[lv as int]);
                    }
                }
            }
            level = l;
        }
        Ok(found)
    }

    /// Claims an unused slot and writes `key` and `value` into it. The slot
    /// is not linked yet.
    pub fn claim_slot(&self, key: u64, value: u64) -> (r: Result<usize, SkipListError>)
        ensures
            r matches Ok(s) ==> 2 <= s < self.slot_count(),
            r is Err ==> r->Err_0 == SkipListError::Full,
    {
        let slot = self.next_free.fetch_add(1, Ordering::AcqRel);
        if !claim_ok(slot, self.slots.len()) {
            return Err(SkipListError::Full);
        }
        self.slots[slot].key.store(key, Ordering::Relaxed);
        self.slots[slot].value.store(value, Ordering::Relaxed);
        Ok(slot)
    }

    /// With the predecessors of levels `0..=top` locked by the caller: every
    /// such predecessor and successor is unmarked and the predecessor still
    /// links to the successor.
    pub fn can_link(&self, preds: &Vec<usize>, succs: &Vec<usize>, top: usize) -> bool
        requires
            self.traced(preds@, succs@),
            top <= MAX_LEVEL,
    {
        let mut l: usize = 0;
        while l <= top
            invariant
                self.traced(preds@, succs@),
                top <= MAX_LEVEL,
                l <= top + 1,
            decreases top + 1 - l,
        {
            let pred = preds[l];
            let succ = succs[l];
            proof {
                assert(preds@[l as int] < self.slot_count());
            }
            let link = self.slots[pred].nexts[l].load(Ordering::Acquire);
            if !link_valid(self.is_marked(pred), self.is_marked(succ), link, succ) {
                return false;
            }
            l = l + 1;
        }
        true
    }

    /// Splices `slot` in after `preds` at every level of its tower, then
    /// publishes it by setting `fully_linked`. The caller holds the locks of
    /// the predecessors and has checked `can_link`.
    pub fn splice(&self, slot: usize, preds: &Vec<usize>, succs: &Vec<usize>)
        requires
            self.traced(preds@, succs@),
            2 <= slot < self.slot_count(),
    {
        proof {
            use_type_invariant(self);
        }
        let top = self.top_level(slot);
        let mut l: usize = 0;
        while l <= top
            invariant
                self.wf(),
                self.traced(preds@, succs@),
                top <= MAX_LEVEL,
                top + 1 == self.height(slot as int),
                2 <= slot < self.slot_count(),
                l <= top + 1,
            decreases top + 1 - l,
        {
            proof {
                assert(preds@[l as int] < self.slot_count());
            }
            self.slots[slot].nexts[l].store(succs[l], Ordering::Relaxed);
            self.slots[preds[l]].nexts[l].store(slot, Ordering::Release);
            l = l + 1;
        }
        self.slots[slot].fully_linked.store(true, Ordering::Release);
    }

    /// Whether the node `find` met at `level_found` may be removed: fully
    /// linked, met at its own top level and not yet marked.
    pub fn can_remove(&self, victim: usize, level_found: usize) -> bool
        requires
            victim < self.slot_count(),
    {
        removable(
            self.is_fully_linked(victim),
            self.top_level(victim),
            level_found,
            self.is_marked(victim),
        )
    }

    /// Logically deletes `victim` unless it already is. The caller holds the
    /// victim's lock, which makes this the single point where one remover
    /// wins. Yields whether this call set the mark.
    pub fn mark(&self, victim: usize) -> bool
        requires
            victim < self.slot_count(),
    {
        if self.is_marked(victim) {
            false
        } else {
            self.slots[victim].marked.store(true, Ordering::Release);
            true
        }
    }

    /// With the predecessors of levels `0..=top` locked by the caller: each
    /// is unmarked and still links to `victim`.
    pub fn can_unlink(&self, preds: &Vec<usize>, victim: usize, top: usize) -> bool
        requires
            self.traced(preds@, preds@),
            top <= MAX_LEVEL,
    {
        let mut l: usize = 0;
        while l <= top
            invariant
                self.traced(preds@, preds@),
                top <= MAX_LEVEL,
                l <= top + 1,
            decreases top + 1 - l,
        {
            let pred = preds[l];
            proof {
                assert(preds@[l as int] < self.slot_count());
            }
            let link = self.slots[pred].nexts[l].load(Ordering::Acquire);
            if !link_valid(self.is_marked(pred), false, link, victim) {
                return false;
            }
            l = l + 1;
        }
        true
    }

    /// Unlinks the marked `victim` from every level of its tower, top down,
    /// and yields its value. The caller holds the locks of the predecessors
    /// and has checked `can_unlink`.
    pub fn unlink(&self, preds: &Vec<usize>, victim: usize) -> u64
        requires
            self.traced(preds@, preds@),
            2 <= victim < self.slot_count(),
    {
        let top = self.top_level(victim);
        let mut level: usize = top + 1;
        while level > 0
            invariant
                self.traced(preds@, preds@),
                top <= MAX_LEVEL,
                top + 1 == self.height(victim as int),
                victim < self.slot_count(),
                level <= top + 1,
            decreases level,
        {
            let l = level - 1;
            proof {
                assert(preds@[l as int] < self.slot_count());
            }
            let next = self.slots[victim].nexts[l].load(Ordering::Acquire);
            self.slots[preds[l]].nexts[l].store(next, Ordering::Release);
            level = l;
        }
        self.slots[victim].value.load(Ordering::Acquire)
    }

    /// The value held for `key`, if a fully linked, unmarked node holds it.
    /// Takes no lock and changes nothing.
    pub fn get(&self, key: u64) -> (r: Result<Option<u64>, SkipListError>)
        ensures
            r is Err ==> r->Err_0 == SkipListError::Contention,
    {
        let mut preds = crate::lock_free::SkipList::empty_levels();
        let mut succs = crate::lock_free::SkipList::empty_levels();
        let found = match self.find(key, &mut preds, &mut succs) {
            Err(e) => return Err(e),
            Ok(found) => found,
        };
        match found {
            Some(lv) => {
                let node = succs[lv];
                proof {
                    assert(preds@[lv as int] < self.slot_count());
                }
                if visible(self.is_fully_linked(node), self.is_marked(node)) {
                    Ok(Some(self.slots[node].value.load(Ordering::Acquire)))
                } else {
                    Ok(None)
                }
            },
            None => Ok(None),
        }
    }

    /// What `add` learned from a traversal: whether a node with the key was
    /// met, and if so its flags.
    pub fn observe_add(&self, found: Option<usize>, succs: &Vec<usize>) -> (r: AddEvent)
        requires
            succs@.len() == LEVELS,
            forall|l: int| 0 <= l < LEVELS ==> #[trigger] succs@[l] < self.slot_count(),
            found matches Some(lv) ==> lv < LEVELS,
        ensures
            found is None ==> r == AddEvent::Absent,
            found is Some ==> r is Present,
    {
        match found {
            None => AddEvent::Absent,
            Some(lv) => {
                let node = succs[lv];
                AddEvent::Present {
                    marked: self.is_marked(node),
                    fully_linked: self.is_fully_linked(node),
                }
            },
        }
    }

    /// What `remove` learned from a traversal: the node met with the key,
    /// the level it was first met at, and whether it may be removed.
    pub fn observe_remove(&self, found: Option<usize>, succs: &Vec<usize>) -> (r: RemoveEvent)
        requires
            succs@.len() == LEVELS,
            forall|l: int| 0 <= l < LEVELS ==> #[trigger] succs@[l] < self.slot_count(),
            found matches Some(lv) ==> lv < LEVELS,
        ensures
            found is None ==> r == RemoveEvent::Absent,
            found matches Some(lv) ==> (r matches RemoveEvent::Found { node, level, .. } && node
                == succs@[lv as int] && level == lv),
    {
        match found {
            None => RemoveEvent::Absent,
            Some(lv) => {
                let node = succs[lv];
                RemoveEvent::Found { node, level: lv, removable: self.can_remove(node, lv) }
            },
        }
    }
}

} // verus!
