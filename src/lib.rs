//! Skip lists over `u64` keys, built over arenas of nodes that link to each
//! other by index: a sequential list whose structure and contents are fully
//! specified, the shared state and steps of a list with optimistic
//! fine-grained locking, and a lock-free list whose links carry a deletion
//! mark.
pub mod key;
pub mod level;
pub mod lock_based;
pub mod lock_free;
pub mod markable_atomic_ptr;
pub mod sequential;
