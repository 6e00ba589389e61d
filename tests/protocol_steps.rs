use skiplists::key::Key;
use skiplists::lock_based::{
    add_step, distinct_preds, link_valid, remove_step, removable, visible, AddAction, AddEvent,
    AddState, RemoveAction, RemoveEvent, RemoveState,
};
use skiplists::lock_free::{
    claim_ok, get_step, remove_outcome, walk_step, GetStep, RemoveStep, SkipListError, Walk,
};

#[test]
fn walk_and_get_steps() {
    let t = Key::Entry(10);
    assert_eq!(walk_step(true, Key::Entry(3), t), Walk::Unlink);
    assert_eq!(walk_step(false, Key::Entry(3), t), Walk::Advance);
    assert_eq!(walk_step(false, Key::Entry(10), t), Walk::Stop);
    assert_eq!(walk_step(false, Key::Tail, t), Walk::Stop);
    assert_eq!(get_step(true, Key::Entry(10), t, 0), GetStep::Skip);
    assert_eq!(get_step(false, Key::Entry(9), t, 0), GetStep::Advance);
    assert_eq!(get_step(false, Key::Entry(10), t, 0), GetStep::Found);
    assert_eq!(get_step(false, Key::Entry(10), t, 2), GetStep::Descend);
    assert_eq!(get_step(false, Key::Entry(11), t, 0), GetStep::Descend);
}

#[test]
fn remove_cas_outcomes_and_claims() {
    assert_eq!(remove_outcome(Ok(4)), RemoveStep::Won);
    assert_eq!(remove_outcome(Err((4, true))), RemoveStep::Lost);
    assert_eq!(remove_outcome(Err((6, false))), RemoveStep::Retry(6));
    assert!(!claim_ok(0, 10));
    assert!(!claim_ok(1, 10));
    assert!(claim_ok(2, 10));
    assert!(claim_ok(9, 10));
    assert!(!claim_ok(10, 10));
}

#[test]
fn lock_checks() {
    assert!(link_valid(false, false, 5, 5));
    assert!(!link_valid(true, false, 5, 5));
    assert!(!link_valid(false, true, 5, 5));
    assert!(!link_valid(false, false, 4, 5));
    assert!(removable(true, 3, 3, false));
    assert!(!removable(false, 3, 3, false));
    assert!(!removable(true, 3, 2, false));
    assert!(!removable(true, 3, 3, true));
    assert!(visible(true, false));
    assert!(!visible(false, false));
    assert!(!visible(true, true));
}

#[test]
fn distinct_predecessors_locked_once() {
    let preds = vec![7, 7, 3, 3, 3, 0, 0];
    assert_eq!(distinct_preds(&preds, 6), vec![7, 3, 0]);
    assert_eq!(distinct_preds(&preds, 1), vec![7]);
    assert_eq!(distinct_preds(&preds, 2), vec![7, 3]);
}

#[test]
fn add_protocol_transitions() {
    let s = AddState::Searching;
    let present = |marked, fully_linked| AddEvent::Present { marked, fully_linked };
    assert_eq!(add_step(s, present(false, true)), (s, AddAction::ReportPresent));
    assert_eq!(add_step(s, present(false, false)), (s, AddAction::Wait));
    assert_eq!(add_step(s, present(true, true)), (s, AddAction::Find));
    assert_eq!(add_step(s, AddEvent::Absent), (s, AddAction::Claim));
    assert_eq!(
        add_step(s, AddEvent::ClaimedSlot(5)),
        (AddState::Holding(5), AddAction::Validate(5))
    );
    assert_eq!(
        add_step(s, AddEvent::ClaimFailed(SkipListError::Full)),
        (s, AddAction::Fail(SkipListError::Full))
    );
    let h = AddState::Holding(5);
    assert_eq!(add_step(h, AddEvent::Validated(true)), (h, AddAction::Splice(5)));
    assert_eq!(add_step(h, AddEvent::Validated(false)), (h, AddAction::Find));
    assert_eq!(add_step(h, AddEvent::Absent), (h, AddAction::Validate(5)));
}

#[test]
fn remove_protocol_transitions() {
    let s = RemoveState::Searching;
    let found = |removable| RemoveEvent::Found { node: 4, level: 2, removable };
    assert_eq!(remove_step(s, RemoveEvent::Absent), (s, RemoveAction::ReportAbsent));
    assert_eq!(remove_step(s, found(false)), (s, RemoveAction::ReportAbsent));
    assert_eq!(
        remove_step(s, found(true)),
        (RemoveState::Marking(4, 2), RemoveAction::Mark(4))
    );
    let m = RemoveState::Marking(4, 2);
    assert_eq!(
        remove_step(m, RemoveEvent::Marked(true)),
        (RemoveState::Owning(4, 2), RemoveAction::Validate(4, 2))
    );
    assert_eq!(remove_step(m, RemoveEvent::Marked(false)), (m, RemoveAction::ReportAbsent));
    let o = RemoveState::Owning(4, 2);
    assert_eq!(remove_step(o, RemoveEvent::Validated(true)), (o, RemoveAction::Unlink(4)));
    assert_eq!(remove_step(o, RemoveEvent::Validated(false)), (o, RemoveAction::Find));
    assert_eq!(remove_step(o, RemoveEvent::Absent), (o, RemoveAction::Validate(4, 2)));
}
