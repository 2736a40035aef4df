use postcard_rpc::registry::Delivered;
use postcard_rpc::registry::Fired;
use postcard_rpc::registry::Polled;
use postcard_rpc::registry::Wait;
use postcard_rpc::registry::WaitError;
use postcard_rpc::registry::WaitRegistry;
use postcard_rpc::registry::WakeOutcome;
use postcard_rpc::wire::Key;
use postcard_rpc::wire::WireHeader;

fn header(tag: u8, seq_no: u32) -> WireHeader {
    WireHeader { key: Key::from_bytes([tag; 8]), seq_no }
}

fn still_pending(registry: &mut WaitRegistry, wait: Wait) -> Wait {
    match registry.poll(wait) {
        Polled::Pending(back) => back,
        other => panic!("expected a pending wait, found {:?}", other),
    }
}

fn resolved(registry: &mut WaitRegistry, wait: Wait) -> Result<Delivered, WaitError> {
    match registry.poll(wait) {
        Polled::Ready(result) => result,
        other => panic!("expected a resolved wait, found {:?}", other),
    }
}

#[test]
fn new_registry_is_open_and_empty() {
    let registry = WaitRegistry::new();
    assert!(!registry.is_closed());
    assert!(registry.is_empty());
    assert!(!registry.has_pending(&header(1, 0)));
}

#[test]
fn wake_hands_the_payload_to_the_waiter() {
    let mut registry = WaitRegistry::new();
    let wait = registry.wait(header(1, 0));
    assert!(registry.has_pending(&header(1, 0)));
    let wait = still_pending(&mut registry, wait);
    assert_eq!(registry.wake(&header(1, 0), vec![10, 20]), WakeOutcome::Woke);
    assert!(!registry.has_pending(&header(1, 0)));
    assert_eq!(
        resolved(&mut registry, wait),
        Ok(Delivered { fired: Fired::Primary, payload: vec![10, 20] })
    );
    assert!(registry.is_empty());
}

#[test]
fn wake_without_a_waiter_gives_the_payload_back() {
    let mut registry = WaitRegistry::new();
    assert_eq!(registry.wake(&header(1, 0), vec![1]), WakeOutcome::NoMatch(vec![1]));
    let wait = registry.wait(header(1, 0));
    assert_eq!(registry.wake(&header(1, 1), vec![2]), WakeOutcome::NoMatch(vec![2]));
    assert_eq!(registry.wake(&header(2, 0), vec![3]), WakeOutcome::NoMatch(vec![3]));
    still_pending(&mut registry, wait);
}

#[test]
fn a_waiter_is_woken_once() {
    let mut registry = WaitRegistry::new();
    let wait = registry.wait(header(1, 0));
    assert_eq!(registry.wake(&header(1, 0), vec![1]), WakeOutcome::Woke);
    assert_eq!(registry.wake(&header(1, 0), vec![2]), WakeOutcome::NoMatch(vec![2]));
    assert_eq!(resolved(&mut registry, wait).unwrap().payload, vec![1]);
}

#[test]
fn replies_in_any_order_reach_their_own_waiters() {
    let mut registry = WaitRegistry::new();
    let a = registry.wait(header(1, 0));
    let b = registry.wait(header(1, 1));
    let c = registry.wait(header(2, 0));
    assert_eq!(registry.wake(&header(2, 0), vec![b'c']), WakeOutcome::Woke);
    assert_eq!(registry.wake(&header(1, 0), vec![b'a']), WakeOutcome::Woke);
    let b = still_pending(&mut registry, b);
    assert_eq!(registry.wake(&header(1, 1), vec![b'b']), WakeOutcome::Woke);
    assert_eq!(resolved(&mut registry, a).unwrap().payload, vec![b'a']);
    assert_eq!(resolved(&mut registry, b).unwrap().payload, vec![b'b']);
    assert_eq!(resolved(&mut registry, c).unwrap().payload, vec![b'c']);
    assert!(registry.is_empty());
}

#[test]
fn reply_first_then_error_gives_the_reply() {
    let mut registry = WaitRegistry::new();
    let wait = registry.wait_either(header(1, 4), Some(header(9, 4)));
    assert_eq!(registry.wake(&header(1, 4), vec![1]), WakeOutcome::Woke);
    assert_eq!(registry.wake(&header(9, 4), vec![2]), WakeOutcome::NoMatch(vec![2]));
    assert_eq!(
        resolved(&mut registry, wait),
        Ok(Delivered { fired: Fired::Primary, payload: vec![1] })
    );
}

#[test]
fn error_first_then_reply_gives_the_error() {
    let mut registry = WaitRegistry::new();
    let wait = registry.wait_either(header(1, 4), Some(header(9, 4)));
    assert_eq!(registry.wake(&header(9, 4), vec![2]), WakeOutcome::Woke);
    assert_eq!(registry.wake(&header(1, 4), vec![1]), WakeOutcome::NoMatch(vec![1]));
    assert_eq!(
        resolved(&mut registry, wait),
        Ok(Delivered { fired: Fired::Alternate, payload: vec![2] })
    );
}

#[test]
fn a_wait_on_twice_the_same_header_fires_as_primary() {
    let mut registry = WaitRegistry::new();
    let wait = registry.wait_either(header(1, 4), Some(header(1, 4)));
    assert_eq!(registry.wake(&header(1, 4), vec![5]), WakeOutcome::Woke);
    assert_eq!(resolved(&mut registry, wait).unwrap().fired, Fired::Primary);
}

#[test]
fn cancelled_wait_leaves_no_slot() {
    let mut registry = WaitRegistry::new();
    let wait = registry.wait_either(header(1, 0), Some(header(9, 0)));
    assert!(!registry.is_empty());
    registry.cancel(wait);
    assert!(registry.is_empty());
    assert!(!registry.has_pending(&header(1, 0)));
    assert!(!registry.has_pending(&header(9, 0)));
    assert_eq!(registry.wake(&header(1, 0), vec![1]), WakeOutcome::NoMatch(vec![1]));
    assert_eq!(registry.wake(&header(9, 0), vec![1]), WakeOutcome::NoMatch(vec![1]));
    assert!(registry.is_empty());
}

#[test]
fn cancelling_a_woken_wait_drops_its_payload() {
    let mut registry = WaitRegistry::new();
    let wait = registry.wait(header(1, 0));
    assert_eq!(registry.wake(&header(1, 0), vec![1]), WakeOutcome::Woke);
    assert!(!registry.is_empty());
    registry.cancel(wait);
    assert!(registry.is_empty());
}

#[test]
fn second_wait_on_a_header_closes_the_first() {
    let mut registry = WaitRegistry::new();
    let first = registry.wait(header(1, 0));
    let second = registry.wait(header(1, 0));
    assert_eq!(resolved(&mut registry, first), Err(WaitError::Closed));
    let second = still_pending(&mut registry, second);
    assert_eq!(registry.wake(&header(1, 0), vec![7]), WakeOutcome::Woke);
    assert_eq!(resolved(&mut registry, second).unwrap().payload, vec![7]);
    assert!(registry.is_empty());
}

#[test]
fn a_wait_on_the_error_header_of_another_closes_it() {
    let mut registry = WaitRegistry::new();
    let first = registry.wait_either(header(1, 0), Some(header(9, 0)));
    let second = registry.wait(header(9, 0));
    assert_eq!(resolved(&mut registry, first), Err(WaitError::Closed));
    still_pending(&mut registry, second);
    assert!(!registry.has_pending(&header(1, 0)));
}

#[test]
fn close_resolves_every_pending_wait() {
    let mut registry = WaitRegistry::new();
    let a = registry.wait(header(1, 0));
    let b = registry.wait(header(1, 1));
    registry.close();
    assert!(registry.is_closed());
    assert_eq!(resolved(&mut registry, a), Err(WaitError::Closed));
    assert_eq!(resolved(&mut registry, b), Err(WaitError::Closed));
    assert!(registry.is_empty());
}

#[test]
fn close_keeps_a_payload_that_had_arrived() {
    let mut registry = WaitRegistry::new();
    let a = registry.wait(header(1, 0));
    assert_eq!(registry.wake(&header(1, 0), vec![3]), WakeOutcome::Woke);
    registry.close();
    assert_eq!(resolved(&mut registry, a).unwrap().payload, vec![3]);
}

#[test]
fn closed_registry_takes_no_wait_and_no_payload() {
    let mut registry = WaitRegistry::new();
    registry.close();
    let wait = registry.wait(header(1, 0));
    assert!(registry.is_empty());
    assert!(!registry.has_pending(&header(1, 0)));
    assert_eq!(registry.wake(&header(1, 0), vec![4]), WakeOutcome::Closed(vec![4]));
    assert_eq!(resolved(&mut registry, wait), Err(WaitError::Closed));
    registry.close();
    assert!(registry.is_closed());
    let again = registry.wait_either(header(2, 0), Some(header(3, 0)));
    assert_eq!(resolved(&mut registry, again), Err(WaitError::Closed));
    assert!(registry.is_empty());
}

#[test]
fn vacated_slots_are_used_again() {
    let mut registry = WaitRegistry::new();
    let a = registry.wait(header(1, 0));
    let b = registry.wait(header(1, 1));
    registry.cancel(a);
    let c = registry.wait(header(1, 2));
    assert_eq!(registry.wake(&header(1, 2), vec![b'c']), WakeOutcome::Woke);
    assert_eq!(registry.wake(&header(1, 1), vec![b'b']), WakeOutcome::Woke);
    assert_eq!(resolved(&mut registry, b).unwrap().payload, vec![b'b']);
    assert_eq!(resolved(&mut registry, c).unwrap().payload, vec![b'c']);
    assert!(registry.is_empty());
}
