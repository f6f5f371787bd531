use sender_pool::codec::encode_frame;
use sender_pool::errors::PoolError;
use sender_pool::sender::Sender;

#[test]
fn identifiers_are_sequential_and_unique() {
    let mut s = Sender::open();
    let mut seen = Vec::new();
    for k in 0..100u64 {
        let id = s.submit(vec![k as u8]).unwrap();
        assert_eq!(id, k);
        assert!(!seen.contains(&id), "correlation identifier issued twice");
        seen.push(id);
    }
    assert_eq!(s.pending_count(), 100);
}

#[test]
fn outbound_frames_leave_in_submission_order() {
    let mut s = Sender::open();
    let a = s.submit(vec![10]).unwrap();
    let b = s.submit(vec![20]).unwrap();
    let first = s.pop_outbound().unwrap();
    assert_eq!(first.msg_id, a);
    assert_eq!(first.payload, vec![10]);
    let second = s.pop_outbound().unwrap();
    assert_eq!(second.msg_id, b);
    assert_eq!(second.payload, vec![20]);
    assert!(s.pop_outbound().is_none());
}

#[test]
fn inbound_frame_resolves_its_pending_call() {
    let mut s = Sender::open();
    let id = s.submit(vec![1]).unwrap();
    assert!(s.is_pending(id));
    let reply = encode_frame(id, &vec![42, 43]);
    let resolution = s.handle_inbound(&reply).unwrap();
    assert_eq!(resolution.msg_id, id);
    assert_eq!(resolution.outcome, Ok(vec![42, 43]));
    assert!(!s.is_pending(id));
}

#[test]
fn a_call_resolves_exactly_once() {
    let mut s = Sender::open();
    let id = s.submit(vec![1]).unwrap();
    let reply = encode_frame(id, &vec![5]);
    assert!(s.handle_inbound(&reply).is_some());
    // The same reply again is a discarded duplicate, not a second delivery.
    assert!(s.handle_inbound(&reply).is_none());
    assert_eq!(s.pending_count(), 0);
}

#[test]
fn unmatched_and_malformed_frames_are_discarded() {
    let mut s = Sender::open();
    let id = s.submit(vec![1]).unwrap();
    assert!(s.handle_inbound(&encode_frame(id + 7, &vec![5])).is_none());
    assert!(s.handle_inbound(&vec![1, 2, 3]).is_none());
    assert!(s.is_pending(id));
}

#[test]
fn teardown_orphans_every_pending_call() {
    let mut s = Sender::open();
    let a = s.submit(vec![1]).unwrap();
    let b = s.submit(vec![2]).unwrap();
    let orphans = s.close();
    assert_eq!(orphans, vec![a, b]);
    assert!(!s.is_alive());
    assert!(s.pop_outbound().is_none());
    assert_eq!(s.pending_count(), 0);
}

#[test]
fn submit_after_close_is_refused_and_registers_nothing() {
    let mut s = Sender::open();
    s.close();
    assert_eq!(s.submit(vec![1]), Err(PoolError::ConnectionClosed));
    assert_eq!(s.pending_count(), 0);
    assert!(s.pop_outbound().is_none());
}
