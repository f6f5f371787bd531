use sender_pool::client::{begin_invoke, finish_invoke};
use sender_pool::codec::{decode_frame, encode_frame, encode_response, Request, Response};
use sender_pool::errors::PoolError;
use sender_pool::pool::{backoff_delay_ms, Pool, MAX_RECONNECT_ATTEMPTS};
use sender_pool::session::Session;

fn pool_of(n: usize) -> Pool {
    Pool::new(Session::new(2), n).unwrap()
}

// Answers the next outbound frame of `slot` as a pong echoing the ping.
fn echo_one(pool: &mut Pool, slot: usize) -> Option<sender_pool::sender::Resolution> {
    let framed = {
        let f = pool.pop_outbound(slot)?;
        let wire = encode_frame(f.msg_id, &f.payload);
        let on_the_wire = decode_frame(&wire).unwrap();
        // The server reads the ping identifier out of the request body.
        let mut id_bytes = [0u8; 8];
        id_bytes.copy_from_slice(&on_the_wire.payload[4..12]);
        let ping_id = u64::from_le_bytes(id_bytes);
        let reply = encode_response(&Response::Pong { ping_id });
        encode_frame(on_the_wire.msg_id, &reply)
    };
    pool.handle_inbound(slot, &framed)
}

#[test]
fn empty_pool_is_a_config_error() {
    // A pool of zero senders cannot be built and creates none.
    match Pool::new(Session::new(2), 0) {
        Err(e) => assert_eq!(e, PoolError::Config),
        Ok(_) => panic!("a pool of zero senders must be refused"),
    }
}

#[test]
fn single_ping_round_trip() {
    let mut pool = pool_of(1);
    let ticket = begin_invoke(&mut pool, &Request::Ping { ping_id: 12345 }).unwrap();
    assert_eq!(ticket.slot, 0);
    let resolution = echo_one(&mut pool, 0).expect("the ping must resolve");
    assert_eq!(resolution.msg_id, ticket.msg_id);
    let verdict = finish_invoke(resolution.outcome);
    assert_eq!(verdict, Ok(Response::Pong { ping_id: 12345 }));
}

#[test]
fn hundred_calls_split_over_two_senders() {
    let mut pool = pool_of(2);
    let mut tickets = Vec::new();
    for k in 0..100u64 {
        let t = begin_invoke(&mut pool, &Request::Ping { ping_id: 1000 + k }).unwrap();
        // Round-robin alternates over the two live senders.
        assert_eq!(t.slot, (k % 2) as usize);
        tickets.push(t);
    }
    // Every call resolves, each with the response to its own request.
    for (k, t) in tickets.iter().enumerate() {
        let resolution = echo_one(&mut pool, t.slot).expect("every call must resolve");
        assert_eq!(resolution.msg_id, t.msg_id);
        let verdict = finish_invoke(resolution.outcome).unwrap();
        assert_eq!(verdict, Response::Pong { ping_id: 1000 + k as u64 });
    }
    assert!(pool.all_drained());
}

#[test]
fn transport_loss_resolves_the_outstanding_call_with_connection_closed() {
    let mut pool = pool_of(1);
    let ticket = begin_invoke(&mut pool, &Request::Ping { ping_id: 7 }).unwrap();
    // The connection dies with the request still outstanding.
    let orphans = pool.on_disconnect(0);
    assert_eq!(orphans, vec![ticket.msg_id]);
    // The caller is answered ConnectionClosed, not left hanging.
    let verdict = finish_invoke(Err(PoolError::ConnectionClosed));
    assert_eq!(verdict, Err(PoolError::ConnectionClosed));
}

#[test]
fn shutdown_refuses_new_work_but_drains_old_work() {
    let mut pool = pool_of(1);
    let ticket = begin_invoke(&mut pool, &Request::Ping { ping_id: 9 }).unwrap();
    pool.begin_shutdown();
    assert!(!pool.is_accepting());
    // No new submission succeeds once the handle is closed.
    assert_eq!(
        begin_invoke(&mut pool, &Request::Ping { ping_id: 10 }),
        Err(PoolError::ConnectionClosed)
    );
    // The call submitted before the close still resolves with its response.
    let resolution = echo_one(&mut pool, 0).expect("the earlier call must still resolve");
    assert_eq!(resolution.msg_id, ticket.msg_id);
    assert_eq!(finish_invoke(resolution.outcome), Ok(Response::Pong { ping_id: 9 }));
}

#[test]
fn close_all_orphans_every_slot_in_order() {
    let mut pool = pool_of(2);
    let t0 = begin_invoke(&mut pool, &Request::Ping { ping_id: 1 }).unwrap();
    let t1 = begin_invoke(&mut pool, &Request::Ping { ping_id: 2 }).unwrap();
    let orphans = pool.close_all();
    assert_eq!(orphans.len(), 2);
    assert_eq!((orphans[0].slot, orphans[0].msg_id), (t0.slot, t0.msg_id));
    assert_eq!((orphans[1].slot, orphans[1].msg_id), (t1.slot, t1.msg_id));
    assert!(!pool.is_accepting());
    assert_eq!(
        begin_invoke(&mut pool, &Request::Ping { ping_id: 3 }),
        Err(PoolError::ConnectionClosed)
    );
}

#[test]
fn dead_slots_are_skipped_then_no_sender_is_available() {
    let mut pool = pool_of(2);
    pool.on_disconnect(0);
    // The surviving sender takes every call.
    for k in 0..3u64 {
        let t = begin_invoke(&mut pool, &Request::Ping { ping_id: k }).unwrap();
        assert_eq!(t.slot, 1);
    }
    // The other slot gives up after the bounded retries...
    for _ in 0..MAX_RECONNECT_ATTEMPTS {
        pool.on_reconnect_failed(0);
    }
    // ...and once the last connection drops too, submission fails fast.
    pool.on_disconnect(1);
    for _ in 0..MAX_RECONNECT_ATTEMPTS {
        pool.on_reconnect_failed(1);
    }
    assert_eq!(
        begin_invoke(&mut pool, &Request::Ping { ping_id: 9 }),
        Err(PoolError::NoAvailableSender)
    );
}

#[test]
fn reconnection_restores_routing_to_the_slot() {
    let mut pool = pool_of(1);
    pool.on_disconnect(0);
    assert_eq!(
        begin_invoke(&mut pool, &Request::Ping { ping_id: 1 }),
        Err(PoolError::NoAvailableSender)
    );
    assert!(pool.on_reconnected(0));
    let t = begin_invoke(&mut pool, &Request::Ping { ping_id: 2 }).unwrap();
    assert_eq!(t.slot, 0);
}

#[test]
fn duplicate_reply_at_the_pool_is_discarded() {
    let mut pool = pool_of(1);
    let ticket = begin_invoke(&mut pool, &Request::Ping { ping_id: 5 }).unwrap();
    let f = pool.pop_outbound(0).unwrap();
    let reply = encode_frame(f.msg_id, &encode_response(&Response::Pong { ping_id: 5 }));
    let first = pool.handle_inbound(0, &reply).expect("first delivery resolves the call");
    assert_eq!(first.msg_id, ticket.msg_id);
    // The duplicate finds no pending identifier and is dropped.
    assert!(pool.handle_inbound(0, &reply).is_none());
}

#[test]
fn backoff_grows_and_is_capped() {
    assert_eq!(backoff_delay_ms(0), 100);
    assert_eq!(backoff_delay_ms(1), 200);
    assert_eq!(backoff_delay_ms(4), 500);
    assert_eq!(backoff_delay_ms(99), 10_000);
    assert_eq!(backoff_delay_ms(u64::MAX), 10_000);
}

#[test]
fn raw_reply_with_unknown_method_is_a_decode_failure_local_to_the_call() {
    let mut pool = pool_of(1);
    let ticket = begin_invoke(
        &mut pool,
        &Request::Raw { method: 77, body: vec![1, 2, 3] },
    )
    .unwrap();
    let f = pool.pop_outbound(0).unwrap();
    assert_eq!(f.payload, vec![77, 0, 0, 0, 1, 2, 3]);
    // The peer answers under an unknown discriminator.
    let reply = encode_frame(f.msg_id, &vec![99, 0, 0, 0, 1]);
    let resolution = pool.handle_inbound(0, &reply).unwrap();
    assert_eq!(resolution.msg_id, ticket.msg_id);
    assert_eq!(finish_invoke(resolution.outcome), Err(PoolError::UnknownMethod));
}
