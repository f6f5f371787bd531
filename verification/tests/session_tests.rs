use sender_pool::pool::Pool;
use sender_pool::session::Session;

#[test]
fn fresh_session_is_unauthorized() {
    let s = Session::new(4);
    assert_eq!(s.dc_id, 4);
    assert_eq!(s.auth_key, Vec::<u8>::new());
    assert_eq!(s.update_seq, 0);
}

#[test]
fn restore_keeps_every_field() {
    let s = Session::restore(2, vec![1, 2, 3], 99);
    assert_eq!(s.dc_id, 2);
    assert_eq!(s.auth_key, vec![1, 2, 3]);
    assert_eq!(s.update_seq, 99);
}

#[test]
fn rotation_replaces_only_the_key() {
    let mut s = Session::restore(2, vec![1], 7);
    s.rotate_auth_key(vec![9, 9]);
    assert_eq!(s.auth_key, vec![9, 9]);
    assert_eq!(s.dc_id, 2);
    assert_eq!(s.update_seq, 7);
}

#[test]
fn update_marker_never_moves_backwards() {
    let mut s = Session::new(1);
    assert!(s.advance_updates(5));
    assert!(!s.advance_updates(5));
    assert!(!s.advance_updates(3));
    assert_eq!(s.update_seq, 5);
    assert!(s.advance_updates(6));
    assert_eq!(s.update_seq, 6);
}

#[test]
fn pool_rotates_the_shared_session_key() {
    let mut pool = Pool::new(Session::restore(3, vec![1], 0), 2).unwrap();
    pool.rotate_auth_key(vec![7, 7, 7]);
    assert_eq!(pool.session().auth_key, vec![7, 7, 7]);
    assert_eq!(pool.session().dc_id, 3);
}
