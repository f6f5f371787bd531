use sender_pool::codec::{
    decode_frame, decode_response, encode_frame, encode_request, encode_response, Request,
    Response, MAX_BODY_LEN, PING_METHOD, PONG_METHOD,
};
use sender_pool::errors::PoolError;

#[test]
fn ping_encodes_to_exact_bytes() {
    let bytes = encode_request(&Request::Ping { ping_id: 12345 }).unwrap();
    // 12345 is 0x3039: discriminator little-endian, then the identifier.
    assert_eq!(bytes, vec![1, 0, 0, 0, 0x39, 0x30, 0, 0, 0, 0, 0, 0]);
}

#[test]
fn raw_request_keeps_method_and_body() {
    let bytes = encode_request(&Request::Raw { method: 0x0a0b0c0d, body: vec![9, 8, 7] }).unwrap();
    assert_eq!(bytes, vec![0x0d, 0x0c, 0x0b, 0x0a, 9, 8, 7]);
}

#[test]
fn oversized_raw_body_is_an_encode_error() {
    let body = vec![0u8; MAX_BODY_LEN + 1];
    assert_eq!(
        encode_request(&Request::Raw { method: 7, body }),
        Err(PoolError::Encode)
    );
    let body = vec![0u8; MAX_BODY_LEN];
    assert!(encode_request(&Request::Raw { method: 7, body }).is_ok());
}

#[test]
fn response_round_trips() {
    let pong = Response::Pong { ping_id: u64::MAX - 3 };
    let bytes = encode_response(&pong);
    assert_eq!(decode_response(&bytes), Ok(pong));
}

#[test]
fn pong_has_exact_bytes() {
    let bytes = encode_response(&Response::Pong { ping_id: 12345 });
    assert_eq!(bytes, vec![2, 0, 0, 0, 0x39, 0x30, 0, 0, 0, 0, 0, 0]);
}

#[test]
fn short_response_is_a_decode_error() {
    assert_eq!(decode_response(&vec![]), Err(PoolError::Decode));
    assert_eq!(decode_response(&vec![2, 0, 0]), Err(PoolError::Decode));
}

#[test]
fn wrong_length_pong_is_a_decode_error() {
    assert_eq!(decode_response(&vec![2, 0, 0, 0, 1, 2]), Err(PoolError::Decode));
    assert_eq!(
        decode_response(&vec![2, 0, 0, 0, 1, 2, 3, 4, 5, 6, 7, 8, 9]),
        Err(PoolError::Decode)
    );
}

#[test]
fn unknown_discriminator_is_reported() {
    assert_eq!(decode_response(&vec![99, 0, 0, 0, 1, 2]), Err(PoolError::UnknownMethod));
}

#[test]
fn frame_round_trips() {
    let framed = encode_frame(0xfeed_beef_dead_cafe, &vec![1, 2, 3]);
    let frame = decode_frame(&framed).unwrap();
    assert_eq!(frame.msg_id, 0xfeed_beef_dead_cafe);
    assert_eq!(frame.payload, vec![1, 2, 3]);
}

#[test]
fn short_frame_is_a_decode_error() {
    assert!(matches!(decode_frame(&vec![1, 2, 3, 4, 5, 6, 7]), Err(PoolError::Decode)));
    let empty = decode_frame(&vec![0, 0, 0, 0, 0, 0, 0, 0]).unwrap();
    assert_eq!(empty.msg_id, 0);
    assert_eq!(empty.payload, Vec::<u8>::new());
}

#[test]
fn discriminators_differ() {
    assert_ne!(PING_METHOD, PONG_METHOD);
}
