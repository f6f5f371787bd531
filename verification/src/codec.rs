use vstd::prelude::*;
use crate::errors::PoolError;

verus! {

/// Method discriminator of an outbound ping request.
pub const PING_METHOD: u32 = 1;
/// Method discriminator of an inbound pong response.
pub const PONG_METHOD: u32 = 2;
/// Longest raw request body the codec accepts.
pub const MAX_BODY_LEN: usize = 0x0010_0000;

/// An outbound typed payload. `Ping` is the built-in connectivity probe; `Raw`
/// carries an arbitrary method discriminator and body.
#[derive(Clone, Debug, PartialEq, Eq)]
pub enum Request {
    Ping { ping_id: u64 },
    Raw { method: u32, body: Vec<u8> },
}

/// A decoded inbound typed payload.
#[derive(Clone, Copy, Debug, PartialEq, Eq, Structural)]
pub enum Response {
    Pong { ping_id: u64 },
}

/// A wire frame: a correlation identifier together with the payload it carries.
#[derive(Clone, Debug)]
pub struct Frame {
    pub msg_id: u64,
    pub payload: Vec<u8>,
}

/// The little-endian byte string of a 64-bit integer.
pub open spec fn u64_le(x: u64) -> Seq<u8> {
    seq![
        (x & 0xff) as u8,
        ((x >> 8) & 0xff) as u8,
        ((x >> 16) & 0xff) as u8,
        ((x >> 24) & 0xff) as u8,
        ((x >> 32) & 0xff) as u8,
        ((x >> 40) & 0xff) as u8,
        ((x >> 48) & 0xff) as u8,
        ((x >> 56) & 0xff) as u8,
    ]
}

/// The 64-bit integer read little-endian from the first eight bytes.
pub open spec fn le_u64(b: Seq<u8>) -> u64 {
    ((b[0] as u64) | ((b[1] as u64) << 8) | ((b[2] as u64) << 16) | ((b[3] as u64) << 24)
        | ((b[4] as u64) << 32) | ((b[5] as u64) << 40) | ((b[6] as u64) << 48)
        | ((b[7] as u64) << 56)) as u64
}

/// The little-endian byte string of a 32-bit integer.
pub open spec fn u32_le(x: u32) -> Seq<u8> {
    seq![
        (x & 0xff) as u8,
        ((x >> 8) & 0xff) as u8,
        ((x >> 16) & 0xff) as u8,
        ((x >> 24) & 0xff) as u8,
    ]
}

/// The 32-bit integer read little-endian from the first four bytes.
pub open spec fn le_u32(b: Seq<u8>) -> u32 {
    ((b[0] as u32) | ((b[1] as u32) << 8) | ((b[2] as u32) << 16) | ((b[3] as u32) << 24)) as u32
}

/// The method discriminator a request is encoded under.
pub open spec fn method_of(r: Request) -> u32 {
    match r {
        Request::Ping { .. } => PING_METHOD,
        Request::Raw { method, .. } => method,
    }
}

/// Whether a request can be put on the wire at all.
pub open spec fn request_encodable(r: Request) -> bool {
    match r {
        Request::Ping { .. } => true,
        Request::Raw { body, .. } => body@.len() <= MAX_BODY_LEN,
    }
}

/// The wire bytes of a request: its discriminator followed by its body.
pub open spec fn encoded_request(r: Request) -> Seq<u8> {
    match r {
        Request::Ping { ping_id } => u32_le(PING_METHOD) + u64_le(ping_id),
        Request::Raw { method, body } => u32_le(method) + body@,
    }
}

/// The wire bytes of a response: its discriminator followed by its fields.
pub open spec fn encoded_response(r: Response) -> Seq<u8> {
    match r {
        Response::Pong { ping_id } => u32_le(PONG_METHOD) + u64_le(ping_id),
    }
}

/// What decoding a response payload yields, for every byte string.
pub open spec fn decoded_response(b: Seq<u8>) -> Result<Response, PoolError> {
    if b.len() < 4 {
        Err(PoolError::Decode)
    } else if le_u32(b.take(4)) == PONG_METHOD {
        if b.len() == 12 {
            Ok(Response::Pong { ping_id: le_u64(b.skip(4)) })
        } else {
            Err(PoolError::Decode)
        }
    } else {
        Err(PoolError::UnknownMethod)
    }
}

/// The wire bytes of a frame: the correlation identifier, then the payload.
pub open spec fn encoded_frame(msg_id: u64, payload: Seq<u8>) -> Seq<u8> {
    u64_le(msg_id) + payload
}

/// What decoding a frame yields, for every byte string.
pub open spec fn decoded_frame(b: Seq<u8>) -> Option<(u64, Seq<u8>)> {
    if b.len() >= 8 {
        Some((le_u64(b.take(8)), b.skip(8)))
    } else {
        None
    }
}

proof fn lemma_low_byte(y: u64)
    by (bit_vector)
    ensures
        y & 0xff < 256,
{
}

proof fn lemma_low_byte_32(y: u32)
    by (bit_vector)
    ensures
        y & 0xff < 256,
{
}

/// Reading back the little-endian bytes of a 64-bit integer restores it.
pub proof fn lemma_u64_round_trip(x: u64)
    ensures
        le_u64(u64_le(x)) == x,
{
    assert((((x & 0xff) as u8 as u64) | ((((x >> 8) & 0xff) as u8 as u64) << 8)
        | ((((x >> 16) & 0xff) as u8 as u64) << 16) | ((((x >> 24) & 0xff) as u8 as u64) << 24)
        | ((((x >> 32) & 0xff) as u8 as u64) << 32) | ((((x >> 40) & 0xff) as u8 as u64) << 40)
        | ((((x >> 48) & 0xff) as u8 as u64) << 48) | ((((x >> 56) & 0xff) as u8 as u64) << 56))
        == x) by (bit_vector);
}

/// Reading back the little-endian bytes of a 32-bit integer restores it.
pub proof fn lemma_u32_round_trip(x: u32)
    ensures
        le_u32(u32_le(x)) == x,
{
    assert((((x & 0xff) as u8 as u32) | ((((x >> 8) & 0xff) as u8 as u32) << 8)
        | ((((x >> 16) & 0xff) as u8 as u32) << 16) | ((((x >> 24) & 0xff) as u8 as u32) << 24))
        == x) by (bit_vector);
}

/// Appends the little-endian bytes of `x` to `out`.
fn push_u64_le(out: &mut Vec<u8>, x: u64)
    ensures
        final(out)@ == old(out)@ + u64_le(x),
{
    proof {
        lemma_low_byte(x & 0xff);
        lemma_low_byte(x >> 8);
        lemma_low_byte(x >> 16);
        lemma_low_byte(x >> 24);
        lemma_low_byte(x >> 32);
        lemma_low_byte(x >> 40);
        lemma_low_byte(x >> 48);
        lemma_low_byte(x >> 56);
    }
    out.push((x & 0xff) as u8);
    out.push(((x >> 8) & 0xff) as u8);
    out.push(((x >> 16) & 0xff) as u8);
    out.push(((x >> 24) & 0xff) as u8);
    out.push(((x >> 32) & 0xff) as u8);
    out.push(((x >> 40) & 0xff) as u8);
    out.push(((x >> 48) & 0xff) as u8);
    out.push(((x >> 56) & 0xff) as u8);
    proof {
        assert(out@ =~= old(out)@ + u64_le(x));
    }
}

/// Appends the little-endian bytes of `x` to `out`.
fn push_u32_le(out: &mut Vec<u8>, x: u32)
    ensures
        final(out)@ == old(out)@ + u32_le(x),
{
    proof {
        lemma_low_byte_32(x & 0xff);
        lemma_low_byte_32(x >> 8);
        lemma_low_byte_32(x >> 16);
        lemma_low_byte_32(x >> 24);
    }
    out.push((x & 0xff) as u8);
    out.push(((x >> 8) & 0xff) as u8);
    out.push(((x >> 16) & 0xff) as u8);
    out.push(((x >> 24) & 0xff) as u8);
    proof {
        assert(out@ =~= old(out)@ + u32_le(x));
    }
}

/// Reads a 64-bit integer little-endian from `b[at .. at + 8]`.
fn read_u64_le(b: &Vec<u8>, at: usize) -> (x: u64)
    requires
        at + 8 <= b@.len(),
    ensures
        x == le_u64(b@.subrange(at as int, at as int + 8)),
{
    let n = b.len();
    assert(at + 8 <= n);
    let x: u64 = (b[at] as u64) | ((b[at + 1] as u64) << 8) | ((b[at + 2] as u64) << 16)
        | ((b[at + 3] as u64) << 24) | ((b[at + 4] as u64) << 32) | ((b[at + 5] as u64) << 40)
        | ((b[at + 6] as u64) << 48) | ((b[at + 7] as u64) << 56);
    proof {
        let s = b@.subrange(at as int, at as int + 8);
        assert(s[0] == b@[at as int]);
        assert(s[1] == b@[at as int + 1]);
        assert(s[2] == b@[at as int + 2]);
        assert(s[3] == b@[at as int + 3]);
        assert(s[4] == b@[at as int + 4]);
        assert(s[5] == b@[at as int + 5]);
        assert(s[6] == b@[at as int + 6]);
        assert(s[7] == b@[at as int + 7]);
    }
    x
}

/// Reads a 32-bit integer little-endian from `b[at .. at + 4]`.
fn read_u32_le(b: &Vec<u8>, at: usize) -> (x: u32)
    requires
        at + 4 <= b@.len(),
    ensures
        x == le_u32(b@.subrange(at as int, at as int + 4)),
{
    let n = b.len();
    assert(at + 4 <= n);
    let x: u32 = (b[at] as u32) | ((b[at + 1] as u32) << 8) | ((b[at + 2] as u32) << 16)
        | ((b[at + 3] as u32) << 24);
    proof {
        let s = b@.subrange(at as int, at as int + 4);
        assert(s[0] == b@[at as int]);
        assert(s[1] == b@[at as int + 1]);
        assert(s[2] == b@[at as int + 2]);
        assert(s[3] == b@[at as int + 3]);
    }
    x
}

/// Encodes a request for the wire; `Encode` exactly when the body is too long.
pub fn encode_request(r: &Request) -> (res: Result<Vec<u8>, PoolError>)
    ensures
        res is Ok <==> request_encodable(*r),
        res matches Ok(v) ==> v@ == encoded_request(*r),
        res matches Err(e) ==> e == PoolError::Encode,
{
    match r {
        Request::Ping { ping_id } => {
            let mut out: Vec<u8> = Vec::new();
            push_u32_le(&mut out, PING_METHOD);
            push_u64_le(&mut out, *ping_id);
            Ok(out)
        },
        Request::Raw { method, body } => {
            if body.len() > MAX_BODY_LEN {
                Err(PoolError::Encode)
            } else {
                let mut out: Vec<u8> = Vec::new();
                push_u32_le(&mut out, *method);
                out.extend_from_slice(body.as_slice());
                Ok(out)
            }
        },
    }
}

/// Encodes a response for the wire.
pub fn encode_response(r: &Response) -> (v: Vec<u8>)
    ensures
        v@ == encoded_response(*r),
{
    match r {
        Response::Pong { ping_id } => {
            let mut out: Vec<u8> = Vec::new();
            push_u32_le(&mut out, PONG_METHOD);
            push_u64_le(&mut out, *ping_id);
            out
        },
    }
}

/// Decodes a response payload; the result is pinned for every byte string.
pub fn decode_response(b: &Vec<u8>) -> (res: Result<Response, PoolError>)
    ensures
        res == decoded_response(b@),
{
    if b.len() < 4 {
        Err(PoolError::Decode)
    } else {
        let method = read_u32_le(b, 0);
        proof {
            assert(b@.subrange(0, 4) =~= b@.take(4));
        }
        if method == PONG_METHOD {
            if b.len() == 12 {
                let ping_id = read_u64_le(b, 4);
                proof {
                    assert(b@.subrange(4, 12) =~= b@.skip(4));
                }
                Ok(Response::Pong { ping_id })
            } else {
                Err(PoolError::Decode)
            }
        } else {
            Err(PoolError::UnknownMethod)
        }
    }
}

/// Frames a payload under a correlation identifier.
pub fn encode_frame(msg_id: u64, payload: &Vec<u8>) -> (v: Vec<u8>)
    ensures
        v@ == encoded_frame(msg_id, payload@),
{
    let mut out: Vec<u8> = Vec::new();
    push_u64_le(&mut out, msg_id);
    out.extend_from_slice(payload.as_slice());
    out
}

/// Splits a frame into its correlation identifier and payload; `Decode`
/// exactly when the byte string is shorter than an identifier.
pub fn decode_frame(b: &Vec<u8>) -> (res: Result<Frame, PoolError>)
    ensures
        res is Ok <==> decoded_frame(b@) is Some,
        res matches Ok(f) ==> decoded_frame(b@) == Some((f.msg_id, f.payload@)),
        res matches Err(e) ==> e == PoolError::Decode,
{
    if b.len() < 8 {
        Err(PoolError::Decode)
    } else {
        let msg_id = read_u64_le(b, 0);
        let mut payload: Vec<u8> = Vec::new();
        let mut i: usize = 8;
        while i < b.len()
            invariant
                8 <= i <= b@.len(),
                payload@ == b@.subrange(8, i as int),
            decreases b@.len() - i,
        {
            payload.push(b[i]);
            proof {
                assert(payload@ =~= b@.subrange(8, i as int + 1));
            }
            i = i + 1;
        }
        proof {
            assert(b@.subrange(0, 8) =~= b@.take(8));
            assert(payload@ =~= b@.skip(8));
        }
        Ok(Frame { msg_id, payload })
    }
}

/// Law: a response put on the wire decodes back to itself.
pub proof fn lemma_response_round_trip(r: Response)
    ensures
        decoded_response(encoded_response(r)) == Ok::<Response, PoolError>(r),
{
    match r {
        Response::Pong { ping_id } => {
            let b = encoded_response(r);
            assert(b.take(4) =~= u32_le(PONG_METHOD));
            assert(b.skip(4) =~= u64_le(ping_id));
            lemma_u32_round_trip(PONG_METHOD);
            lemma_u64_round_trip(ping_id);
        },
    }
}

/// Law: a framed payload decodes back to its identifier and payload.
pub proof fn lemma_frame_round_trip(msg_id: u64, payload: Seq<u8>)
    ensures
        decoded_frame(encoded_frame(msg_id, payload)) == Some((msg_id, payload)),
{
    let b = encoded_frame(msg_id, payload);
    assert(b.take(8) =~= u64_le(msg_id));
    assert(b.skip(8) =~= payload);
    lemma_u64_round_trip(msg_id);
}

/// Law: the wire bytes of an encodable request open with exactly the
/// request's method discriminator.
pub proof fn lemma_request_discriminator(r: Request)
    requires
        request_encodable(r),
    ensures
        encoded_request(r).len() >= 4,
        le_u32(encoded_request(r).take(4)) == method_of(r),
{
    let b = encoded_request(r);
    assert(b.take(4) =~= u32_le(method_of(r)));
    lemma_u32_round_trip(method_of(r));
}

} // verus!
