use vstd::prelude::*;
use crate::codec::{
    decoded_response, encode_request, encoded_request, request_encodable, Request, Response,
};
use crate::errors::PoolError;
use crate::pool::{pool_submit_effect, Pool, Ticket};

verus! {

/// What one invocation terminates with, given how its pending call resolved:
/// an error resolution is passed through, a payload resolution is decoded.
pub open spec fn invoke_verdict(outcome: Result<Seq<u8>, PoolError>) -> Result<
    Response,
    PoolError,
> {
    match outcome {
        Ok(payload) => decoded_response(payload),
        Err(e) => Err(e),
    }
}

/// The model of a resolved outcome as plain values.
pub open spec fn outcome_model(outcome: Result<Vec<u8>, PoolError>) -> Result<Seq<u8>, PoolError> {
    match outcome {
        Ok(v) => Ok(v@),
        Err(e) => Err(e),
    }
}

/// The submission half of one typed invocation: encodes the request — an
/// unencodable request is answered `Encode` without touching the pool — and
/// hands the wire bytes to the pool's round-robin routing. The ticket names
/// the slot and correlation identifier under which the response will arrive.
pub fn begin_invoke(pool: &mut Pool, req: &Request) -> (res: Result<Ticket, PoolError>)
    requires
        old(pool)@.wf(),
    ensures
        final(pool)@.wf(),
        !request_encodable(*req) ==> res == Err::<Ticket, PoolError>(PoolError::Encode)
            && final(pool)@ == old(pool)@,
        request_encodable(*req) ==> pool_submit_effect(
            old(pool)@,
            final(pool)@,
            encoded_request(*req),
            res,
        ),
{
    match encode_request(req) {
        Ok(payload) => pool.submit(payload),
        Err(e) => Err(e),
    }
}

/// The completion half of one typed invocation: turns the resolution of the
/// pending call into the typed verdict — the payload decoded, or the terminal
/// error (`ConnectionClosed` on teardown) passed through. Exactly the map
/// `invoke_verdict`, for every outcome.
pub fn finish_invoke(outcome: Result<Vec<u8>, PoolError>) -> (res: Result<Response, PoolError>)
    ensures
        res == invoke_verdict(outcome_model(outcome)),
{
    match outcome {
        Ok(payload) => crate::codec::decode_response(&payload),
        Err(e) => Err(e),
    }
}

/// Law: an invocation never re-enters the waiting state and never hangs —
/// every resolved outcome maps to exactly one terminal verdict, and a call
/// torn down with `ConnectionClosed` terminates with `ConnectionClosed`.
pub proof fn lemma_every_outcome_terminates(outcome: Result<Seq<u8>, PoolError>)
    ensures
        outcome matches Err(e) ==> invoke_verdict(outcome) == Err::<Response, PoolError>(e),
        outcome matches Ok(payload) ==> invoke_verdict(outcome) == decoded_response(payload),
{
}

} // verus!
