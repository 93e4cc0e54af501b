//! The dispatcher's decisions: how a handler's outcome and the bytes it
//! wrote become the response. The sockets, tasks and pipes that carry
//! these values live outside the verified library.

use vstd::prelude::*;

verus! {

use vstd::string::StrSliceExecFns;
use crate::response::StatusCode;

/// The one failure a handler may signal; it becomes the response's status
/// and body.
pub struct HandlerError {
    pub status_code: StatusCode,
    pub message: String,
}

/// Chooses the response's status and body from the handler's outcome.
/// On success the body is whatever the handler wrote; on a signaled error
/// the status and body come from the error, and anything the handler
/// already wrote is discarded.
pub fn compose_response(outcome: Option<HandlerError>, drained: Vec<u8>) -> (r: (
    StatusCode,
    Vec<u8>,
))
    ensures
        match outcome {
            Some(err) => r.0 == err.status_code && r.1@ == vstd::utf8::encode_utf8(err.message@),
            None => r.0 == StatusCode::Okay && r.1@ == drained@,
        },
{
    match outcome {
        Some(err) => {
            let body = err.message.as_str().as_bytes_vec();
            (err.status_code, body)
        },
        None => (StatusCode::Okay, drained),
    }
}

} // verus!
