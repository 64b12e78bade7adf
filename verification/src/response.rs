//! The response envelope that every operation's result is wrapped in
//! before it leaves the system: a numeric status code, a message, and an
//! optional payload.

use vstd::prelude::*;

verus! {

/// A response envelope: `data` carries the payload on success and is
/// absent on failure.
pub struct ApiResponse<T> {
    pub code: u16,
    pub message: String,
    pub data: Option<T>,
}

impl<T> ApiResponse<T> {
    /// A success envelope: the given status code, the message `OK`, and
    /// the payload.
    pub fn new_ok(code: u16, data: T) -> (r: ApiResponse<T>)
        ensures
            r.code == code,
            r.message@ == "OK"@,
            r.data == Some(data),
    {
        ApiResponse { code, message: String::from_str("OK"), data: Some(data) }
    }

    /// A failure envelope: the given status code and message, no payload.
    pub fn new_err(code: u16, msg: String) -> (r: ApiResponse<T>)
        ensures
            r.code == code,
            r.message == msg,
            r.data is None,
    {
        ApiResponse { code, message: msg, data: None }
    }
}

} // verus!
