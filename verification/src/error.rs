//! Error codes returned by the registry: all local, recoverable errors.

use vstd::prelude::*;

verus! {

pub const ERROR_PARSE: i32 = 1;
pub const ERROR_MESSAGE_SIZE_TOO_LARGE: i32 = 2;
pub const ERROR_INVALID_SUBJECT: i32 = 3;
pub const ERROR_SUBSCRIPTION_NOT_FOUND: i32 = 4;
pub const ERROR_CONNECTION_CLOSED: i32 = 5;
pub const ERROR_UNKNOWN_ERROR: i32 = 6;
pub const ERROR_INVALID_PATTERN: i32 = 7;

/// A broker error, identified by a numeric code.
#[derive(Debug, Clone, Copy, PartialEq, Eq, Structural)]
pub struct RmqError {
    pub err_code: i32,
}

impl RmqError {
    pub fn new(err_code: i32) -> (r: Self)
        ensures
            r.err_code == err_code,
    {
        RmqError { err_code }
    }

    /// A short human-readable description of the error code.
    pub fn error_description(&self) -> (r: &'static str)
        ensures
            self.err_code == ERROR_PARSE ==> r@ == "parse error"@,
            self.err_code != ERROR_PARSE ==> r@ == "unknown error"@,
    {
        if self.err_code == ERROR_PARSE {
            "parse error"
        } else {
            "unknown error"
        }
    }
}

} // verus!
