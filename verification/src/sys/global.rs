//! The error type shared by the whole library.

use vstd::prelude::*;

verus! {

/// An error carrying nothing but a human-readable message.
#[derive(Debug)]
pub struct GlobalError {
    pub msg: String,
}

impl GlobalError {
    pub fn new(msg: String) -> (r: Self)
        ensures
            r.msg == msg,
    {
        GlobalError { msg }
    }

    /// The message, for callers that want to show the error.
    pub fn message(&self) -> (r: &String)
        ensures
            r == &self.msg,
    {
        &self.msg
    }
}

/// The result type used throughout the library.
pub type GlobalResult<T> = Result<T, GlobalError>;

/// Turns any result whose error can describe itself into a `GlobalResult`,
/// keeping the success value untouched.
pub fn to_global_result<T, E: core::fmt::Display>(result: Result<T, E>) -> (r: GlobalResult<T>)
    ensures
        r is Ok <==> result is Ok,
        result matches Ok(v) ==> r matches Ok(w) && v == w,
{
    match result {
        Ok(v) => Ok(v),
        Err(err) => Err(GlobalError { msg: err.to_string() }),
    }
}

} // verus!
