//! Errors that are answered to a request.
use vstd::prelude::*;

verus! {

/// An HTTP status code and the message for the client.
#[derive(Debug)]
pub struct AppError(pub u16, pub String);

impl AppError {
    /// Whether the error has this status and message.
    pub open spec fn says(&self, status: int, message: Seq<char>) -> bool {
        self.0 == status && self.1@ == message
    }

    /// Something asked for does not exist.
    pub fn not_found(msg: &str) -> (r: Self)
        ensures
            r.says(404, msg@),
    {
        AppError(404, msg.to_owned())
    }

    /// The request itself is at fault.
    pub fn bad_request(msg: &str) -> (r: Self)
        ensures
            r.says(400, msg@),
    {
        AppError(400, msg.to_owned())
    }

    /// Something failed on the server.
    pub fn internal(msg: &str) -> (r: Self)
        ensures
            r.says(500, msg@),
    {
        AppError(500, msg.to_owned())
    }
}

/// What was found, or the error that it was not.
pub fn found<T>(row: Option<T>, msg: &str) -> (r: Result<T, AppError>)
    ensures
        match row {
            Some(t) => r == Ok::<T, AppError>(t),
            None => r is Err && r->Err_0.says(404, msg@),
        },
{
    match row {
        Some(t) => Ok(t),
        None => Err(AppError::not_found(msg)),
    }
}

/// What an error says is its status and its message, the whole of it.
pub proof fn law_error_says_what_it_holds(e: AppError, status: int, message: Seq<char>)
    ensures
        e.says(status, message) <==> (e.0 == status && e.1@ == message),
{
}

} // verus!
