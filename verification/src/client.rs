//! The client's part in a connection: what an operation has come to, given
//! the response that came back.

use crate::error::KvError;
use crate::network::Response;
use vstd::prelude::*;
use vstd::string::StringExecFns;

verus! {

/// The message of the error for a response that does not answer the request.
pub open spec fn invalid_response() -> Seq<char> {
    "Invalid response"@
}

/// The message of the error for a connection that ended without a response.
pub open spec fn no_response() -> Seq<char> {
    "No response received"@
}

/// Whether `error` is the error that carries `message` from the other end.
pub open spec fn carries(error: KvError, message: Seq<char>) -> bool {
    error matches KvError::StringError(text) && text@ == message
}

/// The client of a store: it makes the requests and reads the responses.
pub struct Client {}

impl Client {
    /// What reading a key has come to: the value that the server found, or
    /// the error that the server reported. Another response, or none, is an
    /// error of its own.
    pub fn get(response: Option<Response>) -> (result: Result<Option<String>, KvError>)
        ensures
            response matches Some(Response::Get(found)) ==> result == Ok::<
                Option<String>,
                KvError,
            >(found),
            response matches Some(Response::Error(message)) ==> (result matches Err(e) && carries(
                e,
                message@,
            )),
            response matches Some(Response::Put) ==> (result matches Err(e) && carries(
                e,
                invalid_response(),
            )),
            response matches Some(Response::Remove) ==> (result matches Err(e) && carries(
                e,
                invalid_response(),
            )),
            response is None ==> (result matches Err(e) && carries(e, no_response())),
    {
        match response {
            Some(Response::Get(found)) => Ok(found),
            Some(Response::Error(message)) => Err(KvError::StringError(message)),
            Some(_) => Err(KvError::StringError(String::from_str("Invalid response"))),
            None => Err(KvError::StringError(String::from_str("No response received"))),
        }
    }

    /// What setting a key has come to: success, or the error that the
    /// server reported. Another response, or none, is an error of its own.
    pub fn set(response: Option<Response>) -> (result: Result<(), KvError>)
        ensures
            response matches Some(Response::Put) ==> result is Ok,
            response matches Some(Response::Error(message)) ==> (result matches Err(e) && carries(
                e,
                message@,
            )),
            response matches Some(Response::Get(_)) ==> (result matches Err(e) && carries(
                e,
                invalid_response(),
            )),
            response matches Some(Response::Remove) ==> (result matches Err(e) && carries(
                e,
                invalid_response(),
            )),
            response is None ==> (result matches Err(e) && carries(e, no_response())),
    {
        match response {
            Some(Response::Put) => Ok(()),
            Some(Response::Error(message)) => Err(KvError::StringError(message)),
            Some(_) => Err(KvError::StringError(String::from_str("Invalid response"))),
            None => Err(KvError::StringError(String::from_str("No response received"))),
        }
    }

    /// What removing a key has come to: success, or the error that the
    /// server reported. Another response, or none, is an error of its own.
    pub fn remove(response: Option<Response>) -> (result: Result<(), KvError>)
        ensures
            response matches Some(Response::Remove) ==> result is Ok,
            response matches Some(Response::Error(message)) ==> (result matches Err(e) && carries(
                e,
                message@,
            )),
            response matches Some(Response::Get(_)) ==> (result matches Err(e) && carries(
                e,
                invalid_response(),
            )),
            response matches Some(Response::Put) ==> (result matches Err(e) && carries(
                e,
                invalid_response(),
            )),
            response is None ==> (result matches Err(e) && carries(e, no_response())),
    {
        match response {
            Some(Response::Remove) => Ok(()),
            Some(Response::Error(message)) => Err(KvError::StringError(message)),
            Some(_) => Err(KvError::StringError(String::from_str("Invalid response"))),
            None => Err(KvError::StringError(String::from_str("No response received"))),
        }
    }
}

} // verus!
