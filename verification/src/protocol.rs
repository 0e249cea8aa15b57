//! The wire protocol's data model: one request and one matching response
//! per exchange, carried length-framed over the connection by the network
//! front end.

use vstd::prelude::*;
use crate::errors::KvsError;

verus! {

/// A request sent from a client to the server.
#[derive(Debug, Clone)]
pub enum Request {
    /// Get the value associated with a key.
    Get {
        /// The key to look up.
        key: String,
    },
    /// Associate a key with a value.
    Put {
        /// The key to write.
        key: String,
        /// The value to store under the key.
        value: String,
    },
    /// Remove a key and its value.
    Remove {
        /// The key to remove.
        key: String,
    },
}

/// A response sent from the server back to a client.
#[derive(Debug, Clone)]
pub enum Response {
    /// Outcome of a `Get`: the value, or nothing when the key is absent.
    Get(Option<String>),
    /// A `Put` succeeded.
    Put,
    /// A `Remove` succeeded.
    Remove,
    /// The request failed, with the reason.
    Failure(String),
}

impl Response {
    /// Interprets this response to a `Get` request, as the client does: a
    /// `Get` response carries the answer, a `Failure` response carries the
    /// server's failure, and any other response is a protocol violation.
    pub fn into_get_result(self) -> (r: Result<Option<String>, KvsError>)
        ensures
            self matches Response::Get(v) ==> (r matches Ok(out) && out == v),
            !(self is Get) ==> r.is_err(),
    {
        match self {
            Response::Get(value) => Ok(value),
            Response::Failure(e) => Err(KvsError::StringError(e)),
            _ => Err(KvsError::StringError(String::new())),
        }
    }

    /// Interprets this response to a `Put` request, as the client does.
    pub fn into_put_result(self) -> (r: Result<(), KvsError>)
        ensures
            self is Put <==> r.is_ok(),
    {
        match self {
            Response::Put => Ok(()),
            Response::Failure(e) => Err(KvsError::StringError(e)),
            _ => Err(KvsError::StringError(String::new())),
        }
    }

    /// Interprets this response to a `Remove` request, as the client does.
    pub fn into_remove_result(self) -> (r: Result<(), KvsError>)
        ensures
            self is Remove <==> r.is_ok(),
    {
        match self {
            Response::Remove => Ok(()),
            Response::Failure(e) => Err(KvsError::StringError(e)),
            _ => Err(KvsError::StringError(String::new())),
        }
    }
}

} // verus!
