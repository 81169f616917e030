//! What is answered when a request cannot be served.
use vstd::prelude::*;
use vstd::string::*;

verus! {

/// The error of a request that failed, as it is rejected to the client.
#[derive(Debug)]
pub struct ServerError<E> {
    pub error: E,
}

impl<E> From<E> for ServerError<E> {
    fn from(error: E) -> (rejection: Self) {
        ServerError { error }
    }
}

impl<E> vstd::std_specs::convert::FromSpecImpl<E> for ServerError<E> {
    open spec fn obeys_from_spec() -> bool {
        true
    }

    open spec fn from_spec(error: E) -> Self {
        ServerError { error }
    }
}

/// `reqwest::Error`, which is carried along and displayed. Nothing is claimed of what it holds.
#[verifier::external_type_specification]
#[verifier::external_body]
pub struct ExRequestError(reqwest::Error);

/// `serde_json::Error`, which is carried along and displayed. Nothing is claimed of what it holds.
#[verifier::external_type_specification]
#[verifier::external_body]
pub struct ExJsonError(serde_json::Error);

/// Why the subscriptions of a server could not be had.
#[derive(Debug)]
pub enum SubszError {
    RequestError(reqwest::Error),
    JsonError(serde_json::Error),
}

impl From<reqwest::Error> for SubszError {
    fn from(err: reqwest::Error) -> (error: Self) {
        SubszError::RequestError(err)
    }
}

impl vstd::std_specs::convert::FromSpecImpl<reqwest::Error> for SubszError {
    open spec fn obeys_from_spec() -> bool {
        true
    }

    open spec fn from_spec(err: reqwest::Error) -> Self {
        SubszError::RequestError(err)
    }
}

impl From<serde_json::Error> for SubszError {
    fn from(err: serde_json::Error) -> (error: Self) {
        SubszError::JsonError(err)
    }
}

impl vstd::std_specs::convert::FromSpecImpl<serde_json::Error> for SubszError {
    open spec fn obeys_from_spec() -> bool {
        true
    }

    open spec fn from_spec(err: serde_json::Error) -> Self {
        SubszError::JsonError(err)
    }
}

/// What is said of a request that failed, given what the failing crate says.
pub fn request_error_text(said: &str) -> (text: String)
    ensures
        text@ == "Request error: "@ + said@,
{
    "Request error: ".to_owned().concat(said)
}

/// What is said of an answer that is not the JSON it should be, given what the failing crate says.
pub fn json_error_text(said: &str) -> (text: String)
    ensures
        text@ == "JSON error: "@ + said@,
{
    "JSON error: ".to_owned().concat(said)
}

impl SubszError {
    /// The error in words: which step failed, and what the failing crate says of it.
    pub fn message(&self) -> (text: String)
        ensures
            match self {
                SubszError::RequestError(err) => exists|said: String|
                    to_string_from_display_ensures(err, said) && text@ == "Request error: "@
                        + said@,
                SubszError::JsonError(err) => exists|said: String|
                    to_string_from_display_ensures(err, said) && text@ == "JSON error: "@ + said@,
            },
    {
        match self {
            SubszError::RequestError(err) => {
                let said = err.to_string();
                request_error_text(said.as_str())
            },
            SubszError::JsonError(err) => {
                let said = err.to_string();
                json_error_text(said.as_str())
            },
        }
    }
}

/// The answer to a request that only changes what is stored: nothing on success, and the error of
/// the store, wrapped, on failure.
pub fn acknowledge<T, E>(outcome: Result<T, E>) -> (answer: Result<(), ServerError<E>>)
    ensures
        answer == (match outcome {
            Ok(_) => Ok::<(), ServerError<E>>(()),
            Err(error) => Err(ServerError { error }),
        }),
{
    match outcome {
        Ok(_) => Ok(()),
        Err(e) => Err(ServerError::from(e)),
    }
}

} // verus!
