use vstd::prelude::*;

use crate::message::MessageError;

verus! {

/// `std::io::Error`, carried through the server's error types.
#[verifier::external_type_specification]
#[verifier::external_body]
pub struct ExIoError(std::io::Error);

/// Fatal errors that stop the server entirely.
#[derive(Debug)]
pub enum ServerError {
    Io(std::io::Error),
}

/// Errors that occur while handling a single request; the server logs these
/// and keeps running.
#[derive(Debug)]
pub enum RequestError {
    Io(std::io::Error),
    Message(MessageError),
}

impl From<std::io::Error> for ServerError {
    fn from(e: std::io::Error) -> (r: ServerError) {
        ServerError::Io(e)
    }
}

impl vstd::std_specs::convert::FromSpecImpl<std::io::Error> for ServerError {
    open spec fn obeys_from_spec() -> bool {
        true
    }

    open spec fn from_spec(e: std::io::Error) -> ServerError {
        ServerError::Io(e)
    }
}

impl From<std::io::Error> for RequestError {
    fn from(e: std::io::Error) -> (r: RequestError) {
        RequestError::Io(e)
    }
}

impl vstd::std_specs::convert::FromSpecImpl<std::io::Error> for RequestError {
    open spec fn obeys_from_spec() -> bool {
        true
    }

    open spec fn from_spec(e: std::io::Error) -> RequestError {
        RequestError::Io(e)
    }
}

impl From<MessageError> for RequestError {
    fn from(e: MessageError) -> (r: RequestError) {
        RequestError::Message(e)
    }
}

impl vstd::std_specs::convert::FromSpecImpl<MessageError> for RequestError {
    open spec fn obeys_from_spec() -> bool {
        true
    }

    open spec fn from_spec(e: MessageError) -> RequestError {
        RequestError::Message(e)
    }
}

} // verus!
