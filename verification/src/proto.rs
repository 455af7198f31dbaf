//! The tagged structures that travel over the wire and into the log.

use crate::err::KvsError;
use vstd::prelude::*;

verus! {

/// Request from client to server
#[derive(Debug, PartialEq, Eq)]
pub enum Request {
    /// Set the value of a string key to a string
    Put {
        /// A string key
        key: String,
        /// A string value of the key
        value: String,
    },
    /// Get value from a given key
    Get {
        /// A string key
        key: String,
    },
    /// Remove a given key
    Rm {
        /// A string key
        key: String,
    },
}

/// Response from server to client
#[derive(Debug, PartialEq, Eq)]
pub enum Response {
    /// Success status
    Success {
        /// The result of the given command
        result: Option<String>,
    },
    /// Fail status
    Fail {
        /// Error message
        message: String,
    },
}

/// Command log object for the store; a `Get` is never persisted
#[derive(Debug, PartialEq, Eq)]
pub enum Command {
    /// Set the value of a string key to a string
    Put {
        /// A string key
        key: String,
        /// A string value of the key
        value: String,
    },
    /// Remove a given key
    Rm {
        /// A string key
        key: String,
    },
}

/// The mathematical shape of a `Request`: its fields as character sequences.
pub enum RequestView {
    /// Model of `Request::Put`
    Put { key: Seq<char>, value: Seq<char> },
    /// Model of `Request::Get`
    Get { key: Seq<char> },
    /// Model of `Request::Rm`
    Rm { key: Seq<char> },
}

/// The mathematical shape of a `Response`.
pub enum ResponseView {
    /// Model of `Response::Success`
    Success { result: Option<Seq<char>> },
    /// Model of `Response::Fail`
    Fail { message: Seq<char> },
}

/// The mathematical shape of a `Command`.
pub enum CommandView {
    /// Model of `Command::Put`
    Put { key: Seq<char>, value: Seq<char> },
    /// Model of `Command::Rm`
    Rm { key: Seq<char> },
}

impl View for Request {
    type V = RequestView;

    open spec fn view(&self) -> RequestView {
        match self {
            Request::Put { key, value } => RequestView::Put { key: key@, value: value@ },
            Request::Get { key } => RequestView::Get { key: key@ },
            Request::Rm { key } => RequestView::Rm { key: key@ },
        }
    }
}

impl View for Response {
    type V = ResponseView;

    open spec fn view(&self) -> ResponseView {
        match self {
            Response::Success { result: Some(v) } => ResponseView::Success { result: Some(v@) },
            Response::Success { result: None } => ResponseView::Success { result: None },
            Response::Fail { message } => ResponseView::Fail { message: message@ },
        }
    }
}

impl View for Command {
    type V = CommandView;

    open spec fn view(&self) -> CommandView {
        match self {
            Command::Put { key, value } => CommandView::Put { key: key@, value: value@ },
            Command::Rm { key } => CommandView::Rm { key: key@ },
        }
    }
}

/// Turn a server `Response` into the client-side outcome of a request: the
/// optional result on success, or a `Server` error carrying the message.
pub fn response_result(resp: Response) -> (r: Result<Option<String>, KvsError>)
    ensures
        match resp@ {
            ResponseView::Success { result } => {
                &&& r is Ok
                &&& match (r, result) {
                    (Ok(Some(v)), Some(m)) => v@ == m,
                    (Ok(None), None) => true,
                    _ => false,
                }
            },
            ResponseView::Fail { message } => r matches Err(KvsError::Server(m)) && m@ == message,
        },
{
    match resp {
        Response::Success { result } => Ok(result),
        Response::Fail { message } => Err(KvsError::Server(message)),
    }
}

} // verus!
