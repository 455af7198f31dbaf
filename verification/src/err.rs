//! The error type shared by the engine, the codec and the server.

use vstd::prelude::*;

verus! {

/// This type represents all possible errors that can occur in `kvs`.
///
/// Filesystem and socket errors arise outside the verified library; the
/// surrounding process reports them through the `Io` variant, carrying the
/// rendered message.
#[derive(Debug, PartialEq, Eq)]
pub enum KvsError {
    /// Io errors, rendered to text by the caller that performed the I/O
    Io(String),
    /// Command serialize error
    Serialize(String),
    /// Command deserialize error
    Deserialize(String),
    /// Commands executed on the server failed
    Server(String),
    /// Key does not exist
    KeyNotFound,
    /// Invalid engine
    InValidEngine,
    /// Requested engine differs from the persisted one
    EngineMismatch,
    /// Unexpected command
    UnexpectedCommand,
}

impl KvsError {
    /// The human-readable message for this error, one line, stable across
    /// the client and the server.
    pub fn message(&self) -> (r: String)
        ensures
            r@ == self.message_view(),
    {
        match self {
            KvsError::Io(s) => String::from_str("Io errors: ").concat(s.as_str()),
            KvsError::Serialize(s) => String::from_str("Command serialize error: ").concat(
                s.as_str(),
            ),
            KvsError::Deserialize(s) => String::from_str("Command deserialize error: ").concat(
                s.as_str(),
            ),
            KvsError::Server(s) => String::from_str("Commands execute on server failed: ").concat(
                s.as_str(),
            ),
            KvsError::KeyNotFound => String::from_str("Key not found"),
            KvsError::InValidEngine => String::from_str("Invalid engine"),
            KvsError::EngineMismatch => String::from_str(
                "currently selected engine is inconsistent with the persisted data engine",
            ),
            KvsError::UnexpectedCommand => String::from_str("Unexpected command"),
        }
    }

    /// What `message` returns, as a sequence of characters.
    pub open spec fn message_view(&self) -> Seq<char> {
        match self {
            KvsError::Io(s) => "Io errors: "@ + s@,
            KvsError::Serialize(s) => "Command serialize error: "@ + s@,
            KvsError::Deserialize(s) => "Command deserialize error: "@ + s@,
            KvsError::Server(s) => "Commands execute on server failed: "@ + s@,
            KvsError::KeyNotFound => "Key not found"@,
            KvsError::InValidEngine => "Invalid engine"@,
            KvsError::EngineMismatch
                => "currently selected engine is inconsistent with the persisted data engine"@,
            KvsError::UnexpectedCommand => "Unexpected command"@,
        }
    }
}

} // verus!
