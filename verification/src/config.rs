//! Choice of the storage backend, persisted in the store's `engine`
//! file.  The surrounding process reads and writes that file; the rules
//! for interpreting it live here.

use crate::err::KvsError;
use vstd::prelude::*;

verus! {

/// The storage backend a store directory was created with.
#[derive(Debug, PartialEq, Eq, Structural, Clone, Copy)]
pub enum Engine {
    /// This crate's log-structured engine.
    Kvs,
    /// An embedded third-party engine.
    Sled,
}

impl Engine {
    /// Parses the persisted engine name; anything but the two known
    /// names is invalid.
    pub fn from_str(s: &str) -> (r: Result<Engine, KvsError>)
        ensures
            r == (if s@ == "kvs"@ {
                Ok::<Engine, KvsError>(Engine::Kvs)
            } else if s@ == "sled"@ {
                Ok::<Engine, KvsError>(Engine::Sled)
            } else {
                Err::<Engine, KvsError>(KvsError::InValidEngine)
            }),
    {
        let owned = String::from_str(s);
        if owned == String::from_str("kvs") {
            Ok(Engine::Kvs)
        } else if owned == String::from_str("sled") {
            Ok(Engine::Sled)
        } else {
            Err(KvsError::InValidEngine)
        }
    }

    /// The engine's persisted name.
    pub fn name(&self) -> (r: String)
        ensures
            self is Kvs ==> r@ == "kvs"@,
            self is Sled ==> r@ == "sled"@,
    {
        match self {
            Engine::Kvs => String::from_str("kvs"),
            Engine::Sled => String::from_str("sled"),
        }
    }
}

/// Decides which engine a server run uses, from what the store directory
/// already persisted and what the command line requested.  The first run
/// picks the requested engine, or this crate's own by default, and must
/// persist the choice; later runs must agree with the persisted one.
/// The second component of a successful result says whether the choice
/// still has to be written to the engine file.
pub fn resolve_engine(persisted: Option<Engine>, requested: Option<Engine>) -> (r: Result<
    (Engine, bool),
    KvsError,
>)
    ensures
        match (persisted, requested) {
            (None, None) => r == Ok::<(Engine, bool), KvsError>((Engine::Kvs, true)),
            (None, Some(e)) => r == Ok::<(Engine, bool), KvsError>((e, true)),
            (Some(p), None) => r == Ok::<(Engine, bool), KvsError>((p, false)),
            (Some(p), Some(e)) => r == (if p == e {
                Ok::<(Engine, bool), KvsError>((e, false))
            } else {
                Err::<(Engine, bool), KvsError>(KvsError::EngineMismatch)
            }),
        },
{
    match (persisted, requested) {
        (None, None) => Ok((Engine::Kvs, true)),
        (None, Some(e)) => Ok((e, true)),
        (Some(p), None) => Ok((p, false)),
        (Some(p), Some(e)) => {
            if p == e {
                Ok((e, false))
            } else {
                Err(KvsError::EngineMismatch)
            }
        },
    }
}

} // verus!
