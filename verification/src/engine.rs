//! The storage-engine interface that the server dispatches against.

use crate::err::KvsError;
use crate::kv::KvStore;
use vstd::prelude::*;

verus! {

/// A key-value storage engine: a mutable mapping from string keys to
/// string values with persistent backing.
///
/// `model` is the engine's logical contents and `inv` its well-formedness;
/// every operation is specified against them, so a caller generic over
/// the engine still knows exactly what each call did.
pub trait KvsEngine: Sized {
    /// The logical contents: each live key's value.
    spec fn model(&self) -> Map<Seq<char>, Seq<char>>;

    /// The engine's internal invariant.
    spec fn inv(&self) -> bool;

    /// Gets the value of a key, or nothing when the key is absent.
    fn get(&self, key: String) -> (r: Result<Option<String>, KvsError>)
        requires
            self.inv(),
        ensures
            match r {
                Ok(v) => match v {
                    Some(s) => self.model().dom().contains(key@) && s@ == self.model()[key@],
                    None => !self.model().dom().contains(key@),
                },
                Err(_) => true,
            },
    ;

    /// Sets the value of a key; an existing value is overwritten.
    fn set(&mut self, key: String, value: String) -> (r: Result<(), KvsError>)
        requires
            old(self).inv(),
        ensures
            final(self).inv(),
            r is Ok ==> final(self).model() == old(self).model().insert(key@, value@),
            r is Err ==> final(self).model() == old(self).model(),
    ;

    /// Removes a key; removing an absent key fails with `KeyNotFound`.
    fn remove(&mut self, key: String) -> (r: Result<(), KvsError>)
        requires
            old(self).inv(),
        ensures
            final(self).inv(),
            r is Ok ==> old(self).model().dom().contains(key@) && final(self).model() == old(
                self,
            ).model().remove(key@),
            r is Err ==> final(self).model() == old(self).model(),
            !old(self).model().dom().contains(key@) ==> r matches Err(KvsError::KeyNotFound),
    ;
}

impl KvsEngine for KvStore {
    open spec fn model(&self) -> Map<Seq<char>, Seq<char>> {
        self.view()
    }

    open spec fn inv(&self) -> bool {
        self.wf()
    }

    fn get(&self, key: String) -> (r: Result<Option<String>, KvsError>) {
        KvStore::get(self, key)
    }

    fn set(&mut self, key: String, value: String) -> (r: Result<(), KvsError>) {
        KvStore::set(self, key, value)
    }

    fn remove(&mut self, key: String) -> (r: Result<(), KvsError>) {
        KvStore::remove(self, key)
    }
}

} // verus!
