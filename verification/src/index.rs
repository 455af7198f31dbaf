//! The in-memory index: a concurrent map from key to log position.
//!
//! The map is an `evmap`, a left-right concurrent hash map: writes go to a
//! staged side and become visible to readers only when published.  This
//! module holds the map behind a small trusted surface; everything the
//! engine proves about the index rests on the contracts here, which state
//! what `evmap`'s source shows about `update`, `remove_entry`, `publish`
//! and `get_one`.

use crate::kv::Position;
use vstd::prelude::*;

verus! {

/// The index: both halves of one `evmap`, owned together.  The write
/// handle also serves reads of the published side.
#[verifier::external_body]
pub struct Index {
    write: evmap::handles::WriteHandle<String, (u64, u64, u64, u64)>,
}

/// What the writer has staged: the contents of the map as they will be
/// after the next publish.
pub uninterp spec fn index_staged(i: Index) -> Map<Seq<char>, Position>;

/// What readers see: the contents of the map as of the last publish.
pub uninterp spec fn index_live(i: Index) -> Map<Seq<char>, Position>;

impl Index {
    /// An empty index.  Relies on `evmap::new`: nothing is staged, and
    /// readers of the fresh map see no entries.
    #[verifier::external_body]
    pub fn new() -> (out: Index)
        ensures
            index_staged(out) == index_live(out),
            forall|k: Seq<char>| !index_live(out).dom().contains(k),
    {
        let (write, _read) = evmap::new();
        Index { write }
    }

    /// Stages `key` to map to `pos`.  Relies on `evmap::WriteHandle::update`:
    /// it replaces the key's value bag with the one given value, visible
    /// after the next publish.
    #[verifier::external_body]
    pub fn update(&mut self, key: String, pos: Position)
        ensures
            index_staged(*final(self)) == index_staged(*old(self)).insert(key@, pos),
            index_live(*final(self)) == index_live(*old(self)),
    {
        self.write.update(key, (pos.gen, pos.file, pos.position, pos.size));
    }

    /// Stages the removal of `key`.  Relies on
    /// `evmap::WriteHandle::remove_entry`: it removes the key's value bag,
    /// visible after the next publish.
    #[verifier::external_body]
    pub fn remove(&mut self, key: String)
        ensures
            index_staged(*final(self)) == index_staged(*old(self)).remove(key@),
            index_live(*final(self)) == index_live(*old(self)),
    {
        self.write.remove_entry(key);
    }

    /// Makes all staged changes visible to readers.  Relies on
    /// `evmap::WriteHandle::publish`.
    #[verifier::external_body]
    pub fn publish(&mut self)
        ensures
            index_staged(*final(self)) == index_staged(*old(self)),
            index_live(*final(self)) == index_staged(*old(self)),
    {
        self.write.publish();
    }

    /// Looks `key` up on the published side.  Relies on
    /// `evmap::ReadHandle::get_one`, reached through the write handle:
    /// it returns a value for the key as of the last publish, or nothing.
    #[verifier::external_body]
    pub fn get_one(&self, key: &String) -> (r: Option<Position>)
        ensures
            r == if index_live(*self).dom().contains(key@) {
                Some(index_live(*self)[key@])
            } else {
                None::<Position>
            },
    {
        match self.write.get_one(key) {
            Some(guard) => {
                let (gen, file, position, size) = *guard;
                Some(Position { gen, file, position, size })
            },
            None => None,
        }
    }
}

} // verus!
