//! The storage-engine interface.
//!
//! An engine represents one key/value mapping; the trait's contracts say
//! how each operation relates to that mapping, so a front end written
//! against the trait inherits those guarantees whatever the engine.

use vstd::prelude::*;
use crate::errors::KvsError;
use crate::store::KvStore;

verus! {

/// A key/value storage engine.
pub trait KvsEngine: Sized {
    /// The key/value mapping the engine currently represents.
    spec fn kv_view(&self) -> Map<Seq<char>, Seq<char>>;

    /// The engine's internal invariant.
    spec fn engine_inv(&self) -> bool;

    /// Sets the value of a key. On success the mapping gains exactly this
    /// pair; on failure it is unchanged.
    fn set(&mut self, key: String, value: String) -> (r: Result<(), KvsError>)
        requires
            old(self).engine_inv(),
        ensures
            final(self).engine_inv(),
            r is Ok ==> final(self).kv_view() == old(self).kv_view().insert(key@, value@),
            r.is_err() ==> final(self).kv_view() == old(self).kv_view(),
    ;

    /// Gets the value of a key, or `None` when the key is absent. The
    /// mapping is never changed.
    fn get(&mut self, key: String) -> (r: Result<Option<String>, KvsError>)
        requires
            old(self).engine_inv(),
        ensures
            final(self).engine_inv(),
            final(self).kv_view() == old(self).kv_view(),
            r matches Ok(Some(v)) ==> old(self).kv_view().dom().contains(key@) && old(self).kv_view()[key@] == v@,
            r matches Ok(None) ==> !old(self).kv_view().dom().contains(key@),
    ;

    /// Removes a key. On success the key was present and is gone now; on
    /// failure the mapping is unchanged, and `KeyNotFound` in particular
    /// means the key was absent.
    fn remove(&mut self, key: String) -> (r: Result<(), KvsError>)
        requires
            old(self).engine_inv(),
        ensures
            final(self).engine_inv(),
            r is Ok ==> old(self).kv_view().dom().contains(key@) && final(self).kv_view() == old(self).kv_view().remove(key@),
            r.is_err() ==> final(self).kv_view() == old(self).kv_view(),
            r matches Err(e) && e is KeyNotFound ==> !old(self).kv_view().dom().contains(key@),
    ;
}

impl KvsEngine for KvStore {
    open spec fn kv_view(&self) -> Map<Seq<char>, Seq<char>> {
        self.kv()
    }

    open spec fn engine_inv(&self) -> bool {
        self.wf()
    }

    fn set(&mut self, key: String, value: String) -> Result<(), KvsError> {
        KvStore::set(self, key, value)
    }

    fn get(&mut self, key: String) -> Result<Option<String>, KvsError> {
        KvStore::get(self, key)
    }

    fn remove(&mut self, key: String) -> Result<(), KvsError> {
        KvStore::remove(self, key)
    }
}

} // verus!
