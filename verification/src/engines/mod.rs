//! Key/value storage engines.

use vstd::prelude::*;

pub mod kvs;

pub use self::kvs::KvStore;

verus! {

/// The interface a storage engine offers its collaborators: durable `set`,
/// point `get`, and `remove` over string keys and values.
///
/// An engine carries an abstract key/value map `kv()` and an invariant
/// `inv()`; each operation says how it changes the map. An engine may fail
/// for reasons of its own (I/O, a corrupt store), so success is not owed
/// here; what each outcome means is.
pub trait KvsEngine: Sized {
    /// The key/value mapping the engine currently holds.
    spec fn kv(&self) -> Map<Seq<char>, Seq<char>>;

    /// The engine's internal well-formedness.
    spec fn inv(&self) -> bool;

    /// Sets the value of a string key to a string, overwriting any previous
    /// value.
    fn set(&mut self, key: String, value: String) -> (r: Result<(), crate::KvsError>)
        requires
            old(self).inv(),
        ensures
            final(self).inv(),
            r is Ok ==> final(self).kv() == old(self).kv().insert(key@, value@),
            r is Err ==> final(self).kv() == old(self).kv(),
    ;

    /// Returns the value of a key, or `None` if the key is absent.
    fn get(&mut self, key: String) -> (r: Result<Option<String>, crate::KvsError>)
        requires
            old(self).inv(),
        ensures
            final(self).inv(),
            final(self).kv() == old(self).kv(),
            r matches Ok(v) ==> match v {
                Some(value) => old(self).kv().dom().contains(key@) && old(self).kv()[key@]
                    == value@,
                None => !old(self).kv().dom().contains(key@),
            },
    ;

    /// Removes a key. Fails with `KeyNotFound` if the key is absent.
    fn remove(&mut self, key: String) -> (r: Result<(), crate::KvsError>)
        requires
            old(self).inv(),
        ensures
            final(self).inv(),
            r is Ok ==> old(self).kv().dom().contains(key@) && final(self).kv() == old(
                self,
            ).kv().remove(key@),
            r == Err::<(), crate::KvsError>(crate::KvsError::KeyNotFound) ==> !old(
                self,
            ).kv().dom().contains(key@) && final(self).kv() == old(self).kv(),
    ;
}

} // verus!
