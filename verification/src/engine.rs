use crate::error::ErrorMessage;
use vstd::prelude::*;

verus! {

/// The capability that a storage backend offers: set a key to a value, get
/// the value of a key, remove a key. A key that is not there is no error for
/// `get`.
///
/// Whether an operation succeeds is the backend's to decide. A backend that
/// tells what it holds answers for it: where an operation succeeds, the
/// backend holds and returns what a map from key to value would. `set`
/// inserts or overwrites, `remove` deletes, `get` reads and changes nothing.
/// Of a backend that does not tell what it holds, nothing is claimed.
pub trait KvsEngine {
    type Error: ErrorMessage;

    /// Whether `contents` tells what the backend holds.
    open spec fn tells_contents(&self) -> bool {
        false
    }

    /// What the backend holds, where it tells: a map from each key to its
    /// value.
    open spec fn contents(&self) -> Map<Seq<char>, Seq<char>> {
        Map::empty()
    }

    fn set(&mut self, key: String, value: String) -> (r: Result<(), Self::Error>)
        ensures
            final(self).tells_contents() == old(self).tells_contents(),
            old(self).tells_contents() && r is Ok ==> final(self).contents() == old(
                self,
            ).contents().insert(key@, value@),
    ;

    fn get(&mut self, key: String) -> (r: Result<Option<String>, Self::Error>)
        ensures
            final(self).tells_contents() == old(self).tells_contents(),
            old(self).tells_contents() ==> (r matches Ok(found) ==> {
                &&& final(self).contents() == old(self).contents()
                &&& match found {
                    Some(value) => old(self).contents().contains_key(key@) && old(
                        self,
                    ).contents()[key@] == value@,
                    None => !old(self).contents().contains_key(key@),
                }
            }),
    ;

    fn remove(&mut self, key: String) -> (r: Result<(), Self::Error>)
        ensures
            final(self).tells_contents() == old(self).tells_contents(),
            old(self).tells_contents() && r is Ok ==> final(self).contents() == old(
                self,
            ).contents().remove(key@),
    ;
}

} // verus!
