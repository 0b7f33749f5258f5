//! The alternate backend: the same capability, kept by the `sled` database.

use crate::engine::KvsEngine;
use crate::error::ErrorMessage;
use crate::text::string_from_utf8;
use std::path::PathBuf;
use vstd::prelude::*;
use vstd::utf8::*;

verus! {

#[verifier::external_type_specification]
#[verifier::external_body]
pub struct ExDb(sled::Db);

#[verifier::external_type_specification]
#[verifier::external_body]
pub struct ExSledError(sled::Error);

#[verifier::external_type_specification]
#[verifier::external_body]
pub struct ExPathBuf(std::path::PathBuf);

/// `sled::open`: opens the database in the directory, or creates it. Whether
/// it succeeds depends on the file system, so nothing is claimed of the
/// result.
#[verifier::external_body]
fn sled_open(directory: &PathBuf) -> Result<sled::Db, sled::Error> {
    sled::open(directory)
}

/// What the default tree of a database holds: a map from key to value, both
/// bytes.
pub uninterp spec fn sled_holds(db: sled::Db) -> Map<Seq<u8>, Seq<u8>>;

/// `sled::Tree::insert` on the database's default tree. Where it succeeds, it
/// is taken to leave the tree holding what it held with the key set to the
/// value, and to hand back the value that the key had. Nothing is claimed of
/// a failure. Verus does not check this.
#[verifier::external_body]
fn sled_insert(db: &mut sled::Db, key: &[u8], value: &[u8]) -> (r: Result<
    Option<Vec<u8>>,
    sled::Error,
>)
    ensures
        r matches Ok(before) ==> {
            &&& sled_holds(*final(db)) == sled_holds(*old(db)).insert(key@, value@)
            &&& match before {
                Some(bytes) => sled_holds(*old(db)).contains_key(key@) && sled_holds(
                    *old(db),
                )[key@] == bytes@,
                None => !sled_holds(*old(db)).contains_key(key@),
            }
        },
{
    match db.insert(key, value) {
        Ok(Some(before)) => Ok(Some(before.to_vec())),
        Ok(None) => Ok(None),
        Err(e) => Err(e),
    }
}

/// `sled::Tree::get` on the database's default tree. Where it succeeds, it is
/// taken to hand back the value that the tree holds for the key, or nothing
/// where the tree holds none. Nothing is claimed of a failure. Verus does not
/// check this.
#[verifier::external_body]
fn sled_get(db: &sled::Db, key: &[u8]) -> (r: Result<Option<Vec<u8>>, sled::Error>)
    ensures
        r matches Ok(found) ==> match found {
            Some(bytes) => sled_holds(*db).contains_key(key@) && sled_holds(*db)[key@] == bytes@,
            None => !sled_holds(*db).contains_key(key@),
        },
{
    match db.get(key) {
        Ok(Some(found)) => Ok(Some(found.to_vec())),
        Ok(None) => Ok(None),
        Err(e) => Err(e),
    }
}

/// `sled::Tree::remove` on the database's default tree. Where it succeeds, it
/// is taken to leave the tree holding what it held without the key, and to
/// hand back the value that the key had. Nothing is claimed of a failure.
/// Verus does not check this.
#[verifier::external_body]
fn sled_remove(db: &mut sled::Db, key: &[u8]) -> (r: Result<Option<Vec<u8>>, sled::Error>)
    ensures
        r matches Ok(before) ==> {
            &&& sled_holds(*final(db)) == sled_holds(*old(db)).remove(key@)
            &&& match before {
                Some(bytes) => sled_holds(*old(db)).contains_key(key@) && sled_holds(
                    *old(db),
                )[key@] == bytes@,
                None => !sled_holds(*old(db)).contains_key(key@),
            }
        },
{
    match db.remove(key) {
        Ok(Some(before)) => Ok(Some(before.to_vec())),
        Ok(None) => Ok(None),
        Err(e) => Err(e),
    }
}

/// The map from text to text that a map from bytes to bytes stands for: a key
/// is there where its UTF-8 bytes are, with the text of the bytes held for
/// them.
pub open spec fn as_text(held: Map<Seq<u8>, Seq<u8>>) -> Map<Seq<char>, Seq<char>> {
    Map::new(
        |key: Seq<char>| held.contains_key(encode_utf8(key)),
        |key: Seq<char>| decode_utf8(held[encode_utf8(key)]),
    )
}

/// Two texts with the same UTF-8 bytes are the same text.
pub proof fn lemma_same_bytes_same_text(a: Seq<char>, b: Seq<char>)
    requires
        encode_utf8(a) == encode_utf8(b),
    ensures
        a == b,
{
    encode_utf8_decode_utf8(a);
    encode_utf8_decode_utf8(b);
}

/// Setting the bytes of a key to the bytes of a value sets the key to the
/// value.
pub proof fn lemma_as_text_insert(held: Map<Seq<u8>, Seq<u8>>, key: Seq<char>, value: Seq<char>)
    ensures
        as_text(held.insert(encode_utf8(key), encode_utf8(value))) == as_text(held).insert(
            key,
            value,
        ),
{
    let after = as_text(held.insert(encode_utf8(key), encode_utf8(value)));
    encode_utf8_decode_utf8(value);
    assert forall|k: Seq<char>| after.dom().contains(k) == as_text(held).insert(
        key,
        value,
    ).dom().contains(k) by {
        if encode_utf8(k) == encode_utf8(key) {
            lemma_same_bytes_same_text(k, key);
        }
    }
    assert forall|k: Seq<char>| after.dom().contains(k) implies after[k] == as_text(held).insert(
        key,
        value,
    )[k] by {
        if encode_utf8(k) == encode_utf8(key) {
            lemma_same_bytes_same_text(k, key);
        }
    }
    assert(after =~= as_text(held).insert(key, value));
}

/// Removing the bytes of a key removes the key.
pub proof fn lemma_as_text_remove(held: Map<Seq<u8>, Seq<u8>>, key: Seq<char>)
    ensures
        as_text(held.remove(encode_utf8(key))) == as_text(held).remove(key),
{
    let after = as_text(held.remove(encode_utf8(key)));
    assert forall|k: Seq<char>| after.dom().contains(k) == as_text(held).remove(
        key,
    ).dom().contains(k) by {
        if encode_utf8(k) == encode_utf8(key) {
            lemma_same_bytes_same_text(k, key);
        }
    }
    assert(after =~= as_text(held).remove(key));
}

/// The `Display` text of a `sled::Error`. Nothing is claimed of it.
#[verifier::external_body]
fn sled_error_text(e: &sled::Error) -> String {
    format!("{}", e)
}

/// The `Display` text of a `FromUtf8Error` of the standard library. Nothing
/// is claimed of it.
#[verifier::external_body]
fn utf8_error_text(e: &std::string::FromUtf8Error) -> String {
    format!("{}", e)
}

/// What the operations of the `sled` backend fail with.
#[derive(Debug)]
pub enum SledStoreError {
    /// The database failed.
    SledError(sled::Error),
    /// A value in the database is not UTF-8.
    FromUtf8Error(std::string::FromUtf8Error),
}

impl ErrorMessage for SledStoreError {
    fn message(&self) -> String {
        match self {
            SledStoreError::SledError(e) => sled_error_text(e),
            SledStoreError::FromUtf8Error(e) => utf8_error_text(e),
        }
    }
}

/// A store kept by a `sled` database in a directory.
#[derive(Debug)]
pub struct SledStore {
    directory: PathBuf,
    db: sled::Db,
}

impl SledStore {
    /// The directory that the store was opened in.
    pub closed spec fn directory(&self) -> PathBuf {
        self.directory
    }

    /// What the database holds: a map from key to value, both bytes.
    pub closed spec fn held(&self) -> Map<Seq<u8>, Seq<u8>> {
        sled_holds(self.db)
    }

    /// Opens the database in the directory, or creates it there. A failure
    /// of the database comes back as `SledError`.
    pub fn open(directory: PathBuf) -> (r: Result<SledStore, SledStoreError>)
        ensures
            r matches Ok(store) ==> store.directory() == directory,
            r matches Err(e) ==> e is SledError,
    {
        match sled_open(&directory) {
            Ok(db) => Ok(SledStore { directory, db }),
            Err(e) => Err(SledStoreError::SledError(e)),
        }
    }

    /// The value that was found for a key, as text: nothing where nothing was
    /// found, the text of the bytes where they are UTF-8, and `FromUtf8Error`
    /// where they are not.
    pub fn value_of(found: Option<Vec<u8>>) -> (r: Result<Option<String>, SledStoreError>)
        ensures
            match found {
                None => r matches Ok(None),
                Some(bytes) => if valid_utf8(bytes@) {
                    r matches Ok(Some(value)) && value@ == decode_utf8(bytes@)
                } else {
                    r matches Err(SledStoreError::FromUtf8Error(_))
                },
            },
    {
        match found {
            None => Ok(None),
            Some(bytes) => match string_from_utf8(bytes) {
                Ok(value) => {
                    proof {
                        encode_utf8_decode_utf8(value@);
                    }
                    Ok(Some(value))
                },
                Err(e) => Err(SledStoreError::FromUtf8Error(e)),
            },
        }
    }
}

impl KvsEngine for SledStore {
    type Error = SledStoreError;

    open spec fn tells_contents(&self) -> bool {
        true
    }

    open spec fn contents(&self) -> Map<Seq<char>, Seq<char>> {
        as_text(self.held())
    }

    /// Sets the key to the value in the database. Where the database fails,
    /// its error comes back as `SledError`.
    fn set(&mut self, key: String, value: String) -> (r: Result<(), SledStoreError>)
        ensures
            r is Ok ==> final(self).held() == old(self).held().insert(
                encode_utf8(key@),
                encode_utf8(value@),
            ),
            r matches Err(e) ==> e is SledError,
            final(self).directory() == old(self).directory(),
    {
        proof {
            lemma_as_text_insert(self.held(), key@, value@);
        }
        match sled_insert(&mut self.db, key.as_str().as_bytes(), value.as_str().as_bytes()) {
            Ok(_) => Ok(()),
            Err(e) => Err(SledStoreError::SledError(e)),
        }
    }

    /// Reads the value of the key from the database and changes nothing.
    /// Where the database answers, the result is that of `value_of` on what
    /// it holds for the key; where it fails, its error comes back as
    /// `SledError`.
    fn get(&mut self, key: String) -> (r: Result<Option<String>, SledStoreError>)
        ensures
            *final(self) == *old(self),
            match r {
                Ok(Some(value)) => {
                    &&& old(self).held().contains_key(encode_utf8(key@))
                    &&& encode_utf8(value@) == old(self).held()[encode_utf8(key@)]
                },
                Ok(None) => !old(self).held().contains_key(encode_utf8(key@)),
                Err(SledStoreError::FromUtf8Error(_)) => {
                    &&& old(self).held().contains_key(encode_utf8(key@))
                    &&& !valid_utf8(old(self).held()[encode_utf8(key@)])
                },
                Err(SledStoreError::SledError(_)) => true,
            },
    {
        match sled_get(&self.db, key.as_str().as_bytes()) {
            Ok(found) => {
                proof {
                    if found is Some && valid_utf8(found->0@) {
                        decode_utf8_encode_utf8(found->0@);
                    }
                }
                SledStore::value_of(found)
            },
            Err(e) => Err(SledStoreError::SledError(e)),
        }
    }

    /// Removes the key from the database; a key that is not there is no
    /// error. Where the database fails, its error comes back as `SledError`.
    fn remove(&mut self, key: String) -> (r: Result<(), SledStoreError>)
        ensures
            r is Ok ==> final(self).held() == old(self).held().remove(encode_utf8(key@)),
            r matches Err(e) ==> e is SledError,
            final(self).directory() == old(self).directory(),
    {
        proof {
            lemma_as_text_remove(self.held(), key@);
        }
        match sled_remove(&mut self.db, key.as_str().as_bytes()) {
            Ok(_) => Ok(()),
            Err(e) => Err(SledStoreError::SledError(e)),
        }
    }
}

} // verus!
