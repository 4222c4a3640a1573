//! Trusted boundary to the durable key-value substrate (sled).
//!
//! The contents of an exclusively owned tree are modelled by the
//! uninterpreted function [`kv_of`], a map from key bytes to value bytes.
//! Each wrapper below states, over that model, what the sled call it makes
//! does, as sled's source shows it; nothing else in the crate is taken on
//! trust. The model is meaningful only while the store is the sole writer
//! of the handle, which the store guarantees by keeping its handle private;
//! read-only clones handed to log readers go through the `_shared` wrapper,
//! whose contract claims nothing about contents.

use vstd::prelude::*;

verus! {

#[verifier::external_type_specification]
#[verifier::external_body]
pub struct ExDb(sled::Db);

#[verifier::external_type_specification]
#[verifier::external_body]
pub struct ExSledError(sled::Error);

/// What an exclusively owned sled tree holds: key bytes to value bytes.
pub uninterp spec fn kv_of(db: sled::Db) -> Map<Seq<u8>, Seq<u8>>;

/// Relies on sled::Config::temporary and sled::Config::open: a temporary
/// database opens onto a fresh directory, so the new tree is empty.
#[verifier::external_body]
pub(crate) fn kv_open_temporary() -> (r: Result<sled::Db, sled::Error>)
    ensures
        match r {
            Ok(db) => kv_of(db) == Map::<Seq<u8>, Seq<u8>>::empty(),
            Err(_) => true,
        },
{
    sled::Config::new().temporary(true).open()
}

/// Relies on sled::open: opens the database at `path`, creating it if it
/// is absent. What the tree holds depends on what is on disk, so nothing
/// is stated of the contents; the caller validates every record it reads.
#[verifier::external_body]
pub(crate) fn kv_open(path: &str) -> (r: Result<sled::Db, sled::Error>)
{
    sled::open(path)
}

/// Relies on sled::Tree::insert (reached through Db's Deref): on Ok the
/// pair is stored, replacing any previous value under the key.
#[verifier::external_body]
pub(crate) fn kv_insert(db: &mut sled::Db, key: &Vec<u8>, value: &Vec<u8>) -> (r: Result<
    (),
    sled::Error,
>)
    ensures
        r is Ok ==> kv_of(*final(db)) == kv_of(*old(db)).insert(key@, value@),
{
    match db.insert(key.as_slice(), value.as_slice()) {
        Ok(_) => Ok(()),
        Err(e) => Err(e),
    }
}

/// Relies on sled::Tree::remove: on Ok the key is absent afterwards.
#[verifier::external_body]
pub(crate) fn kv_remove(db: &mut sled::Db, key: &Vec<u8>) -> (r: Result<(), sled::Error>)
    ensures
        r is Ok ==> kv_of(*final(db)) == kv_of(*old(db)).remove(key@),
{
    match db.remove(key.as_slice()) {
        Ok(_) => Ok(()),
        Err(e) => Err(e),
    }
}

/// Relies on sled::Tree::get: on Ok it returns the value stored under the
/// key, or nothing when the key is absent.
#[verifier::external_body]
pub(crate) fn kv_get(db: &sled::Db, key: &Vec<u8>) -> (r: Result<Option<Vec<u8>>, sled::Error>)
    ensures
        match r {
            Ok(Some(v)) => kv_of(*db).contains_key(key@) && kv_of(*db)[key@] == v@,
            Ok(None) => !kv_of(*db).contains_key(key@),
            Err(_) => true,
        },
{
    match db.get(key.as_slice()) {
        Ok(Some(iv)) => Ok(Some(iv.to_vec())),
        Ok(None) => Ok(None),
        Err(e) => Err(e),
    }
}

/// Relies on sled::Db::flush: blocks until previous writes are on durable
/// media. Reading through a shared reference, it leaves the contents as
/// they are; nothing further needs stating.
#[verifier::external_body]
pub(crate) fn kv_flush(db: &sled::Db) -> (r: Result<(), sled::Error>)
{
    match db.flush() {
        Ok(_) => Ok(()),
        Err(e) => Err(e),
    }
}

/// Relies on sled::Db::clone: hands out another handle onto the same tree.
/// The clone is read concurrently with ongoing writes, so no contents are
/// stated for it.
#[verifier::external_body]
pub(crate) fn kv_clone(db: &sled::Db) -> (r: sled::Db)
{
    db.clone()
}

/// Relies on sled::Tree::get, on a handle shared with a concurrent writer:
/// whatever point-in-time value the tree holds comes back, so nothing is
/// stated of the result; callers validate what they read.
#[verifier::external_body]
pub(crate) fn kv_get_shared(db: &sled::Db, key: &Vec<u8>) -> (r: Result<
    Option<Vec<u8>>,
    sled::Error,
>)
{
    match db.get(key.as_slice()) {
        Ok(Some(iv)) => Ok(Some(iv.to_vec())),
        Ok(None) => Ok(None),
        Err(e) => Err(e),
    }
}

} // verus!
