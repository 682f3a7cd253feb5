//! The ordered index: a sled database from record keys to encoded records.
use crate::error::StoreError;
use crate::key::bytes_lt;
use vstd::prelude::*;

verus! {

#[verifier::external_type_specification]
#[verifier::external_body]
pub struct ExDb(sled::Db);

/// The entries that the database `db` holds, from key bytes to value bytes.
pub uninterp spec fn index_contents(db: sled::Db) -> Map<Seq<u8>, Seq<u8>>;

/// Relies on `sled::open`: opens, or creates, the database at `path`.
#[verifier::external_body]
pub(crate) fn index_open(path: &str) -> (r: Result<sled::Db, StoreError>)
    ensures
        r matches Err(e) ==> e == StoreError::Io,
{
    sled::open(path).map_err(|_| StoreError::Io)
}

/// Relies on `sled::Tree::insert`: stores `value` under `key`, replacing
/// what was there, and touches no other key; where it fails, the value may
/// or may not have been stored.
#[verifier::external_body]
pub(crate) fn index_insert(db: &mut sled::Db, key: &[u8], value: Vec<u8>) -> (r: Result<(), StoreError>)
    ensures
        r is Ok ==> index_contents(*final(db)) == index_contents(*old(db)).insert(key@, value@),
        r is Err ==> (index_contents(*final(db)) == index_contents(*old(db)) || index_contents(
            *final(db),
        ) == index_contents(*old(db)).insert(key@, value@)),
        r matches Err(e) ==> e == StoreError::Io,
{
    match db.insert(key, value) {
        Ok(_) => Ok(()),
        Err(_) => Err(StoreError::Io),
    }
}

/// Relies on `sled::Tree::flush`: writes all pending changes to disk.
#[verifier::external_body]
pub(crate) fn index_flush(db: &sled::Db) -> (r: Result<(), StoreError>)
    ensures
        r matches Err(e) ==> e == StoreError::Io,
{
    match db.flush() {
        Ok(_) => Ok(()),
        Err(_) => Err(StoreError::Io),
    }
}

/// Relies on `sled::Tree::last`: the greatest key in lexicographic order,
/// if the index holds any.
#[verifier::external_body]
pub(crate) fn index_last_key(db: &sled::Db) -> (r: Result<Option<Vec<u8>>, StoreError>)
    ensures
        r matches Ok(Some(k)) ==> index_contents(*db).contains_key(k@) && forall|k2: Seq<u8>|
            #[trigger] index_contents(*db).contains_key(k2) ==> !bytes_lt(k@, k2),
        r matches Ok(None) ==> index_contents(*db).dom() == Set::<Seq<u8>>::empty(),
        r matches Err(e) ==> e == StoreError::Io,
{
    match db.last() {
        Ok(Some((k, _))) => Ok(Some(k.to_vec())),
        Ok(None) => Ok(None),
        Err(_) => Err(StoreError::Io),
    }
}

/// Relies on `sled::Tree::first`: the entry with the least key in
/// lexicographic order, if the index holds any.
#[verifier::external_body]
pub(crate) fn index_first(db: &sled::Db) -> (r: Result<Option<(Vec<u8>, Vec<u8>)>, StoreError>)
    ensures
        r matches Ok(Some(e)) ==> index_contents(*db).contains_key(e.0@) && index_contents(
            *db,
        )[e.0@] == e.1@ && forall|k2: Seq<u8>| #[trigger]
            index_contents(*db).contains_key(k2) ==> !bytes_lt(k2, e.0@),
        r matches Ok(None) ==> index_contents(*db).dom() == Set::<Seq<u8>>::empty(),
        r matches Err(e) ==> e == StoreError::Io,
{
    match db.first() {
        Ok(Some((k, v))) => Ok(Some((k.to_vec(), v.to_vec()))),
        Ok(None) => Ok(None),
        Err(_) => Err(StoreError::Io),
    }
}

/// Relies on `sled::Tree::get_gt`: the entry with the least key greater than
/// `key` in lexicographic order, if there is one.
#[verifier::external_body]
pub(crate) fn index_next(db: &sled::Db, key: &[u8]) -> (r: Result<Option<(Vec<u8>, Vec<u8>)>, StoreError>)
    ensures
        r matches Ok(Some(e)) ==> bytes_lt(key@, e.0@) && index_contents(*db).contains_key(e.0@)
            && index_contents(*db)[e.0@] == e.1@ && forall|k2: Seq<u8>| #[trigger]
            index_contents(*db).contains_key(k2) && bytes_lt(key@, k2) ==> !bytes_lt(k2, e.0@),
        r matches Ok(None) ==> forall|k2: Seq<u8>| #[trigger]
            index_contents(*db).contains_key(k2) ==> !bytes_lt(key@, k2),
        r matches Err(e) ==> e == StoreError::Io,
{
    match db.get_gt(key) {
        Ok(Some((k, v))) => Ok(Some((k.to_vec(), v.to_vec()))),
        Ok(None) => Ok(None),
        Err(_) => Err(StoreError::Io),
    }
}

/// Relies on `sled::Tree::iter`: it walks every entry once, in ascending
/// lexicographic order of the keys.
#[verifier::external_body]
pub(crate) fn index_entries(db: &sled::Db) -> (r: Result<Vec<(Vec<u8>, Vec<u8>)>, StoreError>)
    ensures
        r matches Ok(v) ==> forall|j: int|
            0 <= j < v.len() - 1 ==> bytes_lt(#[trigger] v[j].0@, v[j + 1].0@),
        r matches Ok(v) ==> forall|j: int|
            0 <= j < v.len() ==> index_contents(*db).contains_key(#[trigger] v[j].0@)
                && index_contents(*db)[v[j].0@] == v[j].1@,
        r matches Ok(v) ==> forall|k: Seq<u8>| #[trigger]
            index_contents(*db).contains_key(k) ==> exists|j: int| 0 <= j < v.len() && v[j].0@ == k,
        r matches Err(e) ==> e == StoreError::Io,
{
    let mut out = Vec::new();
    for item in db.iter() {
        match item {
            Ok((k, v)) => out.push((k.to_vec(), v.to_vec())),
            Err(_) => return Err(StoreError::Io),
        }
    }
    Ok(out)
}

} // verus!
