//! Trusted boundary: declarations of the outside store's types and thin
//! wrappers around the calls the engine makes into outside code. Verus
//! believes the contracts stated here; each doc comment names what is relied
//! on. Nothing is promised about what the store holds — its contents live on
//! disk and may change between calls — only what holds of every outcome.

use vstd::prelude::*;

verus! {

use crate::bytes::{views_of, lex_sorted_strict};

#[verifier::external_type_specification]
#[verifier::external_body]
pub struct ExDb(sled::Db);

#[verifier::external_type_specification]
#[verifier::external_body]
pub struct ExTree(sled::Tree);

/// A storage-layer failure, reported by the triggering operation; the prior
/// navigation state is always left untouched.
#[derive(Clone, Copy, PartialEq, Eq, Structural, Debug)]
pub enum StoreError {
    Unavailable,
}

/// Relies on core::str::from_utf8: it succeeds exactly on the byte sequences
/// that are valid UTF-8.
#[verifier::external_body]
pub(crate) fn utf8_check(b: &Vec<u8>) -> (r: bool)
    ensures
        r == vstd::utf8::valid_utf8(b@),
{
    core::str::from_utf8(b.as_slice()).is_ok()
}

/// Relies on sled::Db::tree_names: the names of the keyspaces in the
/// database; their order carries no meaning, so nothing is promised of it.
#[verifier::external_body]
pub(crate) fn db_tree_names(db: &sled::Db) -> (r: Vec<Vec<u8>>) {
    db.tree_names().into_iter().map(|n| n.to_vec()).collect()
}

/// Relies on sled::Db::open_tree: opens or creates the keyspace of that
/// name; a storage failure becomes `Unavailable`.
#[verifier::external_body]
pub(crate) fn db_open_tree(db: &sled::Db, name: &Vec<u8>) -> (r: Result<sled::Tree, StoreError>) {
    match db.open_tree(name) {
        Ok(t) => Ok(t),
        Err(_) => Err(StoreError::Unavailable),
    }
}

/// Relies on sled::Tree::iter: one full ascending scan of the keyspace; the
/// iterator yields each key strictly greater than the one before, so the
/// collected keys are strictly sorted in byte order.
#[verifier::external_body]
pub(crate) fn tree_keys(tree: &sled::Tree) -> (r: Result<Vec<Vec<u8>>, StoreError>)
    ensures
        r matches Ok(keys) ==> lex_sorted_strict(views_of(keys@)),
{
    let mut keys: Vec<Vec<u8>> = Vec::new();
    for item in tree.iter() {
        match item {
            Ok((k, _)) => keys.push(k.to_vec()),
            Err(_) => return Err(StoreError::Unavailable),
        }
    }
    Ok(keys)
}

/// Relies on sled::Tree::iter, skipped and bounded with Iterator::skip and
/// Iterator::take: the keys from the `offset`-th onward in ascending order,
/// at most `count` of them, without materializing the earlier ones here.
#[verifier::external_body]
pub(crate) fn tree_scan(tree: &sled::Tree, offset: usize, count: usize) -> (r: Result<
    Vec<Vec<u8>>,
    StoreError,
>)
    ensures
        r matches Ok(keys) ==> lex_sorted_strict(views_of(keys@)) && keys@.len() <= count,
{
    let mut keys: Vec<Vec<u8>> = Vec::new();
    for item in tree.iter().skip(offset).take(count) {
        match item {
            Ok((k, _)) => keys.push(k.to_vec()),
            Err(_) => return Err(StoreError::Unavailable),
        }
    }
    Ok(keys)
}

/// Relies on sled::Tree::get: the value bound to exactly that key at the
/// time of the call, or `None` when no value is bound.
#[verifier::external_body]
pub(crate) fn tree_get(tree: &sled::Tree, key: &Vec<u8>) -> (r: Result<
    Option<Vec<u8>>,
    StoreError,
>) {
    match tree.get(key) {
        Ok(Some(v)) => Ok(Some(v.to_vec())),
        Ok(None) => Ok(None),
        Err(_) => Err(StoreError::Unavailable),
    }
}

/// Relies on sled::Tree::len: the number of entries in the keyspace at the
/// time of the call (a full scan inside the store).
#[verifier::external_body]
pub(crate) fn tree_len(tree: &sled::Tree) -> (r: usize) {
    tree.len()
}

} // verus!
