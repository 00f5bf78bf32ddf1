//! The embedded key-value engine (sled), as the rest of the library sees it.
//!
//! A tree's contents are named by `tree_contents`; each wrapper states what
//! it does to them. sled's handles share their tree, so the library keeps
//! exactly one handle to each tree it writes through.

use vstd::prelude::*;
use crate::codec::{end_marker_merge, increment_merge};

verus! {

#[verifier::external_type_specification]
#[verifier::external_body]
pub struct ExDb(sled::Db);

#[verifier::external_type_specification]
#[verifier::external_body]
pub struct ExTree(sled::Tree);

#[verifier::external_type_specification]
#[verifier::external_body]
pub struct ExStoreError(sled::Error);

/// What a sled tree holds: its keys and values as byte strings.
pub uninterp spec fn tree_contents(t: sled::Tree) -> Map<Seq<u8>, Seq<u8>>;

/// Whether the tree merges with the end-of-spool rule (`increment_merge`).
pub uninterp spec fn merges_end_marker(t: sled::Tree) -> bool;

/// Relies on `sled::Config::open`: opens or creates the database at `path`
/// with the given cache size and flush period, without compression. What it
/// holds is whatever is on disk.
#[verifier::external_body]
pub(crate) fn open_db(path: &str, cache_capacity: u64, flush_every_ms: u64) -> (r: Result<sled::Db, sled::Error>) {
    sled::Config::new()
        .path(path)
        .cache_capacity(cache_capacity)
        .use_compression(false)
        .flush_every_ms(Some(flush_every_ms))
        .open()
}

/// Relies on `sled::Db::open_tree`: a handle to the named tree of `db`.
#[verifier::external_body]
pub(crate) fn open_tree(db: &sled::Db, name: &[u8]) -> (r: Result<sled::Tree, sled::Error>) {
    db.open_tree(name)
}

/// Relies on `sled::Db` dereferencing to its default tree; the handle is a
/// clone of it.
#[verifier::external_body]
pub(crate) fn default_tree(db: &sled::Db) -> (r: sled::Tree) {
    let t: &sled::Tree = db;
    t.clone()
}

/// Relies on `sled::Tree::set_merge_operator`: later merges on the tree go
/// through `increment_merge`; the contents do not change.
#[verifier::external_body]
pub(crate) fn install_end_marker_merge(t: &mut sled::Tree)
    ensures
        merges_end_marker(*final(t)),
        tree_contents(*final(t)) == tree_contents(*old(t)),
{
    t.set_merge_operator(|k: &[u8], o: Option<&[u8]>, n: &[u8]| increment_merge(k, o, n))
}

/// Relies on `sled::Tree::get`: the value stored under `key`, if any.
#[verifier::external_body]
pub(crate) fn tree_get(t: &sled::Tree, key: &[u8]) -> (r: Result<Option<Vec<u8>>, sled::Error>)
    ensures
        r matches Ok(v) ==> match v {
            Some(bytes) => tree_contents(*t).contains_key(key@) && tree_contents(*t)[key@] == bytes@,
            None => !tree_contents(*t).contains_key(key@),
        },
{
    t.get(key).map(|v| v.map(|b| b.to_vec()))
}

/// Relies on `sled::Tree::contains_key`.
#[verifier::external_body]
pub(crate) fn tree_contains_key(t: &sled::Tree, key: &[u8]) -> (r: Result<bool, sled::Error>)
    ensures
        r matches Ok(b) ==> b == tree_contents(*t).contains_key(key@),
{
    t.contains_key(key)
}

/// Relies on `sled::Tree::first`: whether the tree holds any key.
#[verifier::external_body]
pub(crate) fn tree_has_entries(t: &sled::Tree) -> (r: Result<bool, sled::Error>)
    ensures
        r matches Ok(b) ==> b == !tree_contents(*t).is_empty(),
{
    t.first().map(|e| e.is_some())
}

/// Relies on `sled::Tree::insert`: stores `value` under `key`.
#[verifier::external_body]
pub(crate) fn tree_insert(t: &mut sled::Tree, key: &[u8], value: &[u8]) -> (r: Result<(), sled::Error>)
    ensures
        merges_end_marker(*final(t)) == merges_end_marker(*old(t)),
        r is Ok ==> tree_contents(*final(t)) == tree_contents(*old(t)).insert(key@, value@),
{
    t.insert(key, value).map(|_| ())
}

/// Relies on `sled::Tree::remove`: removes `key` and its value.
#[verifier::external_body]
pub(crate) fn tree_remove(t: &mut sled::Tree, key: &[u8]) -> (r: Result<(), sled::Error>)
    ensures
        merges_end_marker(*final(t)) == merges_end_marker(*old(t)),
        r is Ok ==> tree_contents(*final(t)) == tree_contents(*old(t)).remove(key@),
{
    t.remove(key).map(|_| ())
}

/// Relies on `sled::Tree::merge`: the stored value under `key` becomes what
/// the tree's merge operator makes of it and `value`.
#[verifier::external_body]
pub(crate) fn tree_merge(t: &mut sled::Tree, key: &[u8], value: &[u8]) -> (r: Result<(), sled::Error>)
    ensures
        merges_end_marker(*final(t)) == merges_end_marker(*old(t)),
        r is Ok && merges_end_marker(*old(t)) ==> tree_contents(*final(t)) == tree_contents(
            *old(t),
        ).insert(
            key@,
            end_marker_merge(
                if tree_contents(*old(t)).contains_key(key@) {
                    Some(tree_contents(*old(t))[key@])
                } else {
                    None
                },
                value@,
            ),
        ),
{
    t.merge(key, value).map(|_| ())
}

/// Relies on `sled::Tree::clear`: removes every key.
#[verifier::external_body]
pub(crate) fn tree_clear(t: &mut sled::Tree) -> (r: Result<(), sled::Error>)
    ensures
        merges_end_marker(*final(t)) == merges_end_marker(*old(t)),
        r is Ok ==> tree_contents(*final(t)).is_empty(),
{
    t.clear()
}

/// The byte strings of a list of keys.
pub open spec fn key_views(ks: Seq<Vec<u8>>) -> Seq<Seq<u8>> {
    ks.map_values(|k: Vec<u8>| k@)
}

/// Whether `a` comes before `b` in byte-lexicographic order.
pub open spec fn bytes_lt(a: Seq<u8>, b: Seq<u8>) -> bool
    decreases a.len(),
{
    if a.len() == 0 {
        b.len() > 0
    } else if b.len() == 0 {
        false
    } else if a[0] != b[0] {
        a[0] < b[0]
    } else {
        bytes_lt(a.drop_first(), b.drop_first())
    }
}

/// Whether the keys are in strictly increasing byte-lexicographic order.
pub open spec fn strictly_sorted(ks: Seq<Seq<u8>>) -> bool {
    forall|i: int| 0 <= i < ks.len() - 1 ==> bytes_lt(#[trigger] ks[i], ks[i + 1])
}

/// Relies on `sled::Tree::iter` and `Iter::keys`: every key of the tree,
/// each once, in ascending byte order (`IVec` compares as a byte slice).
#[verifier::external_body]
pub(crate) fn tree_keys(t: &sled::Tree) -> (r: Result<Vec<Vec<u8>>, sled::Error>)
    ensures
        r matches Ok(ks) ==> key_views(ks@).no_duplicates() && key_views(ks@).to_set() == tree_contents(
            *t,
        ).dom(),
        r matches Ok(ks) ==> strictly_sorted(key_views(ks@)),
{
    t.iter().keys().map(|k| k.map(|b| b.to_vec())).collect()
}

} // verus!
