//! Trusted boundary around the hashed map a shard stores its
//! entries in.
//!
//! The map is `rustc_hash`'s `FxHashMap`: the standard library's
//! `HashMap` driven by the Fx hasher.  Its contents are named by
//! `fx_contents`, a map from key bytes to the stored value bytes and
//! deadline; each wrapper below states, over that name, what the
//! standard library documents for the corresponding `HashMap`
//! method.  `Vec<u8>` keys hash and compare by their byte content,
//! so keys with equal bytes address the same entry.

use vstd::prelude::*;

use rustc_hash::{FxBuildHasher, FxHashMap};

verus! {

/// The Fx build hasher, declared so that the map type can appear in
/// verified signatures.  Nothing is assumed about it beyond being a
/// hasher the map was built with.
#[verifier::external_type_specification]
#[verifier::external_body]
pub struct ExFxBuildHasher(FxBuildHasher);

/// The entries a shard map holds: each key, by byte content, maps to
/// the stored value bytes and the deadline in milliseconds (0 means
/// the entry never expires).
pub uninterp spec fn fx_contents(m: FxHashMap<Vec<u8>, (Vec<u8>, u64)>) -> Map<
    Seq<u8>,
    (Seq<u8>, u64),
>;

/// Relies on `HashMap::default`: a freshly built map is empty.
#[verifier::external_body]
pub(crate) fn fx_map_new() -> (m: FxHashMap<Vec<u8>, (Vec<u8>, u64)>)
    ensures
        forall|k: Seq<u8>| !fx_contents(m).contains_key(k),
{
    FxHashMap::default()
}

/// Relies on `HashMap::insert`: the key now maps to the new entry,
/// everything else is untouched, and the entry previously under the
/// key comes back.
#[verifier::external_body]
pub(crate) fn fx_map_insert(
    m: &mut FxHashMap<Vec<u8>, (Vec<u8>, u64)>,
    key: Vec<u8>,
    value: Vec<u8>,
    deadline: u64,
) -> (prev: Option<(Vec<u8>, u64)>)
    ensures
        fx_contents(*final(m)) == fx_contents(*old(m)).insert(key@, (value@, deadline)),
        match prev {
            Some(p) => fx_contents(*old(m)).contains_key(key@) && fx_contents(*old(m))[key@] == (
            p.0@, p.1),
            None => !fx_contents(*old(m)).contains_key(key@),
        },
{
    m.insert(key, (value, deadline))
}

/// Relies on `HashMap::get`: returns the entry under the key, if
/// any, and changes nothing.
#[verifier::external_body]
pub(crate) fn fx_map_get<'a>(m: &'a FxHashMap<Vec<u8>, (Vec<u8>, u64)>, key: &Vec<u8>) -> (r:
    Option<&'a (Vec<u8>, u64)>)
    ensures
        match r {
            Some(e) => fx_contents(*m).contains_key(key@) && fx_contents(*m)[key@] == (e.0@, e.1),
            None => !fx_contents(*m).contains_key(key@),
        },
{
    m.get(key)
}

/// Relies on `HashMap::remove`: the key no longer maps to anything,
/// everything else is untouched, and the removed entry comes back.
#[verifier::external_body]
pub(crate) fn fx_map_remove(m: &mut FxHashMap<Vec<u8>, (Vec<u8>, u64)>, key: &Vec<u8>) -> (prev:
    Option<(Vec<u8>, u64)>)
    ensures
        fx_contents(*final(m)) == fx_contents(*old(m)).remove(key@),
        match prev {
            Some(p) => fx_contents(*old(m)).contains_key(key@) && fx_contents(*old(m))[key@] == (
            p.0@, p.1),
            None => !fx_contents(*old(m)).contains_key(key@),
        },
{
    m.remove(key)
}

} // verus!
