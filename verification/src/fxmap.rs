//! Trusted bridge to the hashed dictionaries of the `rustc_hash` crate.
//!
//! Both inverted indexes of the engine key their postings by a character
//! string (a whole word, or a three-character window of a word). The
//! dictionary from such a key to its slot number is a `std` `HashMap` driven
//! by `rustc_hash`'s `FxBuildHasher`. Its contents are named by the
//! uninterpreted function [`slot_map_of`]; the three wrappers below state,
//! over that name, what the documented map operations do.

use std::collections::HashMap;
use vstd::prelude::*;

verus! {

#[verifier::external_type_specification]
#[verifier::external_body]
pub struct ExFxBuildHasher(rustc_hash::FxBuildHasher);

/// A dictionary from character strings to slot numbers, hashed with
/// `rustc_hash`'s `FxBuildHasher`.
pub type SlotMap = HashMap<Vec<char>, usize, rustc_hash::FxBuildHasher>;

/// The contents of a [`SlotMap`]: which character string is mapped to which
/// slot.
pub uninterp spec fn slot_map_of(m: SlotMap) -> Map<Seq<char>, usize>;

/// The empty dictionary contents.
pub open spec fn slot_map_empty() -> Map<Seq<char>, usize> {
    Map::empty()
}

/// Relies on `HashMap::default` (with `rustc_hash::FxBuildHasher` as its
/// build-hasher): a freshly created map is empty.
#[verifier::external_body]
pub(crate) fn slot_map_new() -> (r: SlotMap)
    ensures
        slot_map_of(r) == slot_map_empty(),
{
    HashMap::default()
}

/// Relies on `HashMap::get`: returns the value the key is mapped to, if any.
#[verifier::external_body]
pub(crate) fn slot_map_get(m: &SlotMap, k: &Vec<char>) -> (r: Option<usize>)
    ensures
        match r {
            Some(s) => slot_map_of(*m).contains_key(k@) && slot_map_of(*m)[k@] == s,
            None => !slot_map_of(*m).contains_key(k@),
        },
{
    m.get(k).copied()
}

/// Relies on `HashMap::insert`: maps the key to the value and leaves every
/// other key unchanged.
#[verifier::external_body]
pub(crate) fn slot_map_insert(m: &mut SlotMap, k: Vec<char>, s: usize)
    ensures
        slot_map_of(*final(m)) == slot_map_of(*old(m)).insert(k@, s),
{
    m.insert(k, s);
}

} // verus!
