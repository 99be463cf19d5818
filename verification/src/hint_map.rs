//! Maps keyed by hint, kept in `hashbrown` hash maps.
//!
//! Verus does not look into the maps.  What they hold is named by
//! `candidate_nums` and `candidate_buckets`, and the few map operations that
//! the library uses are given contracts over those names, which are taken
//! on trust.

use crate::def::{codes_view, CodeSet, Hint};
use vstd::prelude::*;

verus! {

/// What a count map holds, as a mathematical map.
pub type NumModel = Map<Hint, usize>;

/// What a bucket map holds, as a mathematical map.
pub type BucketModel = Map<Hint, Seq<Seq<u8>>>;

/// For each hint that occurs, the number of candidates that earn it.
/// Holds a `hashbrown::HashMap`, which Verus does not look into.
#[verifier::external_body]
pub struct CandidateNumMap {
    map: hashbrown::HashMap<Hint, usize>,
}

/// For each hint that occurs, the candidates that earn it, in their order.
/// Holds a `hashbrown::HashMap`, which Verus does not look into.
#[verifier::external_body]
pub struct CandidatesMap {
    map: hashbrown::HashMap<Hint, CodeSet>,
}

/// The keys and values that a count map holds.
pub uninterp spec fn candidate_nums(map: CandidateNumMap) -> NumModel;

/// The keys and values that a bucket map holds.
pub uninterp spec fn candidate_buckets(map: CandidatesMap) -> BucketModel;

/// `hashbrown::HashMap::new`: the new map holds nothing.
#[verifier::external_body]
pub(crate) fn num_map_new() -> (map: CandidateNumMap)
    ensures
        candidate_nums(map) == NumModel::empty(),
{
    CandidateNumMap { map: hashbrown::HashMap::new() }
}

/// `hashbrown::HashMap::get`: the value kept under `hint`, if there is one.
#[verifier::external_body]
pub(crate) fn num_map_get(map: &CandidateNumMap, hint: Hint) -> (num: Option<usize>)
    ensures
        num == (if candidate_nums(*map).contains_key(hint) {
            Some(candidate_nums(*map)[hint])
        } else {
            None
        }),
{
    map.map.get(&hint).copied()
}

/// `hashbrown::HashMap::insert`: afterwards `hint` leads to `num`, and
/// every other key to what it led to before.
#[verifier::external_body]
pub(crate) fn num_map_insert(map: &mut CandidateNumMap, hint: Hint, num: usize)
    ensures
        candidate_nums(*final(map)) == candidate_nums(*old(map)).insert(hint, num),
{
    map.map.insert(hint, num);
}

/// `hashbrown::HashMap::keys`: every key of the map once, in an order
/// that nothing is said about.
#[verifier::external_body]
pub(crate) fn num_map_keys(map: &CandidateNumMap) -> (hints: Vec<Hint>)
    ensures
        hints@.no_duplicates(),
        forall|hint: Hint| hints@.contains(hint) <==> candidate_nums(*map).contains_key(hint),
{
    map.map.keys().copied().collect()
}

/// `hashbrown::HashMap::new`: the new map holds nothing.
#[verifier::external_body]
pub(crate) fn candidates_map_new() -> (map: CandidatesMap)
    ensures
        candidate_buckets(map) == BucketModel::empty(),
{
    CandidatesMap { map: hashbrown::HashMap::new() }
}

/// `hashbrown::HashMap::get`: the codes kept under `hint`, if there are any.
#[verifier::external_body]
pub(crate) fn candidates_map_get(map: &CandidatesMap, hint: Hint) -> (codes: Option<&CodeSet>)
    ensures
        codes is Some <==> candidate_buckets(*map).contains_key(hint),
        codes is Some ==> codes_view(codes.unwrap()@) == candidate_buckets(*map)[hint],
{
    map.map.get(&hint)
}

/// `hashbrown::HashMap::remove`: hands out the codes kept under `hint`,
/// if there are any; afterwards the map has no such key.
#[verifier::external_body]
pub(crate) fn candidates_map_remove(map: &mut CandidatesMap, hint: Hint) -> (codes: Option<CodeSet>)
    ensures
        codes is Some <==> candidate_buckets(*old(map)).contains_key(hint),
        codes is Some ==> codes_view(codes.unwrap()@) == candidate_buckets(*old(map))[hint],
        candidate_buckets(*final(map)) == candidate_buckets(*old(map)).remove(hint),
{
    map.map.remove(&hint)
}

/// `hashbrown::HashMap::insert`: afterwards `hint` leads to `codes`, and
/// every other key to what it led to before.
#[verifier::external_body]
pub(crate) fn candidates_map_insert(map: &mut CandidatesMap, hint: Hint, codes: CodeSet)
    ensures
        candidate_buckets(*final(map)) == candidate_buckets(*old(map)).insert(
            hint,
            codes_view(codes@),
        ),
{
    map.map.insert(hint, codes);
}

/// `hashbrown::HashMap::keys`: every key of the map once, in an order
/// that nothing is said about.
#[verifier::external_body]
pub(crate) fn candidates_map_keys(map: &CandidatesMap) -> (hints: Vec<Hint>)
    ensures
        hints@.no_duplicates(),
        forall|hint: Hint| hints@.contains(hint) <==> candidate_buckets(*map).contains_key(hint),
{
    map.map.keys().copied().collect()
}

impl View for CandidateNumMap {
    type V = NumModel;

    open spec fn view(&self) -> NumModel {
        candidate_nums(*self)
    }
}

impl View for CandidatesMap {
    type V = BucketModel;

    open spec fn view(&self) -> BucketModel {
        candidate_buckets(*self)
    }
}

impl CandidateNumMap {
    /// The number of candidates that earn `hint`, if any does.
    pub fn get(&self, hint: Hint) -> (num: Option<usize>)
        ensures
            num == (if self@.contains_key(hint) {
                Some(self@[hint])
            } else {
                None
            }),
    {
        num_map_get(self, hint)
    }

    /// The hints that occur, each once, in no particular order.
    pub fn hints(&self) -> (hints: Vec<Hint>)
        ensures
            hints@.no_duplicates(),
            forall|hint: Hint| hints@.contains(hint) <==> self@.contains_key(hint),
    {
        num_map_keys(self)
    }
}

impl CandidatesMap {
    /// The candidates that earn `hint`, if any does.
    pub fn get(&self, hint: Hint) -> (codes: Option<&CodeSet>)
        ensures
            codes is Some <==> self@.contains_key(hint),
            codes is Some ==> codes_view(codes.unwrap()@) == self@[hint],
    {
        candidates_map_get(self, hint)
    }

    /// The hints that occur, each once, in no particular order.
    pub fn hints(&self) -> (hints: Vec<Hint>)
        ensures
            hints@.no_duplicates(),
            forall|hint: Hint| hints@.contains(hint) <==> self@.contains_key(hint),
    {
        candidates_map_keys(self)
    }
}

} // verus!
