//! Trusted view of the hash collections the pipeline keeps its rule data in.
//!
//! A rule's set of allowed values is a `hashbrown::HashSet<String>`, and the
//! header index of an input file is a `hashbrown::HashMap<String, usize>`,
//! both hashed by `std::hash::RandomState`. The two types are opaque here;
//! what a value of them holds is given a name (`value_set`, `entry_map`),
//! and each method the logic calls is wrapped in a function whose contract
//! states, over those names, what the crate's source shows.

use vstd::prelude::*;

verus! {

/// hashbrown's `HashSet`, declared so it can stand in signatures and
/// fields; its values are opaque to the proofs.
#[verifier::external_type_specification]
#[verifier::external_body]
#[verifier::reject_recursive_types(T)]
#[verifier::reject_recursive_types(S)]
pub struct ExHashSet<T, S>(hashbrown::HashSet<T, S>);

/// hashbrown's `HashMap`, declared so it can stand in signatures and
/// fields; its values are opaque to the proofs.
#[verifier::external_type_specification]
#[verifier::external_body]
#[verifier::reject_recursive_types(K)]
#[verifier::reject_recursive_types(V)]
#[verifier::reject_recursive_types(S)]
pub struct ExHashMap<K, V, S>(hashbrown::HashMap<K, V, S>);

/// A set of exact string values a rule admits in one column.
pub type ValueSet = hashbrown::HashSet<String, std::hash::RandomState>;

/// A map from column name to position, as the header index holds it.
pub type HeaderMap = hashbrown::HashMap<String, usize, std::hash::RandomState>;

/// The strings a `ValueSet` holds, as a set of views.
pub uninterp spec fn value_set(s: ValueSet) -> Set<Seq<char>>;

/// The entries a `HeaderMap` holds, keyed by the view of the key string.
pub uninterp spec fn entry_map(m: HeaderMap) -> Map<Seq<char>, usize>;

/// The entries of a map that holds nothing.
pub open spec fn empty_entries() -> Map<Seq<char>, usize> {
    Map::empty()
}

/// Relies on hashbrown's `HashSet::contains`: membership is exact `Eq`
/// equality of the strings.
#[verifier::external_body]
pub(crate) fn set_contains(s: &ValueSet, value: &String) -> (r: bool)
    ensures
        r == value_set(*s).contains(value@),
{
    s.contains(value)
}

/// Relies on hashbrown's `HashMap::default`: a fresh map holds no entries.
#[verifier::external_body]
pub(crate) fn map_new() -> (r: HeaderMap)
    ensures
        entry_map(r) == empty_entries(),
{
    hashbrown::HashMap::default()
}

/// Relies on hashbrown's `HashMap::insert`: the new binding replaces any
/// earlier binding of an equal key and leaves the rest unchanged.
#[verifier::external_body]
pub(crate) fn map_insert(m: &mut HeaderMap, k: String, v: usize)
    ensures
        entry_map(*final(m)) == entry_map(*old(m)).insert(k@, v),
{
    m.insert(k, v);
}

/// Relies on hashbrown's `HashMap::get`: `Some` of the bound value exactly
/// for keys the map holds.
#[verifier::external_body]
pub(crate) fn map_get(m: &HeaderMap, k: &String) -> (r: Option<usize>)
    ensures
        r == if entry_map(*m).dom().contains(k@) {
            Some(entry_map(*m)[k@])
        } else {
            None::<usize>
        },
{
    m.get(k).copied()
}

} // verus!
