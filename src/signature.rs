//! The map from a component signature to the index of its archetype,
//! kept in a `hashbrown` map hashed with `ahash`.

use vstd::prelude::*;

verus! {

#[verifier::external_type_specification]
#[verifier::external_body]
pub struct ExRandomState(ahash::RandomState);

#[verifier::external_type_specification]
#[verifier::external_body]
#[verifier::reject_recursive_types(K)]
#[verifier::reject_recursive_types(V)]
#[verifier::reject_recursive_types(S)]
pub struct ExHashMap<K, V, S>(hashbrown::HashMap<K, V, S>);

/// Signature (sorted component identifiers) to archetype index.
pub type SignatureMap = hashbrown::HashMap<Vec<u64>, usize, ahash::RandomState>;

/// What a signature map holds.
pub uninterp spec fn signature_entries(m: SignatureMap) -> Map<Seq<u64>, usize>;

/// Relies on `hashbrown::HashMap::default`: a new map holds nothing.
#[verifier::external_body]
pub(crate) fn new_signature_map() -> (r: SignatureMap)
    ensures
        forall|k: Seq<u64>| !#[trigger] signature_entries(r).contains_key(k),
{
    hashbrown::HashMap::default()
}

/// Relies on `hashbrown::HashMap::get`: the value stored under a key equal
/// to `key`, if any. Keys are compared by `Vec<u64>`'s equality.
#[verifier::external_body]
pub(crate) fn lookup_signature(m: &SignatureMap, key: &Vec<u64>) -> (r: Option<usize>)
    ensures
        r.is_some() <==> signature_entries(*m).contains_key(key@),
        r.is_some() ==> r.unwrap() == signature_entries(*m)[key@],
{
    m.get(key).copied()
}

/// Relies on `hashbrown::HashMap::insert`: afterwards `key` maps to
/// `value` and every other key keeps its value.
#[verifier::external_body]
pub(crate) fn record_signature(m: &mut SignatureMap, key: Vec<u64>, value: usize)
    ensures
        signature_entries(*final(m)) == signature_entries(*old(m)).insert(key@, value),
{
    m.insert(key, value);
}

} // verus!
