//! The map from layer index to the generators behind that layer's contents,
//! held in a `vec_map::VecMap`.

use vstd::prelude::*;
use vec_map::VecMap;

verus! {

#[verifier::external_type_specification]
#[verifier::external_body]
#[verifier::reject_recursive_types(V)]
pub struct ExVecMap<V>(VecMap<V>);

/// What a map from layer index to generator bits holds.
pub uninterp spec fn vec_map_contents(m: VecMap<u64>) -> Map<usize, u64>;

/// The map that holds no layer.
pub open spec fn empty_provenance() -> Map<usize, u64> {
    Map::empty()
}

/// Relies on `VecMap::new`: the new map holds nothing.
#[verifier::external_body]
pub(crate) fn vec_map_new() -> (r: VecMap<u64>)
    ensures
        vec_map_contents(r) == empty_provenance(),
{
    VecMap::new()
}

/// Relies on `VecMap::insert`: afterwards `key` maps to `value`, other keys as before.
#[verifier::external_body]
pub(crate) fn vec_map_insert(m: &mut VecMap<u64>, key: usize, value: u64)
    requires
        key < usize::MAX,
    ensures
        vec_map_contents(*final(m)) == vec_map_contents(*old(m)).insert(key, value),
{
    m.insert(key, value);
}

/// Relies on `VecMap::get`: the value under `key`, if there is one.
#[verifier::external_body]
pub(crate) fn vec_map_get(m: &VecMap<u64>, key: usize) -> (r: Option<u64>)
    ensures
        vec_map_contents(*m).contains_key(key) ==> r == Some(vec_map_contents(*m)[key]),
        !vec_map_contents(*m).contains_key(key) ==> r is None,
{
    m.get(key).copied()
}

} // verus!
