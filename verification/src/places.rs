//! Hash maps from texts to places.
use rustc_hash::FxHashMap;
use vstd::prelude::*;

verus! {

/// The hasher of the maps.
#[verifier::external_type_specification]
#[verifier::external_body]
pub struct ExFxBuildHasher(rustc_hash::FxBuildHasher);

/// The place that the map holds for each text.
pub uninterp spec fn places_held(map: FxHashMap<String, usize>) -> Map<Seq<char>, usize>;

/// `FxHashMap::default`: a map that holds nothing.
#[verifier::external_body]
pub(crate) fn no_places() -> (map: FxHashMap<String, usize>)
    ensures
        (places_held(map) == Map::<Seq<char>, usize>::empty()),
{
    FxHashMap::default()
}

/// `HashMap::get` on an `FxHashMap`: the value that is held for the key, if any.
#[verifier::external_body]
pub(crate) fn get_place(map: &FxHashMap<String, usize>, text: &str) -> (place: Option<usize>)
    ensures
        place == (if places_held(*map).contains_key(text@) {
            Some(places_held(*map)[text@])
        } else {
            None
        }),
{
    map.get(text).copied()
}

/// `HashMap::insert` on an `FxHashMap`: the value is held for the key from now on.
#[verifier::external_body]
pub(crate) fn put_place(map: &mut FxHashMap<String, usize>, text: String, place: usize)
    ensures
        places_held(*final(map)) == places_held(*old(map)).insert(text@, place),
{
    map.insert(text, place);
}

/// `HashMap::len` on an `FxHashMap`: the number of keys.
#[verifier::external_body]
pub(crate) fn count_places(map: &FxHashMap<String, usize>) -> (count: usize)
    ensures
        count == places_held(*map).dom().len(),
{
    map.len()
}

} // verus!
