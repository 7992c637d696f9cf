//! Hash maps from amounts to lists of places.
use rustc_hash::FxHashMap;
use vstd::prelude::*;

verus! {

/// The list that the map holds for each amount.
pub uninterp spec fn buckets_held(map: FxHashMap<i64, Vec<usize>>) -> Map<i64, Seq<usize>>;

/// `FxHashMap::default`: a map that holds nothing.
#[verifier::external_body]
pub(crate) fn no_buckets() -> (map: FxHashMap<i64, Vec<usize>>)
    ensures
        (buckets_held(map) == Map::<i64, Seq<usize>>::empty()),
{
    FxHashMap::default()
}

/// `HashMap::get` on an `FxHashMap`: the list that is held for the amount, if any.
#[verifier::external_body]
pub(crate) fn get_bucket(map: &FxHashMap<i64, Vec<usize>>, amount: i64) -> (bucket: Option<
    &Vec<usize>,
>)
    ensures
        match bucket {
            Some(list) => buckets_held(*map).contains_key(amount) && list@ == buckets_held(
                *map,
            )[amount],
            None => !buckets_held(*map).contains_key(amount),
        },
{
    map.get(&amount)
}

/// `HashMap::remove` on an `FxHashMap`: the list that is held for the amount, if any, is taken out.
#[verifier::external_body]
pub(crate) fn take_bucket(map: &mut FxHashMap<i64, Vec<usize>>, amount: i64) -> (bucket: Option<
    Vec<usize>,
>)
    ensures
        match bucket {
            Some(list) => buckets_held(*old(map)).contains_key(amount) && list@ == buckets_held(
                *old(map),
            )[amount],
            None => !buckets_held(*old(map)).contains_key(amount),
        },
        buckets_held(*final(map)) == buckets_held(*old(map)).remove(amount),
{
    map.remove(&amount)
}

/// `HashMap::insert` on an `FxHashMap`: the list is held for the amount from now on.
#[verifier::external_body]
pub(crate) fn put_bucket(map: &mut FxHashMap<i64, Vec<usize>>, amount: i64, list: Vec<usize>)
    ensures
        buckets_held(*final(map)) == buckets_held(*old(map)).insert(amount, list@),
{
    map.insert(amount, list);
}

} // verus!
