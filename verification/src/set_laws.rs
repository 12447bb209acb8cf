//! Sorted lists and sets of placements, call by call.

use crate::entangling::{build_partner_map, PlacementSet};
use crate::seqs::{increasing_u32, increasing_u64, insert_sorted_u32, insert_sorted_u64};
use std::collections::HashMap;
use vstd::prelude::*;

verus! {

/// Inserting into an increasing list adds the number and nothing else, and keeps the list
/// increasing.
pub proof fn lemma_insert_sorted_u32(v: &mut Vec<u32>, x: u32, y: u32, i: int, j: int)
    requires
        increasing_u32(old(v)@),
        call_ensures(insert_sorted_u32, (v, x), ()),
    ensures
        final(v)@.contains(x),
        y != x ==> (final(v)@.contains(y) <==> old(v)@.contains(y)),
        0 <= i < j < final(v)@.len() ==> final(v)@[i] < final(v)@[j],
{
}

/// The same for wider numbers.
pub proof fn lemma_insert_sorted_u64(v: &mut Vec<u64>, x: u64, y: u64, i: int, j: int)
    requires
        increasing_u64(old(v)@),
        call_ensures(insert_sorted_u64, (v, x), ()),
    ensures
        final(v)@.contains(x),
        y != x ==> (final(v)@.contains(y) <==> old(v)@.contains(y)),
        0 <= i < j < final(v)@.len() ==> final(v)@[i] < final(v)@[j],
{
}

/// A set of placements holds what was inserted, in the order given, and what it held
/// before.
pub proof fn lemma_placement_inserted(
    set: &mut PlacementSet,
    a: u64,
    b: u64,
    pair: (u64, u64),
    before: bool,
    after: bool,
)
    requires
        call_ensures(PlacementSet::contains, (&*old(set), &pair), before),
        call_ensures(PlacementSet::insert, (set, a, b), ()),
        call_ensures(PlacementSet::contains, (&*final(set), &pair), after),
    ensures
        after <==> before || pair == (a, b),
{
}

/// A new set holds nothing, and a set lists what it holds.
pub proof fn lemma_placements_listed(
    fresh: PlacementSet,
    set: PlacementSet,
    pair: (u64, u64),
    in_fresh: bool,
    in_set: bool,
    pairs: Vec<(u64, u64)>,
)
    requires
        call_ensures(PlacementSet::new, (), fresh),
        call_ensures(PlacementSet::contains, (&fresh, &pair), in_fresh),
        call_ensures(PlacementSet::contains, (&set, &pair), in_set),
        call_ensures(PlacementSet::pairs, (&set,), pairs),
    ensures
        !in_fresh,
        in_set <==> pairs@.contains(pair),
{
}

/// Every location that has a partner gets one, and only a location that is its partner.
pub proof fn lemma_partner_map(
    set: PlacementSet,
    partners: HashMap<u64, u64>,
    a: u64,
    b: u64,
    paired: bool,
)
    requires
        call_ensures(build_partner_map, (&set,), partners),
        call_ensures(PlacementSet::contains, (&set, &(a, b)), paired),
    ensures
        paired ==> partners@.contains_key(a),
        partners@.contains_pair(a, b) ==> paired,
{
}

} // verus!
