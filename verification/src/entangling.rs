//! Entangling placements of an architecture, and distances to them.

use crate::arch::{joined_word, joins, ArchModel, ArchSpec, LocationAddr};
use crate::config::Config;
use crate::distance::{hops, DistanceTable};
use crate::seqs::{increasing_u64, insert_sorted_u64, lemma_first_cases};
use std::collections::{HashMap, HashSet};
use vstd::arithmetic::div_mod::lemma_fundamental_div_mod_converse;
use vstd::prelude::*;

verus! {

broadcast use vstd::std_specs::hash::group_hash_axioms;

/// A pair of words within a zone that can perform CZ gates together.
#[derive(Clone, Copy, Debug, PartialEq, Eq, Structural)]
pub struct EntanglingWordPair {
    pub zone_id: u32,
    pub word_a: u32,
    pub word_b: u32,
}

/// The word pairs of the first `n` zones, zone by zone.
pub open spec fn word_pairs_of(arch: ArchModel, n: nat) -> Seq<EntanglingWordPair>
    decreases n,
{
    if n == 0 {
        Seq::empty()
    } else {
        let pairs = arch.zones[n - 1].entangling_pairs;
        word_pairs_of(arch, (n - 1) as nat) + Seq::new(
            pairs.len(),
            |k: int|
                EntanglingWordPair {
                    zone_id: (n - 1) as u32,
                    word_a: pairs[k].0,
                    word_b: pairs[k].1,
                },
        )
    }
}

/// All word pairs of an architecture.
pub open spec fn word_pairs(arch: ArchModel) -> Seq<EntanglingWordPair> {
    word_pairs_of(arch, arch.zones.len())
}

/// Enumerate all entangling word pairs of an architecture, zone by zone.
pub fn enumerate_word_pairs(arch: &ArchSpec) -> (pairs: Vec<EntanglingWordPair>)
    ensures
        pairs@ == word_pairs(arch@),
{
    let mut result: Vec<EntanglingWordPair> = Vec::new();
    let mut z: usize = 0;
    while z < arch.zones.len()
        invariant
            z <= arch.zones.len(),
            result@ == word_pairs_of(arch@, z as nat),
        decreases arch.zones.len() - z,
    {
        let pairs = &arch.zones[z].entangling_pairs;
        let ghost row = Seq::new(
            pairs@.len(),
            |k: int|
                EntanglingWordPair { zone_id: z as u32, word_a: pairs@[k].0, word_b: pairs@[k].1 },
        );
        let ghost before = result@;
        let mut k: usize = 0;
        while k < pairs.len()
            invariant
                k <= pairs.len(),
                row == Seq::new(
                    pairs@.len(),
                    |k: int|
                        EntanglingWordPair {
                            zone_id: z as u32,
                            word_a: pairs@[k].0,
                            word_b: pairs@[k].1,
                        },
                ),
                result@ == before + row.take(k as int),
            decreases pairs.len() - k,
        {
            let (word_a, word_b) = pairs[k];
            result.push(EntanglingWordPair { zone_id: z as u32, word_a, word_b });
            k += 1;
            assert(row.take(k as int) =~= row.take(k - 1).push(row[k - 1]));
        }
        assert(row.take(k as int) =~= row);
        assert(arch@.zones[z as int].entangling_pairs == pairs@);
        z += 1;
        assert(result@ =~= word_pairs_of(arch@, z as nat));
    }
    result
}

/// An entangling position: the two locations that form a CZ pair.
#[derive(Clone, Copy, Debug, PartialEq, Eq, Structural)]
pub struct PositionSlot {
    pub loc_a: u64,
    pub loc_b: u64,
}

/// A site of a word, packed.
pub open spec fn site_code(zone_id: u32, word_id: u32, site_id: u32) -> u64 {
    LocationAddr { zone_id, word_id, site_id }.code()
}

/// The position at a site of a word pair.
pub open spec fn slot_of(pair: EntanglingWordPair, site_id: u32) -> PositionSlot {
    PositionSlot {
        loc_a: site_code(pair.zone_id, pair.word_a, site_id),
        loc_b: site_code(pair.zone_id, pair.word_b, site_id),
    }
}

/// All positions of the word pairs: the sites of the first pair, then those of
/// the next.
pub open spec fn slots_of(pairs: Seq<EntanglingWordPair>, sites: u32) -> Seq<PositionSlot> {
    Seq::new(
        (pairs.len() * sites) as nat,
        |k: int| slot_of(pairs[k / sites as int], (k % sites as int) as u32),
    )
}

/// Sites per word, as positions count them.
pub open spec fn slot_sites(arch: ArchModel) -> u32 {
    arch.site_count() as u32
}

/// All positions of an architecture.
pub open spec fn position_slots(arch: ArchModel) -> Seq<PositionSlot> {
    slots_of(word_pairs(arch), slot_sites(arch))
}

/// The position at site `site` of pair `w` comes at `w * sites + site`.
pub proof fn lemma_slot_index(pairs: Seq<EntanglingWordPair>, sites: u32, w: int, site: u32)
    requires
        0 <= w < pairs.len(),
        site < sites,
    ensures
        0 <= w * sites + site < pairs.len() * sites,
        slots_of(pairs, sites)[w * sites + site] == slot_of(pairs[w], site),
{
    let k = w * sites + site;
    assert(w * sites + sites <= pairs.len() * sites) by (nonlinear_arith)
        requires
            0 <= w < pairs.len(),
    ;
    assert(0 <= w * sites) by (nonlinear_arith)
        requires
            0 <= w,
    ;
    lemma_fundamental_div_mod_converse(k, sites as int, w, site as int);
}

/// Enumerate all positions of the given word pairs.
pub fn enumerate_slots(pairs: &[EntanglingWordPair], sites: u32) -> (slots: Vec<PositionSlot>)
    ensures
        slots@ == slots_of(pairs@, sites),
{
    let mut slots: Vec<PositionSlot> = Vec::new();
    let mut w: usize = 0;
    assert(0 * sites == 0);
    while w < pairs.len()
        invariant
            w <= pairs@.len(),
            slots@.len() == w * sites,
            w * sites <= pairs@.len() * sites,
            slots@ == slots_of(pairs@, sites).take(w * sites),
        decreases pairs.len() - w,
    {
        let pair = pairs[w];
        let mut site: u32 = 0;
        proof {
            assert((w + 1) * sites == w * sites + sites) by (nonlinear_arith);
            assert((w + 1) * sites <= pairs@.len() * sites) by (nonlinear_arith)
                requires
                    w < pairs@.len(),
            ;
        }
        while site < sites
            invariant
                w < pairs@.len(),
                site <= sites,
                pair == pairs@[w as int],
                slots@.len() == w * sites + site,
                w * sites + sites <= pairs@.len() * sites,
                slots@ == slots_of(pairs@, sites).take(w * sites + site),
            decreases sites - site,
        {
            let loc_a = LocationAddr {
                zone_id: pair.zone_id,
                word_id: pair.word_a,
                site_id: site,
            }.encode();
            let loc_b = LocationAddr {
                zone_id: pair.zone_id,
                word_id: pair.word_b,
                site_id: site,
            }.encode();
            proof {
                lemma_slot_index(pairs@, sites, w as int, site);
            }
            slots.push(PositionSlot { loc_a, loc_b });
            site += 1;
            assert(slots@ =~= slots_of(pairs@, sites).take(w * sites + site));
        }
        w += 1;
    }
    assert(slots@ =~= slots_of(pairs@, sites));
    slots
}

/// The word pairs of a zone have no word in common, and every address fits its
/// bit fields.
pub open spec fn is_regular(arch: ArchModel) -> bool {
    &&& arch.zones.len() <= 0x100
    &&& arch.site_count() <= 0x1_0000
    &&& forall|z: int, k: int|
        0 <= z < arch.zones.len() && 0 <= k < arch.zones[z].entangling_pairs.len() ==> {
            let pair = #[trigger] arch.zones[z].entangling_pairs[k];
            &&& pair.0 != pair.1
            &&& pair.0 < 0x1_0000
            &&& pair.1 < 0x1_0000
        }
    &&& forall|z: int, k: int, l: int|
        0 <= z < arch.zones.len() && 0 <= k < l < arch.zones[z].entangling_pairs.len() ==> {
            let p = #[trigger] arch.zones[z].entangling_pairs[k];
            let q = #[trigger] arch.zones[z].entangling_pairs[l];
            p.0 != q.0 && p.0 != q.1 && p.1 != q.0 && p.1 != q.1
        }
}

/// Every word pair comes from a zone; later ones from the same zone further on,
/// or from a later zone.
pub proof fn lemma_word_pair_origin(arch: ArchModel, n: nat, w: int) -> (origin: (int, int))
    requires
        n <= arch.zones.len(),
        0 <= w < word_pairs_of(arch, n).len(),
    ensures
        0 <= origin.0 < n,
        0 <= origin.1 < arch.zones[origin.0].entangling_pairs.len(),
        word_pairs_of(arch, n)[w] == (EntanglingWordPair {
            zone_id: origin.0 as u32,
            word_a: arch.zones[origin.0].entangling_pairs[origin.1].0,
            word_b: arch.zones[origin.0].entangling_pairs[origin.1].1,
        }),
        w == word_pairs_of(arch, origin.0 as nat).len() + origin.1,
    decreases n,
{
    let rest = word_pairs_of(arch, (n - 1) as nat);
    if w < rest.len() {
        lemma_word_pair_origin(arch, (n - 1) as nat, w)
    } else {
        (n - 1, w - rest.len())
    }
}

/// In a regular architecture all halves of all positions are different
/// locations.
pub proof fn lemma_slots_disjoint(arch: ArchModel, j: int, k: int)
    requires
        is_regular(arch),
        0 <= j < position_slots(arch).len(),
        0 <= k < position_slots(arch).len(),
    ensures
        position_slots(arch)[j].loc_a != position_slots(arch)[j].loc_b,
        j != k ==> {
            &&& position_slots(arch)[j].loc_a != position_slots(arch)[k].loc_a
            &&& position_slots(arch)[j].loc_a != position_slots(arch)[k].loc_b
            &&& position_slots(arch)[j].loc_b != position_slots(arch)[k].loc_a
            &&& position_slots(arch)[j].loc_b != position_slots(arch)[k].loc_b
        },
{
    let pairs = word_pairs(arch);
    let sites = slot_sites(arch);
    let (wj, sj) = (j / sites as int, j % sites as int);
    let (wk, sk) = (k / sites as int, k % sites as int);
    assert(sites > 0) by (nonlinear_arith)
        requires
            j < pairs.len() * sites,
            0 <= j,
    ;
    assert(0 <= wj < pairs.len() && 0 <= sj < sites && j == wj * sites + sj) by (nonlinear_arith)
        requires
            0 <= j < pairs.len() * sites,
            sites > 0,
            wj == j / sites as int,
            sj == j % sites as int,
    ;
    assert(0 <= wk < pairs.len() && 0 <= sk < sites && k == wk * sites + sk) by (nonlinear_arith)
        requires
            0 <= k < pairs.len() * sites,
            sites > 0,
            wk == k / sites as int,
            sk == k % sites as int,
    ;
    let (zj, pj) = lemma_word_pair_origin(arch, arch.zones.len(), wj);
    let (zk, pk) = lemma_word_pair_origin(arch, arch.zones.len(), wk);
    let (a, b) = (pairs[wj], pairs[wk]);
    let p = arch.zones[zj].entangling_pairs[pj];
    let q = arch.zones[zk].entangling_pairs[pk];
    assert(p.0 != p.1 && p.0 < 0x1_0000 && p.1 < 0x1_0000);
    assert(q.0 != q.1 && q.0 < 0x1_0000 && q.1 < 0x1_0000);
    let aa = LocationAddr { zone_id: a.zone_id, word_id: a.word_a, site_id: sj as u32 };
    let ab = LocationAddr { zone_id: a.zone_id, word_id: a.word_b, site_id: sj as u32 };
    let ba = LocationAddr { zone_id: b.zone_id, word_id: b.word_a, site_id: sk as u32 };
    let bb = LocationAddr { zone_id: b.zone_id, word_id: b.word_b, site_id: sk as u32 };
    assert(aa.fits() && ab.fits() && ba.fits() && bb.fits());
    if aa.code() == ab.code() {
        aa.lemma_code_injective(ab);
    }
    if j != k {
        if sj == sk && zj == zk {
            assert(wj != wk);
            assert(pj != pk);
            if pj < pk {
                assert(arch.zones[zj].entangling_pairs[pj].0
                    != arch.zones[zj].entangling_pairs[pk].0);
            } else {
                assert(arch.zones[zj].entangling_pairs[pk].0
                    != arch.zones[zj].entangling_pairs[pj].0);
            }
        }
        if aa.code() == ba.code() {
            aa.lemma_code_injective(ba);
        }
        if aa.code() == bb.code() {
            aa.lemma_code_injective(bb);
        }
        if ab.code() == ba.code() {
            ab.lemma_code_injective(ba);
        }
        if ab.code() == bb.code() {
            ab.lemma_code_injective(bb);
        }
    }
}

/// A location is one half of a position.
pub open spec fn is_half(slots: Seq<PositionSlot>, loc: u64) -> bool {
    exists|k: int|
        0 <= k < slots.len() && ((#[trigger] slots[k]).loc_a == loc || slots[k].loc_b == loc)
}

/// Two locations are the halves of a position, in either order.
pub open spec fn is_placement(slots: Seq<PositionSlot>, a: u64, b: u64) -> bool {
    exists|k: int|
        0 <= k < slots.len() && (((#[trigger] slots[k]).loc_a == a && slots[k].loc_b == b) || (
        slots[k].loc_a == b && slots[k].loc_b == a))
}

/// Collect all locations that take part in an entangling pair: both words of
/// every pair, all sites, in increasing order and each once.
pub fn all_entangling_locations(arch: &ArchSpec) -> (locs: Vec<u64>)
    ensures
        increasing_u64(locs@),
        forall|loc: u64| #[trigger]
            locs@.contains(loc) <==> is_half(position_slots(arch@), loc),
{
    let pairs = enumerate_word_pairs(arch);
    let slots = enumerate_slots(pairs.as_slice(), arch.sites_per_word() as u32);
    let mut locs: Vec<u64> = Vec::new();
    let mut k: usize = 0;
    assert(slots@.take(0) =~= seq![]);
    while k < slots.len()
        invariant
            k <= slots.len(),
            increasing_u64(locs@),
            forall|loc: u64| #[trigger]
                locs@.contains(loc) <==> is_half(slots@.take(k as int), loc),
        decreases slots.len() - k,
    {
        let ghost prior = locs@;
        insert_sorted_u64(&mut locs, slots[k].loc_a);
        let ghost half = locs@;
        insert_sorted_u64(&mut locs, slots[k].loc_b);
        proof {
            let before = slots@.take(k as int);
            let after = slots@.take(k + 1);
            assert forall|loc: u64| #[trigger] locs@.contains(loc) <==> is_half(after, loc) by {
                assert(half.contains(loc) <==> loc == slots@[k as int].loc_a || prior.contains(
                    loc,
                ));
                assert(prior.contains(loc) <==> is_half(before, loc));
                if is_half(before, loc) {
                    let i = choose|i: int|
                        0 <= i < before.len() && ((#[trigger] before[i]).loc_a == loc
                            || before[i].loc_b == loc);
                    assert(after[i] == before[i]);
                }
                if is_half(after, loc) {
                    let i = choose|i: int|
                        0 <= i < after.len() && ((#[trigger] after[i]).loc_a == loc
                            || after[i].loc_b == loc);
                    if i < k {
                        assert(before[i] == after[i]);
                    }
                }
                assert(after[k as int] == slots@[k as int]);
            }
        }
        k += 1;
    }
    assert(slots@.take(k as int) =~= slots@);
    locs
}

/// A set of placements: ordered pairs of locations.
#[derive(Debug)]
pub struct PlacementSet {
    codes: HashSet<u128>,
}

spec fn pair_code(pair: (u64, u64)) -> u128 {
    (pair.0 * 0x1_0000_0000_0000_0000 + pair.1) as u128
}

proof fn lemma_pair_code(pair: (u64, u64))
    ensures
        pair_code(pair) == pair.0 * 0x1_0000_0000_0000_0000 + pair.1,
        pair_code(pair) / 0x1_0000_0000_0000_0000 == pair.0,
        pair_code(pair) % 0x1_0000_0000_0000_0000 == pair.1,
{
}

impl View for PlacementSet {
    type V = Set<(u64, u64)>;

    closed spec fn view(&self) -> Set<(u64, u64)> {
        Set::new(|pair: (u64, u64)| self.codes@.contains(pair_code(pair)))
    }
}

fn encode_pair(a: u64, b: u64) -> (code: u128)
    ensures
        code == pair_code((a, b)),
{
    a as u128 * 0x1_0000_0000_0000_0000 + b as u128
}

impl Clone for PlacementSet {
    fn clone(&self) -> (copy: PlacementSet)
        ensures
            copy@ == self@,
    {
        let pairs = self.pairs();
        let mut copy = PlacementSet::new();
        let mut i: usize = 0;
        while i < pairs.len()
            invariant
                i <= pairs.len(),
                forall|pair: (u64, u64)| #[trigger]
                    copy@.contains(pair) <==> exists|k: int| 0 <= k < i && pairs@[k] == pair,
            decreases pairs.len() - i,
        {
            copy.insert(pairs[i].0, pairs[i].1);
            i += 1;
        }
        proof {
            assert forall|pair: (u64, u64)| #[trigger] copy@.contains(pair) <==> self@.contains(
                pair,
            ) by {
                assert(pairs@.contains(pair) <==> self@.contains(pair));
            }
            assert(copy@ =~= self@);
        }
        copy
    }
}

impl PlacementSet {
    /// The empty set.
    pub fn new() -> (set: PlacementSet)
        ensures
            set@ == Set::<(u64, u64)>::empty(),
    {
        let set = PlacementSet { codes: HashSet::new() };
        assert(set@ =~= Set::<(u64, u64)>::empty());
        set
    }

    /// Add a pair.
    pub fn insert(&mut self, a: u64, b: u64)
        ensures
            final(self)@ == old(self)@.insert((a, b)),
    {
        let code = encode_pair(a, b);
        self.codes.insert(code);
        proof {
            assert forall|pair: (u64, u64)| #[trigger]
                self@.contains(pair) <==> old(self)@.insert((a, b)).contains(pair) by {
                lemma_pair_code(pair);
                lemma_pair_code((a, b));
            }
            assert(self@ =~= old(self)@.insert((a, b)));
        }
    }

    /// Whether a pair is in the set.
    pub fn contains(&self, pair: &(u64, u64)) -> (b: bool)
        ensures
            b == self@.contains(*pair),
    {
        let code = encode_pair(pair.0, pair.1);
        self.codes.contains(&code)
    }

    /// The pairs of the set, in no particular order.
    pub fn pairs(&self) -> (pairs: Vec<(u64, u64)>)
        ensures
            forall|pair: (u64, u64)| #[trigger] pairs@.contains(pair) <==> self@.contains(pair),
    {
        let mut pairs: Vec<(u64, u64)> = Vec::new();
        for code in it: self.codes.iter()
            invariant
                pairs@.len() == it.index(),
                forall|i: int|
                    0 <= i < pairs@.len() ==> pair_code(#[trigger] pairs@[i]) == *it.seq()[i],
        {
            let a: u64 = (*code / 0x1_0000_0000_0000_0000) as u64;
            let b: u64 = (*code % 0x1_0000_0000_0000_0000) as u64;
            proof {
                lemma_pair_code((a, b));
            }
            pairs.push((a, b));
        }
        proof {
            let seq = vstd::std_specs::iter::IteratorSpec::remaining(
                &vstd::std_specs::hash::spec_hash_keys_iter(&self.codes),
            );
            assert(seq.unref().to_set() == self.codes@);
            assert forall|pair: (u64, u64)| #[trigger] pairs@.contains(pair) <==> self@.contains(
                pair,
            ) by {
                lemma_pair_code(pair);
                if pairs@.contains(pair) {
                    let i = choose|i: int| 0 <= i < pairs@.len() && pairs@[i] == pair;
                    assert(seq.unref()[i] == pair_code(pair));
                    assert(seq.unref().to_set().contains(pair_code(pair)));
                }
                if self@.contains(pair) {
                    assert(seq.unref().to_set().contains(pair_code(pair)));
                    let i = choose|i: int|
                        0 <= i < seq.unref().len() && seq.unref()[i] == pair_code(pair);
                    lemma_pair_code(pairs@[i]);
                }
            }
        }
        pairs
    }
}

/// The placements of a list of positions, in both orders.
pub open spec fn placements_of(slots: Seq<PositionSlot>) -> Set<(u64, u64)> {
    Set::new(|pair: (u64, u64)| is_placement(slots, pair.0, pair.1))
}

/// Build the lookup set of valid entangling placements.
///
/// A placement is a pair of packed locations in one zone, on an entangling word
/// pair, at the same site. Both orders are stored, so a lookup works whichever
/// qubit is on which word.
pub fn build_entangling_set(arch: &ArchSpec) -> (set: PlacementSet)
    ensures
        set@ == placements_of(position_slots(arch@)),
{
    let pairs = enumerate_word_pairs(arch);
    let slots = enumerate_slots(pairs.as_slice(), arch.sites_per_word() as u32);
    let mut set = PlacementSet::new();
    let mut k: usize = 0;
    assert(set@ =~= placements_of(slots@.take(0)));
    while k < slots.len()
        invariant
            k <= slots.len(),
            set@ == placements_of(slots@.take(k as int)),
        decreases slots.len() - k,
    {
        let slot = slots[k];
        let ghost prior = set@;
        set.insert(slot.loc_a, slot.loc_b);
        set.insert(slot.loc_b, slot.loc_a);
        proof {
            let before = slots@.take(k as int);
            let after = slots@.take(k + 1);
            assert forall|pair: (u64, u64)| #[trigger]
                set@.contains(pair) <==> placements_of(after).contains(pair) by {
                let (a, b) = pair;
                assert(prior.contains(pair) <==> is_placement(before, a, b));
                if is_placement(before, a, b) {
                    let i = choose|i: int|
                        0 <= i < before.len() && (((#[trigger] before[i]).loc_a == a
                            && before[i].loc_b == b) || (before[i].loc_a == b && before[i].loc_b
                            == a));
                    assert(after[i] == before[i]);
                }
                if is_placement(after, a, b) {
                    let i = choose|i: int|
                        0 <= i < after.len() && (((#[trigger] after[i]).loc_a == a
                            && after[i].loc_b == b) || (after[i].loc_a == b && after[i].loc_b
                            == a));
                    if i < k {
                        assert(before[i] == after[i]);
                    }
                }
                assert(after[k as int] == slot);
            }
            assert(set@ =~= placements_of(after));
        }
        k += 1;
    }
    assert(slots@.take(k as int) =~= slots@);
    set
}

/// Placements do not depend on the order of their two locations.
pub proof fn lemma_placements_symmetric(slots: Seq<PositionSlot>, a: u64, b: u64)
    ensures
        placements_of(slots).contains((a, b)) == placements_of(slots).contains((b, a)),
{
    if is_placement(slots, a, b) {
        let k = choose|k: int|
            0 <= k < slots.len() && (((#[trigger] slots[k]).loc_a == a && slots[k].loc_b == b) || (
            slots[k].loc_a == b && slots[k].loc_b == a));
        assert(is_placement(slots, b, a));
    }
    if is_placement(slots, b, a) {
        let k = choose|k: int|
            0 <= k < slots.len() && (((#[trigger] slots[k]).loc_a == b && slots[k].loc_b == a) || (
            slots[k].loc_a == a && slots[k].loc_b == b));
        assert(is_placement(slots, a, b));
    }
}

pub proof fn lemma_zone_pair(arch: ArchModel, n: nat, z: int, k: int) -> (w: int)
    requires
        0 <= z < n <= arch.zones.len(),
        0 <= k < arch.zones[z].entangling_pairs.len(),
    ensures
        0 <= w < word_pairs_of(arch, n).len(),
        word_pairs_of(arch, n)[w] == (EntanglingWordPair {
            zone_id: z as u32,
            word_a: arch.zones[z].entangling_pairs[k].0,
            word_b: arch.zones[z].entangling_pairs[k].1,
        }),
    decreases n,
{
    if z == n - 1 {
        word_pairs_of(arch, (n - 1) as nat).len() + k
    } else {
        lemma_zone_pair(arch, (n - 1) as nat, z, k)
    }
}

/// A location and its CZ partner form a placement.
pub proof fn lemma_cz_partner_is_placement(arch: ArchModel, loc: LocationAddr)
    requires
        arch.cz_partner(loc) is Some,
        loc.site_id < slot_sites(arch),
    ensures
        placements_of(position_slots(arch)).contains(
            (loc.code(), arch.cz_partner(loc)->0.code()),
        ),
{
    let z = loc.zone_id as int;
    let pairs = arch.zones[z].entangling_pairs;
    lemma_first_cases(pairs, joins(loc.word_id));
    let k = crate::seqs::first_where(pairs, joins(loc.word_id))->0;
    let w = lemma_zone_pair(arch, arch.zones.len(), z, k);
    let sites = slot_sites(arch);
    lemma_slot_index(word_pairs(arch), sites, w, loc.site_id);
    let slot = position_slots(arch)[w * sites + loc.site_id];
    let partner = arch.cz_partner(loc)->0;
    assert(slot == slot_of(word_pairs(arch)[w], loc.site_id));
    assert(joined_word(pairs, loc.word_id) == Some(partner.word_id));
    assert(loc == LocationAddr {
        zone_id: loc.zone_id,
        word_id: loc.word_id,
        site_id: loc.site_id,
    });
    assert(partner == LocationAddr {
        zone_id: loc.zone_id,
        word_id: partner.word_id,
        site_id: loc.site_id,
    });
    assert(is_placement(position_slots(arch), loc.code(), partner.code()));
}

/// `partners` gives every location that has a partner in `set` one of them.
pub open spec fn is_partner_map(set: Set<(u64, u64)>, partners: Map<u64, u64>) -> bool {
    &&& forall|a: u64, b: u64| #[trigger] set.contains((a, b)) ==> partners.contains_key(a)
    &&& forall|a: u64| #[trigger] partners.contains_key(a) ==> set.contains((a, partners[a]))
}

/// Build a partner map from the placements: for each location its CZ partner.
/// Where a location has more than one partner, any of them.
pub fn build_partner_map(entangling_set: &PlacementSet) -> (partners: HashMap<u64, u64>)
    ensures
        is_partner_map(entangling_set@, partners@),
{
    let pairs = entangling_set.pairs();
    let mut partners: HashMap<u64, u64> = HashMap::new();
    let mut i: usize = 0;
    while i < pairs.len()
        invariant
            i <= pairs.len(),
            forall|pair: (u64, u64)| #[trigger]
                pairs@.contains(pair) <==> entangling_set@.contains(pair),
            forall|k: int| 0 <= k < i ==> partners@.contains_key((#[trigger] pairs@[k]).0),
            forall|a: u64| #[trigger]
                partners@.contains_key(a) ==> entangling_set@.contains((a, partners@[a])),
        decreases pairs.len() - i,
    {
        let (a, b) = pairs[i];
        assert(pairs@.contains(pairs@[i as int]));
        partners.insert(a, b);
        i += 1;
    }
    proof {
        assert forall|a: u64, b: u64| #[trigger]
            entangling_set@.contains((a, b)) implies partners@.contains_key(a) by {
            assert(pairs@.contains((a, b)));
            let k = choose|k: int| 0 <= k < pairs@.len() && pairs@[k] == (a, b);
            assert(partners@.contains_key(pairs@[k].0));
        }
    }
    partners
}

/// Where placements are symmetric and every location has at most one partner,
/// the partner of a location's partner is the location itself.
pub proof fn lemma_partner_map_bidirectional(set: Set<(u64, u64)>, partners: Map<u64, u64>, a: u64)
    requires
        is_partner_map(set, partners),
        forall|a: u64, b: u64| #[trigger] set.contains((a, b)) ==> set.contains((b, a)),
        forall|a: u64, b: u64, c: u64| #[trigger]
            set.contains((a, b)) && #[trigger] set.contains((a, c)) ==> b == c,
        partners.contains_key(a),
    ensures
        partners.contains_key(partners[a]),
        partners[partners[a]] == a,
{
    let b = partners[a];
    assert(set.contains((a, b)));
    assert(set.contains((b, a)));
    assert(set.contains((b, partners[b])));
}

/// The sites of a word, packed.
pub open spec fn word_locations(zone_id: u32, word_id: u32, sites: u32) -> Seq<u64> {
    Seq::new(sites as nat, |site: int| site_code(zone_id, word_id, site as u32))
}

fn enumerate_word_locations(zone_id: u32, word_id: u32, sites: u32) -> (locs: Vec<u64>)
    ensures
        locs@ == word_locations(zone_id, word_id, sites),
{
    let mut locs: Vec<u64> = Vec::new();
    let mut site_id: u32 = 0;
    while site_id < sites
        invariant
            site_id <= sites,
            locs@ == word_locations(zone_id, word_id, sites).take(site_id as int),
        decreases sites - site_id,
    {
        locs.push(LocationAddr { zone_id, word_id, site_id }.encode());
        site_id += 1;
        assert(locs@ =~= word_locations(zone_id, word_id, sites).take(site_id as int));
    }
    assert(locs@ =~= word_locations(zone_id, word_id, sites));
    locs
}

/// `nearest` gives, for every location from which the table reaches a target,
/// the least hop count to any of them.
pub open spec fn is_nearest(
    table: Map<u64, Map<u64, u32>>,
    targets: Seq<u64>,
    nearest: Map<u64, u32>,
) -> bool {
    &&& forall|from: u64, i: int|
        0 <= i < targets.len() ==> match #[trigger] hops(table, from, targets[i]) {
            Some(n) => nearest.contains_key(from) && nearest[from] <= n,
            None => true,
        }
    &&& forall|from: u64| #[trigger]
        nearest.contains_key(from) ==> exists|i: int|
            0 <= i < targets.len() && #[trigger] hops(table, from, targets[i]) == Some(
                nearest[from],
            )
}

/// For a list of target locations, the least hop count to any of them from
/// every location that reaches one.
pub fn collapse_min_distances(dist_table: &DistanceTable, targets: &[u64]) -> (nearest: HashMap<
    u64,
    u32,
>)
    ensures
        is_nearest(dist_table@, targets@, nearest@),
{
    let mut nearest: HashMap<u64, u32> = HashMap::new();
    let mut i: usize = 0;
    while i < targets.len()
        invariant
            i <= targets@.len(),
            is_nearest(dist_table@, targets@.take(i as int), nearest@),
        decreases targets.len() - i,
    {
        let ghost prior = nearest@;
        let to = targets[i];
        match dist_table.sources(to) {
            Some(row) => {
                lower(&mut nearest, row);
            },
            None => {},
        }
        proof {
            let before = targets@.take(i as int);
            let after = targets@.take(i + 1);
            assert forall|from: u64, k: int| 0 <= k < after.len() implies match #[trigger] hops(
                dist_table@,
                from,
                after[k],
            ) {
                Some(n) => nearest@.contains_key(from) && nearest@[from] <= n,
                None => true,
            } by {
                if k < i {
                    assert(after[k] == before[k]);
                    assert(hops(dist_table@, from, before[k]) == hops(
                        dist_table@,
                        from,
                        after[k],
                    ));
                }
            }
            assert forall|from: u64| #[trigger] nearest@.contains_key(from) implies exists|k: int|
                0 <= k < after.len() && #[trigger] hops(dist_table@, from, after[k]) == Some(
                    nearest@[from],
                ) by {
                if prior.contains_key(from) && prior[from] == nearest@[from] {
                    let k = choose|k: int|
                        0 <= k < before.len() && #[trigger] hops(dist_table@, from, before[k])
                            == Some(prior[from]);
                    assert(after[k] == before[k]);
                } else {
                    assert(after[i as int] == to);
                    assert(hops(dist_table@, from, after[i as int]) == Some(nearest@[from]));
                }
            }
        }
        i += 1;
    }
    assert(targets@.take(i as int) =~= targets@);
    nearest
}

/// Lower every entry to that of `row`, where `row` has a smaller one.
fn lower(nearest: &mut HashMap<u64, u32>, row: &HashMap<u64, u32>)
    ensures
        forall|from: u64| #[trigger]
            final(nearest)@.contains_key(from) <==> old(nearest)@.contains_key(from)
                || row@.contains_key(from),
        forall|from: u64| #[trigger]
            final(nearest)@.contains_key(from) ==> {
                let n = final(nearest)@[from];
                &&& old(nearest)@.contains_key(from) ==> n <= old(nearest)@[from]
                &&& row@.contains_key(from) ==> n <= row@[from]
                &&& (old(nearest)@.contains_key(from) && n == old(nearest)@[from]) || (
                row@.contains_key(from) && n == row@[from])
            },
{
    for entry in it: row.iter()
        invariant
            forall|from: u64| #[trigger]
                nearest@.contains_key(from) <==> old(nearest)@.contains_key(from) || (exists|i: int|
                    0 <= i < it.index() && *(#[trigger] it.seq()[i]).0 == from),
            forall|i: int|
                0 <= i < it.index() ==> nearest@.contains_key(*(#[trigger] it.seq()[i]).0)
                    && nearest@[*it.seq()[i].0] <= *it.seq()[i].1,
            forall|i: int|
                0 <= i < it.seq().len() ==> row@.contains_pair(
                    *(#[trigger] it.seq()[i]).0,
                    *it.seq()[i].1,
                ),
            forall|from: u64| #[trigger]
                nearest@.contains_key(from) ==> {
                    &&& old(nearest)@.contains_key(from) ==> nearest@[from] <= old(nearest)@[from]
                    &&& (old(nearest)@.contains_key(from) && nearest@[from] == old(
                        nearest,
                    )@[from]) || (row@.contains_key(from) && nearest@[from] == row@[from])
                },
    {
        let (from, n) = entry;
        let keep = match nearest.get(from) {
            Some(m) => *m <= *n,
            None => false,
        };
        if !keep {
            nearest.insert(*from, *n);
        }
    }
    proof {
        let seq = vstd::std_specs::iter::IteratorSpec::remaining(
            &vstd::std_specs::hash::spec_hash_map_iter(row),
        );
        assert forall|from: u64| row@.contains_key(from) implies nearest@.contains_key(from)
            && nearest@[from] <= row@[from] by {
            assert(seq.contains((&from, &row@[from])));
            let i = choose|i: int| 0 <= i < seq.len() && seq[i] == (&from, &row@[from]);
            assert(*seq[i].0 == from);
        }
    }
}

/// One word pair with the least hop counts to either word.
#[derive(Debug)]
struct WordPairEntry {
    word_pair: EntanglingWordPair,
    min_dist_a: HashMap<u64, u32>,
    min_dist_b: HashMap<u64, u32>,
}

/// Least hop counts from any location to each entangling word, over all sites
/// of the word.
#[derive(Debug)]
pub struct WordPairDistances {
    entries: Vec<WordPairEntry>,
}

impl View for WordPairDistances {
    type V = Seq<(EntanglingWordPair, Map<u64, u32>, Map<u64, u32>)>;

    /// Each word pair with the hop counts to its first and to its second word.
    closed spec fn view(&self) -> Seq<(EntanglingWordPair, Map<u64, u32>, Map<u64, u32>)> {
        self.entries@.map_values(
            |entry: WordPairEntry| (entry.word_pair, entry.min_dist_a@, entry.min_dist_b@),
        )
    }
}

impl WordPairDistances {
    /// Group the targets of a table, built over all entangling locations, by
    /// word and take the least hop count per group.
    pub fn from_dist_table(
        word_pairs: &[EntanglingWordPair],
        arch: &ArchSpec,
        dist_table: &DistanceTable,
    ) -> (distances: WordPairDistances)
        ensures
            distances@.len() == word_pairs@.len(),
            forall|i: int|
                0 <= i < word_pairs@.len() ==> {
                    let pair = word_pairs@[i];
                    let sites = slot_sites(arch@);
                    let entry = #[trigger] distances@[i];
                    &&& entry.0 == pair
                    &&& is_nearest(
                        dist_table@,
                        word_locations(pair.zone_id, pair.word_a, sites),
                        entry.1,
                    )
                    &&& is_nearest(
                        dist_table@,
                        word_locations(pair.zone_id, pair.word_b, sites),
                        entry.2,
                    )
                },
    {
        let sites = arch.sites_per_word() as u32;
        let mut entries: Vec<WordPairEntry> = Vec::new();
        let mut k: usize = 0;
        while k < word_pairs.len()
            invariant
                k <= word_pairs@.len(),
                entries@.len() == k,
                sites == slot_sites(arch@),
                forall|i: int|
                    0 <= i < k ==> {
                        let pair = word_pairs@[i];
                        let entry = #[trigger] entries@[i];
                        &&& entry.word_pair == pair
                        &&& is_nearest(
                            dist_table@,
                            word_locations(pair.zone_id, pair.word_a, sites),
                            entry.min_dist_a@,
                        )
                        &&& is_nearest(
                            dist_table@,
                            word_locations(pair.zone_id, pair.word_b, sites),
                            entry.min_dist_b@,
                        )
                    },
            decreases word_pairs.len() - k,
        {
            let pair = word_pairs[k];
            let targets_a = enumerate_word_locations(pair.zone_id, pair.word_a, sites);
            let targets_b = enumerate_word_locations(pair.zone_id, pair.word_b, sites);
            let min_dist_a = collapse_min_distances(dist_table, targets_a.as_slice());
            let min_dist_b = collapse_min_distances(dist_table, targets_b.as_slice());
            entries.push(WordPairEntry { word_pair: pair, min_dist_a, min_dist_b });
            k += 1;
        }
        WordPairDistances { entries }
    }

    /// Number of entangling word pairs.
    pub fn len(&self) -> (n: usize)
        ensures
            n == self@.len(),
    {
        self.entries.len()
    }

    /// Whether there are no entangling word pairs.
    pub fn is_empty(&self) -> (b: bool)
        ensures
            b == (self@.len() == 0),
    {
        self.entries.len() == 0
    }

    /// Every word pair with the hop counts to its first and its second word.
    pub fn iter(&self) -> (entries: Vec<
        (&EntanglingWordPair, &HashMap<u64, u32>, &HashMap<u64, u32>),
    >)
        ensures
            entries@.len() == self@.len(),
            forall|i: int|
                0 <= i < self@.len() ==> {
                    let entry = #[trigger] entries@[i];
                    self@[i] == (*entry.0, entry.1@, entry.2@)
                },
    {
        let mut entries: Vec<(&EntanglingWordPair, &HashMap<u64, u32>, &HashMap<u64, u32>)> =
            Vec::new();
        let mut k: usize = 0;
        while k < self.entries.len()
            invariant
                k <= self.entries.len(),
                entries@.len() == k,
                forall|i: int|
                    0 <= i < k ==> {
                        let entry = #[trigger] entries@[i];
                        self@[i] == (*entry.0, entry.1@, entry.2@)
                    },
            decreases self.entries.len() - k,
        {
            let entry = &self.entries[k];
            entries.push((&entry.word_pair, &entry.min_dist_a, &entry.min_dist_b));
            k += 1;
        }
        entries
    }
}

/// What an unreachable target adds to the cost of an assignment.
pub const UNREACHABLE_HOPS: u32 = 0x7fff_ffff;

/// Hops of a qubit at `loc` to its target.
pub open spec fn target_hops(table: Map<u64, Map<u64, u32>>, loc: u64, target: u64) -> int {
    if loc == target {
        0
    } else {
        match hops(table, loc, target) {
            Some(n) => n as int,
            None => UNREACHABLE_HOPS as int,
        }
    }
}

/// Some target is for a qubit that is not placed.
pub open spec fn has_unplaced_target(config: Config, targets: Seq<(u32, u64)>) -> bool {
    exists|i: int| 0 <= i < targets.len() && config.at((#[trigger] targets[i]).0) is None
}

/// Hops of all targets together.
pub open spec fn total_hops(
    config: Config,
    targets: Seq<(u32, u64)>,
    table: Map<u64, Map<u64, u32>>,
) -> int
    decreases targets.len(),
{
    if targets.len() == 0 {
        0
    } else {
        let (qubit_id, target) = targets.last();
        total_hops(config, targets.drop_last(), table) + target_hops(
            table,
            config.at(qubit_id)->0.code(),
            target,
        )
    }
}

/// A cost as far as a `u32` holds it.
pub open spec fn capped(cost: int) -> u32 {
    if cost >= u32::MAX {
        u32::MAX
    } else {
        cost as u32
    }
}

/// Total cost of a target assignment: the hops of every qubit in `targets` from
/// where it sits to its target, `u32::MAX` at most. An unreachable target
/// counts [`UNREACHABLE_HOPS`]; with a target for a qubit that is not placed,
/// the cost is `u32::MAX`.
pub fn assignment_cost(
    config: &Config,
    targets: &[(u32, u64)],
    dist_table: &DistanceTable,
) -> (cost: u32)
    ensures
        cost == if has_unplaced_target(*config, targets@) {
            u32::MAX
        } else {
            capped(total_hops(*config, targets@, dist_table@))
        },
{
    let mut total: u32 = 0;
    let mut i: usize = 0;
    assert(targets@.take(0) =~= seq![]);
    while i < targets.len()
        invariant
            i <= targets@.len(),
            !has_unplaced_target(*config, targets@.take(i as int)),
            0 <= total_hops(*config, targets@.take(i as int), dist_table@),
            total == capped(total_hops(*config, targets@.take(i as int), dist_table@)),
        decreases targets.len() - i,
    {
        let (qubit_id, target) = targets[i];
        let ghost before = targets@.take(i as int);
        let ghost after = targets@.take(i + 1);
        proof {
            assert(after.drop_last() =~= before);
            assert(after.last() == targets@[i as int]);
        }
        let loc = match config.location_of(qubit_id) {
            Some(loc) => loc,
            None => {
                assert(config.at(targets@[i as int].0) is None);
                return u32::MAX;
            },
        };
        proof {
            assert forall|k: int| 0 <= k < after.len() implies config.at(
                (#[trigger] after[k]).0,
            ) is Some by {
                if k < i {
                    assert(before[k] == after[k]);
                }
            }
        }
        let code = loc.encode();
        if code != target {
            let n: u32 = match dist_table.distance(code, target) {
                Some(n) => n,
                None => UNREACHABLE_HOPS,
            };
            total = total.saturating_add(n);
        }
        i += 1;
    }
    assert(targets@.take(i as int) =~= targets@);
    total
}

} // verus!
