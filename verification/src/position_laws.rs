//! Entangling positions and CZ partners, stated on zones, words and sites.

use crate::arch::{joins, ArchModel, ArchSpec, LocationAddr};
use crate::entangling::{
    all_entangling_locations, build_entangling_set, enumerate_slots, enumerate_word_pairs, is_half,
    is_placement, is_regular, lemma_slot_index, lemma_word_pair_origin, lemma_zone_pair,
    position_slots, slot_of, slot_sites, word_pairs, word_pairs_of, EntanglingWordPair,
    PlacementSet, PositionSlot,
};
use crate::seqs::{first_where, lemma_first_cases};
use vstd::prelude::*;

verus! {

/// Two words of a zone form an entangling pair, in either order.
pub open spec fn words_entangle(arch: ArchModel, zone: int, a: u32, b: u32) -> bool {
    &&& 0 <= zone < arch.zones.len()
    &&& exists|k: int|
        0 <= k < arch.zones[zone].entangling_pairs.len() && (
        #[trigger] arch.zones[zone].entangling_pairs[k] == (a, b)
            || arch.zones[zone].entangling_pairs[k] == (b, a))
}

/// Two locations face each other: one site of two words of one zone that form an
/// entangling pair.
pub open spec fn faces(arch: ArchModel, a: LocationAddr, b: LocationAddr) -> bool {
    &&& a.zone_id == b.zone_id
    &&& a.site_id == b.site_id
    &&& words_entangle(arch, a.zone_id as int, a.word_id, b.word_id)
}

/// In a regular architecture the CZ partner of a location is the one that it
/// faces, and facing each other is mutual.
pub proof fn lemma_cz_partner_faces(arch: ArchModel, loc: LocationAddr, other: LocationAddr)
    requires
        is_regular(arch),
    ensures
        arch.cz_partner(loc) == Some(other) <==> faces(arch, loc, other),
        arch.cz_partner(loc) == Some(other) <==> arch.cz_partner(other) == Some(loc),
{
    lemma_partner_one_way(arch, loc, other);
    lemma_partner_one_way(arch, other, loc);
    if faces(arch, loc, other) {
        assert(words_entangle(arch, other.zone_id as int, other.word_id, loc.word_id)) by {
            let pairs = arch.zones[loc.zone_id as int].entangling_pairs;
            let k = choose|k: int|
                0 <= k < pairs.len() && (#[trigger] pairs[k] == (loc.word_id, other.word_id)
                    || pairs[k] == (other.word_id, loc.word_id));
            assert(arch.zones[other.zone_id as int].entangling_pairs[k] == pairs[k]);
        }
    }
    if faces(arch, other, loc) {
        assert(words_entangle(arch, loc.zone_id as int, loc.word_id, other.word_id)) by {
            let pairs = arch.zones[loc.zone_id as int].entangling_pairs;
            let k = choose|k: int|
                0 <= k < pairs.len() && (#[trigger] pairs[k] == (other.word_id, loc.word_id)
                    || pairs[k] == (loc.word_id, other.word_id));
            assert(arch.zones[loc.zone_id as int].entangling_pairs[k] == pairs[k]);
        }
    }
}

proof fn lemma_partner_one_way(arch: ArchModel, loc: LocationAddr, other: LocationAddr)
    requires
        is_regular(arch),
    ensures
        arch.cz_partner(loc) == Some(other) <==> faces(arch, loc, other),
{
    let zone = loc.zone_id as int;
    if zone < arch.zones.len() {
        let pairs = arch.zones[zone].entangling_pairs;
        lemma_first_cases(pairs, joins(loc.word_id));
        if arch.cz_partner(loc) == Some(other) {
            let k = first_where(pairs, joins(loc.word_id))->0;
            assert(arch.zones[zone].entangling_pairs[k] == (loc.word_id, other.word_id)
                || arch.zones[zone].entangling_pairs[k] == (other.word_id, loc.word_id));
        }
        if faces(arch, loc, other) {
            let k = choose|k: int|
                0 <= k < arch.zones[zone].entangling_pairs.len() && (
                #[trigger] arch.zones[zone].entangling_pairs[k] == (loc.word_id, other.word_id)
                    || arch.zones[zone].entangling_pairs[k] == (other.word_id, loc.word_id));
            assert(joins(loc.word_id)(pairs[k]));
            let l = first_where(pairs, joins(loc.word_id))->0;
            assert(pairs[k].0 != pairs[k].1);
            if l < k {
                let p = arch.zones[zone].entangling_pairs[l];
                let q = arch.zones[zone].entangling_pairs[k];
                assert(p.0 != q.0 && p.0 != q.1 && p.1 != q.0 && p.1 != q.1);
            } else if k < l {
                let p = arch.zones[zone].entangling_pairs[k];
                let q = arch.zones[zone].entangling_pairs[l];
                assert(p.0 != q.0 && p.0 != q.1 && p.1 != q.0 && p.1 != q.1);
            }
            assert(other == LocationAddr { word_id: other.word_id, ..loc });
        }
    }
}

/// The position that a site of two entangling words makes up.
proof fn lemma_site_has_slot(arch: ArchModel, zone: int, k: int, site: u32) -> (j: int)
    requires
        0 <= zone < arch.zones.len(),
        0 <= k < arch.zones[zone].entangling_pairs.len(),
        site < slot_sites(arch),
    ensures
        0 <= j < position_slots(arch).len(),
        position_slots(arch)[j].loc_a == (LocationAddr {
            zone_id: zone as u32,
            word_id: arch.zones[zone].entangling_pairs[k].0,
            site_id: site,
        }).code(),
        position_slots(arch)[j].loc_b == (LocationAddr {
            zone_id: zone as u32,
            word_id: arch.zones[zone].entangling_pairs[k].1,
            site_id: site,
        }).code(),
{
    let w = lemma_zone_pair(arch, arch.zones.len(), zone, k);
    lemma_slot_index(word_pairs(arch), slot_sites(arch), w, site);
    w * slot_sites(arch) + site
}

/// The site of two entangling words that a position is at.
proof fn lemma_slot_has_site(arch: ArchModel, j: int) -> (at: (int, int, u32))
    requires
        0 <= j < position_slots(arch).len(),
    ensures
        0 <= at.0 < arch.zones.len(),
        0 <= at.1 < arch.zones[at.0].entangling_pairs.len(),
        at.2 < slot_sites(arch),
        position_slots(arch)[j].loc_a == (LocationAddr {
            zone_id: at.0 as u32,
            word_id: arch.zones[at.0].entangling_pairs[at.1].0,
            site_id: at.2,
        }).code(),
        position_slots(arch)[j].loc_b == (LocationAddr {
            zone_id: at.0 as u32,
            word_id: arch.zones[at.0].entangling_pairs[at.1].1,
            site_id: at.2,
        }).code(),
{
    let pairs = word_pairs(arch);
    let sites = slot_sites(arch);
    let (w, s) = (j / sites as int, j % sites as int);
    assert(sites > 0) by (nonlinear_arith)
        requires
            j < pairs.len() * sites,
            0 <= j,
    ;
    assert(0 <= w < pairs.len() && 0 <= s < sites) by (nonlinear_arith)
        requires
            0 <= j < pairs.len() * sites,
            sites > 0,
            w == j / sites as int,
            s == j % sites as int,
    ;
    let (z, k) = lemma_word_pair_origin(arch, arch.zones.len(), w);
    assert(position_slots(arch)[j] == slot_of(pairs[w], s as u32));
    (z, k, s as u32)
}

/// Two locations that fit are a placement exactly where they face each other at a
/// site that words have.
pub proof fn lemma_placements_face(arch: ArchModel, a: LocationAddr, b: LocationAddr)
    requires
        is_regular(arch),
        a.fits(),
        b.fits(),
    ensures
        is_placement(position_slots(arch), a.code(), b.code()) <==> faces(arch, a, b) && a.site_id
            < arch.site_count(),
{
    let slots = position_slots(arch);
    if faces(arch, a, b) && a.site_id < arch.site_count() {
        let zone = a.zone_id as int;
        let k = choose|k: int|
            0 <= k < arch.zones[zone].entangling_pairs.len() && (
            #[trigger] arch.zones[zone].entangling_pairs[k] == (a.word_id, b.word_id)
                || arch.zones[zone].entangling_pairs[k] == (b.word_id, a.word_id));
        let j = lemma_site_has_slot(arch, zone, k, a.site_id);
        assert(a == LocationAddr { zone_id: zone as u32, word_id: a.word_id, site_id: a.site_id });
        assert(b == LocationAddr { zone_id: zone as u32, word_id: b.word_id, site_id: a.site_id });
        assert((slots[j].loc_a == a.code() && slots[j].loc_b == b.code()) || (slots[j].loc_a
            == b.code() && slots[j].loc_b == a.code()));
    }
    if is_placement(slots, a.code(), b.code()) {
        let j = choose|j: int|
            0 <= j < slots.len() && (((#[trigger] slots[j]).loc_a == a.code() && slots[j].loc_b
                == b.code()) || (slots[j].loc_a == b.code() && slots[j].loc_b == a.code()));
        let (z, k, s) = lemma_slot_has_site(arch, j);
        let pair = arch.zones[z].entangling_pairs[k];
        assert(pair.0 < 0x1_0000 && pair.1 < 0x1_0000);
        let u = LocationAddr { zone_id: z as u32, word_id: pair.0, site_id: s };
        let v = LocationAddr { zone_id: z as u32, word_id: pair.1, site_id: s };
        if slots[j].loc_a == a.code() && slots[j].loc_b == b.code() {
            u.lemma_code_injective(a);
            v.lemma_code_injective(b);
        } else {
            u.lemma_code_injective(b);
            v.lemma_code_injective(a);
        }
        assert(arch.zones[a.zone_id as int].entangling_pairs[k] == pair);
    }
}

/// [`build_entangling_set`] holds exactly the pairs of locations that face each
/// other at a site that words have.
pub proof fn lemma_entangling_set(
    arch: &ArchSpec,
    set: PlacementSet,
    a: LocationAddr,
    b: LocationAddr,
)
    requires
        is_regular(arch@),
        a.fits(),
        b.fits(),
        call_ensures(build_entangling_set, (arch,), set),
    ensures
        set@.contains((a.code(), b.code())) <==> faces(arch@, a, b) && a.site_id
            < arch@.site_count(),
{
    lemma_placements_face(arch@, a, b);
}

/// The halves of all positions are the locations that face another one at a site that words
/// have.
pub proof fn lemma_half_faces(arch: ArchModel, a: LocationAddr)
    requires
        is_regular(arch),
        a.fits(),
    ensures
        is_half(position_slots(arch), a.code()) <==> a.site_id < arch.site_count() && exists|
            b: LocationAddr,
        | #[trigger]
            faces(arch, a, b),
{
    let slots = position_slots(arch);
    if is_half(slots, a.code()) {
        let j = choose|j: int|
            0 <= j < slots.len() && ((#[trigger] slots[j]).loc_a == a.code() || slots[j].loc_b
                == a.code());
        let (z, k, s) = lemma_slot_has_site(arch, j);
        let pair = arch.zones[z].entangling_pairs[k];
        assert(pair.0 < 0x1_0000 && pair.1 < 0x1_0000);
        let u = LocationAddr { zone_id: z as u32, word_id: pair.0, site_id: s };
        let v = LocationAddr { zone_id: z as u32, word_id: pair.1, site_id: s };
        if slots[j].loc_a == a.code() {
            u.lemma_code_injective(a);
            assert(arch.zones[a.zone_id as int].entangling_pairs[k] == pair);
            assert(faces(arch, a, v));
        } else {
            v.lemma_code_injective(a);
            assert(arch.zones[a.zone_id as int].entangling_pairs[k] == pair);
            assert(faces(arch, a, u));
        }
    }
    if a.site_id < arch.site_count() && exists|b: LocationAddr| #[trigger] faces(arch, a, b) {
        let b = choose|b: LocationAddr| #[trigger] faces(arch, a, b);
        let zone = a.zone_id as int;
        let k = choose|k: int|
            0 <= k < arch.zones[zone].entangling_pairs.len() && (
            #[trigger] arch.zones[zone].entangling_pairs[k] == (a.word_id, b.word_id)
                || arch.zones[zone].entangling_pairs[k] == (b.word_id, a.word_id));
        let j = lemma_site_has_slot(arch, zone, k, a.site_id);
        assert(a == LocationAddr { zone_id: zone as u32, word_id: a.word_id, site_id: a.site_id });
        assert(slots[j].loc_a == a.code() || slots[j].loc_b == a.code());
    }
}

/// [`all_entangling_locations`] lists exactly the locations that face another one
/// at a site that words have, in order of zone, word and site.
pub proof fn lemma_entangling_locations(arch: &ArchSpec, locs: Vec<u64>, a: LocationAddr)
    requires
        is_regular(arch@),
        a.fits(),
        call_ensures(all_entangling_locations, (arch,), locs),
    ensures
        locs@.contains(a.code()) <==> a.site_id < arch@.site_count() && exists|b: LocationAddr|
            #[trigger] faces(arch@, a, b),
        forall|i: int, j: int| 0 <= i < j < locs@.len() ==> #[trigger] locs@[i] < #[trigger] locs@[j],
{
    lemma_half_faces(arch@, a);
}

/// The CZ partner of a location is at the same site of the word that the first entangling
/// pair with its word joins to it; without such a pair there is none.
pub proof fn lemma_get_cz_partner(
    arch: &ArchSpec,
    loc: LocationAddr,
    partner: Option<LocationAddr>,
    k: int,
)
    requires
        call_ensures(ArchSpec::get_cz_partner, (arch, &loc), partner),
    ensures
        loc.zone_id >= arch@.zones.len() ==> partner is None,
        loc.zone_id < arch@.zones.len() ==> {
            let pairs = arch@.zones[loc.zone_id as int].entangling_pairs;
            &&& (forall|i: int|
                0 <= i < pairs.len() ==> (#[trigger] pairs[i]).0 != loc.word_id && pairs[i].1
                    != loc.word_id) ==> partner is None
            &&& 0 <= k < pairs.len() && (pairs[k].0 == loc.word_id || pairs[k].1 == loc.word_id)
                && (forall|i: int|
                0 <= i < k ==> (#[trigger] pairs[i]).0 != loc.word_id && pairs[i].1
                    != loc.word_id) ==> {
                &&& partner is Some
                &&& (partner->0).zone_id == loc.zone_id
                &&& (partner->0).site_id == loc.site_id
                &&& pairs[k].0 == loc.word_id ==> (partner->0).word_id == pairs[k].1
                &&& pairs[k].0 != loc.word_id ==> (partner->0).word_id == pairs[k].0
            }
        },
{
    if loc.zone_id < arch@.zones.len() {
        let pairs = arch@.zones[loc.zone_id as int].entangling_pairs;
        lemma_first_cases(pairs, joins(loc.word_id));
        if let Some(l) = first_where(pairs, joins(loc.word_id)) {
            assert(joins(loc.word_id)(pairs[l]));
            if 0 <= k < l {
                assert(!joins(loc.word_id)(pairs[k]));
            }
        } else if 0 <= k < pairs.len() {
            assert(!joins(loc.word_id)(pairs[k]));
        }
    }
}

proof fn lemma_word_pairs_grow(arch: ArchModel, m: nat, n: nat)
    requires
        m <= n <= arch.zones.len(),
    ensures
        word_pairs_of(arch, m).len() <= word_pairs_of(arch, n).len(),
        m < n ==> word_pairs_of(arch, m).len() + arch.zones[m as int].entangling_pairs.len()
            <= word_pairs_of(arch, n).len(),
    decreases n,
{
    if m < n {
        lemma_word_pairs_grow(arch, m, (n - 1) as nat);
    }
}

/// The word pairs of an architecture are the entangling pairs of its zones: of a zone in
/// their order, and those of a zone before those of a later one.
pub proof fn lemma_word_pairs_in_order(
    arch: &ArchSpec,
    pairs: Vec<EntanglingWordPair>,
    v: int,
    w: int,
) -> (origins: ((int, int), (int, int)))
    requires
        call_ensures(enumerate_word_pairs, (arch,), pairs),
        0 <= v < w < pairs@.len(),
    ensures
        ({
            let ((y, j), (z, k)) = origins;
            let zones = arch@.zones;
            &&& 0 <= y <= z < zones.len()
            &&& y == z ==> j < k
            &&& 0 <= j < zones[y].entangling_pairs.len()
            &&& 0 <= k < zones[z].entangling_pairs.len()
            &&& pairs@[v].zone_id == y as u32
            &&& (pairs@[v].word_a, pairs@[v].word_b) == zones[y].entangling_pairs[j]
            &&& pairs@[w].zone_id == z as u32
            &&& (pairs@[w].word_a, pairs@[w].word_b) == zones[z].entangling_pairs[k]
        }),
{
    let n = arch@.zones.len();
    let (y, j) = lemma_word_pair_origin(arch@, n, v);
    let (z, k) = lemma_word_pair_origin(arch@, n, w);
    if z < y {
        lemma_word_pairs_grow(arch@, z as nat, y as nat);
    }
    ((y, j), (z, k))
}

/// Every entangling pair of every zone is among the word pairs.
pub proof fn lemma_word_pairs_complete(
    arch: &ArchSpec,
    pairs: Vec<EntanglingWordPair>,
    z: int,
    k: int,
)
    requires
        call_ensures(enumerate_word_pairs, (arch,), pairs),
        0 <= z < arch@.zones.len(),
        0 <= k < arch@.zones[z].entangling_pairs.len(),
    ensures
        exists|w: int|
            0 <= w < pairs@.len() && (#[trigger] pairs@[w]).zone_id == z as u32 && (
            pairs@[w].word_a,
            pairs@[w].word_b,
        ) == arch@.zones[z].entangling_pairs[k],
{
    let w = lemma_zone_pair(arch@, arch@.zones.len(), z, k);
    assert(pairs@[w].zone_id == z as u32);
}

/// Positions come word pair by word pair and site by site; the halves of a position are
/// the site in the first and in the second word.
pub proof fn lemma_enumerate_slots(
    pairs: &[EntanglingWordPair],
    sites: u32,
    slots: Vec<PositionSlot>,
    w: int,
    site: u32,
)
    requires
        call_ensures(enumerate_slots, (pairs, sites), slots),
        0 <= w < pairs@.len(),
        site < sites,
    ensures
        slots@.len() == pairs@.len() * sites,
        0 <= w * sites + site < slots@.len(),
        slots@[w * sites + site].loc_a == (LocationAddr {
            zone_id: pairs@[w].zone_id,
            word_id: pairs@[w].word_a,
            site_id: site,
        }).code(),
        slots@[w * sites + site].loc_b == (LocationAddr {
            zone_id: pairs@[w].zone_id,
            word_id: pairs@[w].word_b,
            site_id: site,
        }).code(),
{
    lemma_slot_index(pairs@, sites, w, site);
}

/// Packing an address keeps the low bits of its parts, 8 of the zone and 16 each of word and
/// site, and nothing else.
pub proof fn lemma_encode_keeps_low_bits(a: LocationAddr, b: LocationAddr, x: u64, y: u64)
    requires
        call_ensures(LocationAddr::encode, (&a,), x),
        call_ensures(LocationAddr::encode, (&b,), y),
    ensures
        x == y <==> a.zone_id % 0x100 == b.zone_id % 0x100 && a.word_id % 0x1_0000 == b.word_id
            % 0x1_0000 && a.site_id % 0x1_0000 == b.site_id % 0x1_0000,
        x < 0x100_0000_0000,
{
}

/// Unpacking what was packed gives the low bits of each part back.
pub proof fn lemma_decode_after_encode(a: LocationAddr, x: u64, b: LocationAddr)
    requires
        call_ensures(LocationAddr::encode, (&a,), x),
        call_ensures(LocationAddr::decode, (x,), b),
    ensures
        b.zone_id == a.zone_id % 0x100,
        b.word_id == a.word_id % 0x1_0000,
        b.site_id == a.site_id % 0x1_0000,
{
}

} // verus!
