//! Architecture description: words, zones, and addresses of atom locations.

use crate::seqs::{copied, first_where, lemma_first_found, lemma_first_none};
use vstd::prelude::*;

verus! {

/// Address of one atom location: a site of a word, seen from a zone.
#[derive(Clone, Copy, Debug, PartialEq, Eq, Hash, Structural)]
pub struct LocationAddr {
    pub zone_id: u32,
    pub word_id: u32,
    pub site_id: u32,
}

impl LocationAddr {
    /// The address fits its bit fields: 8 bits of zone, 16 of word, 16 of site.
    pub open spec fn fits(self) -> bool {
        &&& self.zone_id < 0x100
        &&& self.word_id < 0x1_0000
        &&& self.site_id < 0x1_0000
    }

    /// The address packed into one number, zone above word above site. Bits
    /// that do not fit a field are dropped.
    pub open spec fn code(self) -> u64 {
        ((self.zone_id % 0x100) * 0x1_0000_0000 + (self.word_id % 0x1_0000) * 0x1_0000
            + self.site_id % 0x1_0000) as u64
    }

    /// The address that `code` packs.
    pub open spec fn of_code(code: u64) -> LocationAddr {
        LocationAddr {
            zone_id: (code / 0x1_0000_0000 % 0x100) as u32,
            word_id: (code / 0x1_0000 % 0x1_0000) as u32,
            site_id: (code % 0x1_0000) as u32,
        }
    }

    /// Pack the address into one number.
    pub fn encode(&self) -> (code: u64)
        ensures
            code == self.code(),
    {
        (self.zone_id as u64 % 0x100) * 0x1_0000_0000 + (self.word_id as u64 % 0x1_0000) * 0x1_0000
            + self.site_id as u64 % 0x1_0000
    }

    /// Unpack an address.
    pub fn decode(code: u64) -> (loc: LocationAddr)
        ensures
            loc == LocationAddr::of_code(code),
    {
        LocationAddr {
            zone_id: (code / 0x1_0000_0000 % 0x100) as u32,
            word_id: (code / 0x1_0000 % 0x1_0000) as u32,
            site_id: (code % 0x1_0000) as u32,
        }
    }

    /// Unpacking gives back every address that fits.
    pub proof fn lemma_decode_encode(self)
        requires
            self.fits(),
        ensures
            LocationAddr::of_code(self.code()) == self,
    {
    }

    /// Unpacked addresses fit, and packing gives back every number below
    /// 2^40.
    pub proof fn lemma_encode_decode(code: u64)
        ensures
            LocationAddr::of_code(code).fits(),
            code < 0x100_0000_0000 ==> LocationAddr::of_code(code).code() == code,
    {
    }

    /// Addresses that fit are told apart by their packed form.
    pub proof fn lemma_code_injective(self, other: LocationAddr)
        requires
            self.fits(),
            other.fits(),
            self.code() == other.code(),
        ensures
            self == other,
    {
        self.lemma_decode_encode();
        other.lemma_decode_encode();
    }

    /// Packed addresses are ordered by zone, then word, then site.
    pub proof fn lemma_code_order(self, other: LocationAddr)
        requires
            self.fits(),
            other.fits(),
        ensures
            self.code() < other.code() <==> {
                ||| self.zone_id < other.zone_id
                ||| self.zone_id == other.zone_id && self.word_id < other.word_id
                ||| self.zone_id == other.zone_id && self.word_id == other.word_id && self.site_id
                    < other.site_id
            },
    {
    }
}

/// One word: the grid position `(x, y)` of each of its sites.
#[derive(Debug)]
pub struct Word {
    pub sites: Vec<(u32, u32)>,
}

/// A bus moves atoms from each source to the destination at the same position,
/// and back.
#[derive(Debug)]
pub struct Bus {
    pub src: Vec<u32>,
    pub dst: Vec<u32>,
}

/// One zone of the device.
#[derive(Debug)]
pub struct Zone {
    /// Buses between sites of one word.
    pub site_buses: Vec<Bus>,
    /// Buses between words, at one site.
    pub word_buses: Vec<Bus>,
    pub words_with_site_buses: Vec<u32>,
    pub sites_with_word_buses: Vec<u32>,
    /// Pairs of words that can perform CZ gates together.
    pub entangling_pairs: Vec<(u32, u32)>,
}

/// The architecture as far as placement reads it.
#[derive(Debug)]
pub struct ArchSpec {
    pub words: Vec<Word>,
    pub zones: Vec<Zone>,
}

/// Contents of a [`Bus`].
#[verifier::ext_equal]
pub ghost struct BusModel {
    pub src: Seq<u32>,
    pub dst: Seq<u32>,
}

/// Contents of a [`Zone`].
#[verifier::ext_equal]
pub ghost struct ZoneModel {
    pub site_buses: Seq<BusModel>,
    pub word_buses: Seq<BusModel>,
    pub words_with_site_buses: Seq<u32>,
    pub sites_with_word_buses: Seq<u32>,
    pub entangling_pairs: Seq<(u32, u32)>,
}

/// Contents of an [`ArchSpec`].
#[verifier::ext_equal]
pub ghost struct ArchModel {
    pub words: Seq<Seq<(u32, u32)>>,
    pub zones: Seq<ZoneModel>,
}

impl View for Word {
    type V = Seq<(u32, u32)>;

    open spec fn view(&self) -> Seq<(u32, u32)> {
        self.sites@
    }
}

impl View for Bus {
    type V = BusModel;

    open spec fn view(&self) -> BusModel {
        BusModel { src: self.src@, dst: self.dst@ }
    }
}

impl View for Zone {
    type V = ZoneModel;

    open spec fn view(&self) -> ZoneModel {
        ZoneModel {
            site_buses: self.site_buses@.map_values(|bus: Bus| bus@),
            word_buses: self.word_buses@.map_values(|bus: Bus| bus@),
            words_with_site_buses: self.words_with_site_buses@,
            sites_with_word_buses: self.sites_with_word_buses@,
            entangling_pairs: self.entangling_pairs@,
        }
    }
}

impl View for ArchSpec {
    type V = ArchModel;

    open spec fn view(&self) -> ArchModel {
        ArchModel {
            words: self.words@.map_values(|word: Word| word@),
            zones: self.zones@.map_values(|zone: Zone| zone@),
        }
    }
}

impl Clone for Word {
    fn clone(&self) -> (copy: Word)
        ensures
            copy@ == self@,
    {
        Word { sites: copied(self.sites.as_slice()) }
    }
}

impl Clone for Bus {
    fn clone(&self) -> (copy: Bus)
        ensures
            copy@ == self@,
    {
        Bus { src: self.src.clone(), dst: self.dst.clone() }
    }
}

impl Clone for Zone {
    fn clone(&self) -> (copy: Zone)
        ensures
            copy@ == self@,
    {
        let copy = Zone {
            site_buses: self.site_buses.clone(),
            word_buses: self.word_buses.clone(),
            words_with_site_buses: self.words_with_site_buses.clone(),
            sites_with_word_buses: self.sites_with_word_buses.clone(),
            entangling_pairs: copied(self.entangling_pairs.as_slice()),
        };
        assert(copy@ =~= self@);
        copy
    }
}

impl Clone for ArchSpec {
    fn clone(&self) -> (copy: ArchSpec)
        ensures
            copy@ == self@,
    {
        let copy = ArchSpec { words: self.words.clone(), zones: self.zones.clone() };
        assert(copy@ =~= self@);
        copy
    }
}

/// Whether a pair of words has `word` in it.
pub open spec fn joins(word: u32) -> spec_fn((u32, u32)) -> bool {
    |pair: (u32, u32)| pair.0 == word || pair.1 == word
}

/// The word that the first pair with `word` in it joins to `word`.
pub open spec fn joined_word(pairs: Seq<(u32, u32)>, word: u32) -> Option<u32> {
    match first_where(pairs, joins(word)) {
        Some(i) => Some(
            if pairs[i].0 == word {
                pairs[i].1
            } else {
                pairs[i].0
            },
        ),
        None => None,
    }
}

impl ArchModel {
    /// Sites per word; every word has as many as the first.
    pub open spec fn site_count(self) -> nat {
        if self.words.len() == 0 {
            0
        } else {
            self.words[0].len()
        }
    }

    /// The location that performs CZ gates with `loc`: the same site of the
    /// word that an entangling pair of the zone joins to the word of `loc`.
    pub open spec fn cz_partner(self, loc: LocationAddr) -> Option<LocationAddr> {
        if loc.zone_id >= self.zones.len() {
            None
        } else {
            match joined_word(self.zones[loc.zone_id as int].entangling_pairs, loc.word_id) {
                Some(word_id) => Some(LocationAddr { word_id, ..loc }),
                None => None,
            }
        }
    }

    /// Zone and grid position of a location, where the architecture has it.
    pub open spec fn grid(self, loc: LocationAddr) -> Option<(u32, u32, u32)> {
        if loc.word_id < self.words.len() && loc.site_id < self.words[loc.word_id as int].len() {
            let site = self.words[loc.word_id as int][loc.site_id as int];
            Some((loc.zone_id, site.0, site.1))
        } else {
            None
        }
    }
}

impl ArchSpec {
    /// Sites per word.
    pub fn sites_per_word(&self) -> (n: usize)
        ensures
            n == self@.site_count(),
    {
        if self.words.len() == 0 {
            0
        } else {
            self.words[0].sites.len()
        }
    }

    /// The CZ partner of a location, where it has one.
    pub fn get_cz_partner(&self, loc: &LocationAddr) -> (partner: Option<LocationAddr>)
        ensures
            partner == self@.cz_partner(*loc),
    {
        if loc.zone_id as usize >= self.zones.len() {
            return None;
        }
        let pairs = &self.zones[loc.zone_id as usize].entangling_pairs;
        let word = loc.word_id;
        let mut k: usize = 0;
        while k < pairs.len()
            invariant
                k <= pairs.len(),
                loc.zone_id < self.zones.len(),
                pairs@ == self.zones[loc.zone_id as int].entangling_pairs@,
                word == loc.word_id,
                forall|i: int| 0 <= i < k ==> !joins(word)(#[trigger] pairs[i]),
            decreases pairs.len() - k,
        {
            let (a, b) = pairs[k];
            if a == word || b == word {
                proof {
                    lemma_first_found(pairs@, joins(word), k as int);
                }
                let word_id = if a == word {
                    b
                } else {
                    a
                };
                return Some(
                    LocationAddr { zone_id: loc.zone_id, word_id, site_id: loc.site_id },
                );
            }
            k += 1;
        }
        proof {
            lemma_first_none(pairs@, joins(word));
        }
        None
    }
}

} // verus!
