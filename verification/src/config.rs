//! Where every qubit sits: a placement of qubits on locations.

use crate::arch::LocationAddr;
use crate::seqs::{
    copied, first_where, is_first, lemma_first_cases, lemma_first_found, lemma_first_none,
};
use vstd::prelude::*;

verus! {

/// Why a list of placements is no configuration.
#[derive(Clone, Copy, Debug, PartialEq, Eq, Structural)]
pub enum ConfigError {
    /// A qubit is placed twice.
    DuplicateQubit { qubit_id: u32 },
}

/// Qubits and their locations, ordered by qubit. Every qubit occurs once.
#[derive(Debug)]
pub struct Config {
    entries: Vec<(u32, LocationAddr)>,
}

/// Whether an entry places `qubit_id`.
pub open spec fn places(qubit_id: u32) -> spec_fn((u32, LocationAddr)) -> bool {
    |entry: (u32, LocationAddr)| entry.0 == qubit_id
}

/// Whether an entry sits at `loc`.
pub open spec fn sits_at(loc: LocationAddr) -> spec_fn((u32, LocationAddr)) -> bool {
    |entry: (u32, LocationAddr)| entry.1 == loc
}

/// Ordered by qubit, without repetition.
pub open spec fn ordered_by_qubit(entries: Seq<(u32, LocationAddr)>) -> bool {
    forall|i: int, j: int|
        0 <= i < j < entries.len() ==> (#[trigger] entries[i]).0 < (#[trigger] entries[j]).0
}

/// No qubit occurs twice.
pub open spec fn distinct_qubits(entries: Seq<(u32, LocationAddr)>) -> bool {
    forall|i: int, j: int|
        0 <= i < j < entries.len() ==> (#[trigger] entries[i]).0 != (#[trigger] entries[j]).0
}

/// The entry at `i` is the first whose qubit an earlier entry has.
pub open spec fn first_repeat(entries: Seq<(u32, LocationAddr)>, i: int) -> bool {
    &&& 0 <= i < entries.len()
    &&& distinct_qubits(entries.take(i))
    &&& exists|k: int| 0 <= k < i && (#[trigger] entries[k]).0 == entries[i].0
}

/// `entries` with `qubit_id`, where it occurs, at `loc`.
pub open spec fn relocated(
    entries: Seq<(u32, LocationAddr)>,
    qubit_id: u32,
    loc: LocationAddr,
) -> Seq<(u32, LocationAddr)> {
    Seq::new(
        entries.len(),
        |i: int|
            if entries[i].0 == qubit_id {
                (qubit_id, loc)
            } else {
                entries[i]
            },
    )
}

/// `entries` after the moves, in order.
pub open spec fn after_moves(
    entries: Seq<(u32, LocationAddr)>,
    moves: Seq<(u32, LocationAddr)>,
) -> Seq<(u32, LocationAddr)>
    decreases moves.len(),
{
    if moves.len() == 0 {
        entries
    } else {
        relocated(after_moves(entries, moves.drop_last()), moves.last().0, moves.last().1)
    }
}

/// Where `qubit_id` sits.
pub open spec fn location_in(entries: Seq<(u32, LocationAddr)>, qubit_id: u32) -> Option<
    LocationAddr,
> {
    match first_where(entries, places(qubit_id)) {
        Some(i) => Some(entries[i].1),
        None => None,
    }
}

/// The lowest qubit that sits at `loc`.
pub open spec fn occupant_in(entries: Seq<(u32, LocationAddr)>, loc: LocationAddr) -> Option<u32> {
    match first_where(entries, sits_at(loc)) {
        Some(i) => Some(entries[i].0),
        None => None,
    }
}

/// Where every placed qubit sits.
pub open spec fn place_map(entries: Seq<(u32, LocationAddr)>) -> Map<u32, LocationAddr> {
    Map::new(
        |qubit_id: u32| location_in(entries, qubit_id) is Some,
        |qubit_id: u32| location_in(entries, qubit_id)->0,
    )
}

impl View for Config {
    type V = Seq<(u32, LocationAddr)>;

    closed spec fn view(&self) -> Seq<(u32, LocationAddr)> {
        self.entries@
    }
}

impl Clone for Config {
    fn clone(&self) -> (copy: Config)
        ensures
            copy@ == self@,
    {
        proof {
            use_type_invariant(self);
        }
        Config { entries: copied(self.entries.as_slice()) }
    }
}

impl Config {
    #[verifier::type_invariant]
    spec fn ordered(self) -> bool {
        ordered_by_qubit(self.entries@)
    }

    /// Where `qubit_id` sits.
    pub open spec fn at(self, qubit_id: u32) -> Option<LocationAddr> {
        location_in(self@, qubit_id)
    }

    /// The lowest qubit that sits at `loc`.
    pub open spec fn occupant(self, loc: LocationAddr) -> Option<u32> {
        occupant_in(self@, loc)
    }

    /// Collect placements, given in any order.
    pub fn new(placements: &[(u32, LocationAddr)]) -> (result: Result<Config, ConfigError>)
        ensures
            match result {
                Ok(config) => {
                    &&& distinct_qubits(placements@)
                    &&& ordered_by_qubit(config@)
                    &&& config@.len() == placements@.len()
                    &&& forall|entry: (u32, LocationAddr)| #[trigger]
                        config@.contains(entry) <==> placements@.contains(entry)
                },
                Err(ConfigError::DuplicateQubit { qubit_id }) => exists|i: int|
                    first_repeat(placements@, i) && placements@[i].0 == qubit_id,
            },
    {
        let mut entries: Vec<(u32, LocationAddr)> = Vec::new();
        let mut n: usize = 0;
        while n < placements.len()
            invariant
                n <= placements@.len(),
                entries@.len() == n,
                ordered_by_qubit(entries@),
                distinct_qubits(placements@.take(n as int)),
                forall|entry: (u32, LocationAddr)| #[trigger]
                    entries@.contains(entry) <==> placements@.take(n as int).contains(entry),
            decreases placements.len() - n,
        {
            let (qubit_id, loc) = placements[n];
            let mut k: usize = 0;
            while k < entries.len() && entries[k].0 < qubit_id
                invariant
                    k <= entries.len(),
                    forall|i: int| 0 <= i < k ==> (#[trigger] entries[i]).0 < qubit_id,
                decreases entries.len() - k,
            {
                k += 1;
            }
            let ghost before = placements@.take(n as int);
            let ghost after = placements@.take(n + 1);
            let ghost sorted = entries@;
            if k < entries.len() && entries[k].0 == qubit_id {
                proof {
                    assert(sorted.contains(sorted[k as int]));
                    assert(before.contains(sorted[k as int]));
                    let i = choose|i: int| 0 <= i < before.len() && before[i] == sorted[k as int];
                    assert(placements@[i].0 == placements@[n as int].0);
                    assert(first_repeat(placements@, n as int));
                }
                return Err(ConfigError::DuplicateQubit { qubit_id });
            }
            entries.insert(k, (qubit_id, loc));
            proof {
                let grown = entries@;
                assert(after =~= before.push((qubit_id, loc)));
                assert forall|i: int, j: int| 0 <= i < j < grown.len() implies (
                #[trigger] grown[i]).0 < (#[trigger] grown[j]).0 by {
                    if i < k && j < k {
                        assert(sorted[i].0 < sorted[j].0);
                    } else if i > k {
                        assert(sorted[i - 1].0 < sorted[j - 1].0);
                    } else if i == k {
                        assert(sorted[k as int].0 <= sorted[j - 1].0);
                    }
                }
                assert forall|i: int, j: int| 0 <= i < j < after.len() implies (
                #[trigger] after[i]).0 != (#[trigger] after[j]).0 by {
                    if j == n {
                        assert(before.contains(before[i]));
                        assert(sorted.contains(before[i]));
                        let s = choose|s: int| 0 <= s < sorted.len() && sorted[s] == before[i];
                        if s >= k {
                            assert(sorted[k as int].0 <= sorted[s].0);
                        }
                    } else {
                        assert(before[i].0 != before[j].0);
                    }
                }
                assert forall|entry: (u32, LocationAddr)| #[trigger]
                    grown.contains(entry) <==> after.contains(entry) by {
                    if grown.contains(entry) {
                        let i = choose|i: int| 0 <= i < grown.len() && grown[i] == entry;
                        if i < k {
                            assert(sorted[i] == entry);
                            assert(sorted.contains(entry));
                            assert(before.contains(entry));
                            let p = choose|p: int| 0 <= p < before.len() && before[p] == entry;
                            assert(after[p] == entry);
                        } else if i > k {
                            assert(sorted[i - 1] == entry);
                            assert(sorted.contains(entry));
                            assert(before.contains(entry));
                            let p = choose|p: int| 0 <= p < before.len() && before[p] == entry;
                            assert(after[p] == entry);
                        } else {
                            assert(after[n as int] == entry);
                        }
                    }
                    if after.contains(entry) {
                        let p = choose|p: int| 0 <= p < after.len() && after[p] == entry;
                        if p == n {
                            assert(grown[k as int] == entry);
                        } else {
                            assert(before[p] == entry);
                            assert(sorted.contains(entry));
                            let i = choose|i: int| 0 <= i < sorted.len() && sorted[i] == entry;
                            if i < k {
                                assert(grown[i] == entry);
                            } else {
                                assert(grown[i + 1] == entry);
                            }
                        }
                    }
                }
            }
            n += 1;
        }
        assert(placements@.take(n as int) =~= placements@);
        Ok(Config { entries })
    }

    /// Number of placed qubits.
    pub fn len(&self) -> (n: usize)
        ensures
            n == self@.len(),
    {
        self.entries.len()
    }

    /// Whether no qubit is placed.
    pub fn is_empty(&self) -> (b: bool)
        ensures
            b == (self@.len() == 0),
    {
        self.entries.len() == 0
    }

    /// All placements, ordered by qubit.
    pub fn entries(&self) -> (entries: &[(u32, LocationAddr)])
        ensures
            entries@ == self@,
            ordered_by_qubit(self@),
    {
        proof {
            use_type_invariant(self);
        }
        self.entries.as_slice()
    }

    /// Where a qubit sits.
    pub fn location_of(&self, qubit_id: u32) -> (loc: Option<LocationAddr>)
        ensures
            loc == self.at(qubit_id),
    {
        let mut i: usize = 0;
        while i < self.entries.len()
            invariant
                i <= self.entries.len(),
                forall|k: int| 0 <= k < i ==> !places(qubit_id)(#[trigger] self.entries[k]),
            decreases self.entries.len() - i,
        {
            let (q, loc) = self.entries[i];
            if q == qubit_id {
                proof {
                    lemma_first_found(self@, places(qubit_id), i as int);
                }
                return Some(loc);
            }
            i += 1;
        }
        proof {
            lemma_first_none(self@, places(qubit_id));
        }
        None
    }

    /// The lowest qubit at a location.
    pub fn qubit_at(&self, loc: LocationAddr) -> (qubit_id: Option<u32>)
        ensures
            qubit_id == self.occupant(loc),
    {
        let mut i: usize = 0;
        while i < self.entries.len()
            invariant
                i <= self.entries.len(),
                forall|k: int| 0 <= k < i ==> !sits_at(loc)(#[trigger] self.entries[k]),
            decreases self.entries.len() - i,
        {
            let (q, l) = self.entries[i];
            if l == loc {
                proof {
                    lemma_first_found(self@, sits_at(loc), i as int);
                }
                return Some(q);
            }
            i += 1;
        }
        proof {
            lemma_first_none(self@, sits_at(loc));
        }
        None
    }

    /// The configuration after some qubits have moved. Qubits that are not
    /// placed are ignored, and a later move of a qubit wins.
    pub fn with_moves(&self, moves: &[(u32, LocationAddr)]) -> (moved: Config)
        ensures
            moved@ == after_moves(self@, moves@),
    {
        let mut moved = self.clone();
        let mut n: usize = 0;
        assert(moves@.take(0) =~= seq![]);
        while n < moves.len()
            invariant
                n <= moves@.len(),
                moved@ == after_moves(self@, moves@.take(n as int)),
            decreases moves.len() - n,
        {
            moved = moved.with_move(moves[n].0, moves[n].1);
            n += 1;
            assert(moves@.take(n as int).drop_last() =~= moves@.take(n - 1));
        }
        assert(moves@.take(n as int) =~= moves@);
        moved
    }

    fn with_move(&self, qubit_id: u32, loc: LocationAddr) -> (moved: Config)
        ensures
            moved@ == relocated(self@, qubit_id, loc),
    {
        proof {
            use_type_invariant(self);
        }
        let mut entries: Vec<(u32, LocationAddr)> = Vec::new();
        let mut i: usize = 0;
        while i < self.entries.len()
            invariant
                i <= self.entries.len(),
                entries@ == relocated(self@, qubit_id, loc).take(i as int),
            decreases self.entries.len() - i,
        {
            let entry = self.entries[i];
            if entry.0 == qubit_id {
                entries.push((qubit_id, loc));
            } else {
                entries.push(entry);
            }
            i += 1;
            assert(relocated(self@, qubit_id, loc).take(i as int) =~= relocated(
                self@,
                qubit_id,
                loc,
            ).take(i - 1).push(relocated(self@, qubit_id, loc)[i - 1]));
        }
        assert(entries@ =~= relocated(self@, qubit_id, loc));
        Config { entries }
    }
}

/// A placed qubit is found where its entry says.
pub proof fn lemma_location_of_entry(entries: Seq<(u32, LocationAddr)>, i: int)
    requires
        0 <= i < entries.len(),
        ordered_by_qubit(entries),
    ensures
        location_in(entries, entries[i].0) == Some(entries[i].1),
{
    assert(is_first(entries, places(entries[i].0), i));
    lemma_first_found(entries, places(entries[i].0), i);
}

/// A qubit that is found somewhere has an entry there.
pub proof fn lemma_entry_of_location(entries: Seq<(u32, LocationAddr)>, qubit_id: u32)
    ensures
        match location_in(entries, qubit_id) {
            Some(loc) => entries.contains((qubit_id, loc)),
            None => forall|i: int| 0 <= i < entries.len() ==> (#[trigger] entries[i]).0 != qubit_id,
        },
{
    lemma_first_cases(entries, places(qubit_id));
    if let Some(i) = first_where(entries, places(qubit_id)) {
        assert(entries[i] == (qubit_id, entries[i].1));
    } else {
        assert forall|i: int| 0 <= i < entries.len() implies (#[trigger] entries[i]).0
            != qubit_id by {
            assert(!places(qubit_id)(entries[i]));
        }
    }
}

/// The occupant of a location has an entry there, and a location with an entry
/// has an occupant.
pub proof fn lemma_occupant_entry(entries: Seq<(u32, LocationAddr)>, loc: LocationAddr)
    ensures
        match occupant_in(entries, loc) {
            Some(qubit_id) => entries.contains((qubit_id, loc)),
            None => forall|i: int| 0 <= i < entries.len() ==> (#[trigger] entries[i]).1 != loc,
        },
{
    lemma_first_cases(entries, sits_at(loc));
    if let Some(i) = first_where(entries, sits_at(loc)) {
        assert(entries[i] == (entries[i].0, loc));
    } else {
        assert forall|i: int| 0 <= i < entries.len() implies (#[trigger] entries[i]).1 != loc by {
            assert(!sits_at(loc)(entries[i]));
        }
    }
}

/// Lists of the same entries, each qubit once, place the qubits alike.
pub proof fn lemma_same_places(a: Seq<(u32, LocationAddr)>, b: Seq<(u32, LocationAddr)>)
    requires
        distinct_qubits(a),
        distinct_qubits(b),
        forall|entry: (u32, LocationAddr)| #[trigger] a.contains(entry) <==> b.contains(entry),
    ensures
        place_map(a) == place_map(b),
{
    assert forall|qubit_id: u32| location_in(a, qubit_id) == location_in(b, qubit_id) by {
        lemma_entry_of_location(a, qubit_id);
        lemma_entry_of_location(b, qubit_id);
        if let Some(loc) = location_in(a, qubit_id) {
            assert(b.contains((qubit_id, loc)));
            let i = choose|i: int| 0 <= i < b.len() && b[i] == (qubit_id, loc);
            let found = location_in(b, qubit_id)->0;
            let j = choose|j: int| 0 <= j < b.len() && b[j] == (qubit_id, found);
            assert(i == j);
        } else if let Some(loc) = location_in(b, qubit_id) {
            assert(a.contains((qubit_id, loc)));
            let i = choose|i: int| 0 <= i < a.len() && a[i] == (qubit_id, loc);
            assert(a[i].0 == qubit_id);
        }
    }
    assert(place_map(a) =~= place_map(b));
}

/// Moves keep every qubit placed once, and place no new one.
pub proof fn lemma_moves_keep_qubits(
    entries: Seq<(u32, LocationAddr)>,
    moves: Seq<(u32, LocationAddr)>,
)
    ensures
        after_moves(entries, moves).len() == entries.len(),
        forall|i: int|
            0 <= i < entries.len() ==> (#[trigger] after_moves(entries, moves)[i]).0
                == entries[i].0,
        ordered_by_qubit(entries) ==> ordered_by_qubit(after_moves(entries, moves)),
    decreases moves.len(),
{
    if moves.len() > 0 {
        lemma_moves_keep_qubits(entries, moves.drop_last());
    }
}

} // verus!
