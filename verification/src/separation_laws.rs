//! What it means for CZ pairs to be far enough apart, in grid coordinates.

use crate::arch::{ArchModel, LocationAddr};
use crate::config::{
    distinct_qubits, lemma_entry_of_location, location_in, ordered_by_qubit, place_map, Config,
};
use crate::goals::{
    atoms_apart, atoms_grid_separated, grid_of, on_grid, pairs_apart, pairs_grid_separated,
    separated, Goal, PairSeparationGoal,
};
use crate::lane_index::LaneIndex;
use vstd::prelude::*;

verus! {

/// Two grid positions in one zone are far enough apart exactly where the larger
/// of their distances along `x` and along `y` is at least 2. Positions in
/// different zones always are.
pub proof fn lemma_apart_is_chebyshev(a: (u32, u32, u32), b: (u32, u32, u32), apart: bool)
    requires
        call_ensures(atoms_grid_separated, (a, b), apart),
    ensures
        apart <==> {
            ||| a.0 != b.0
            ||| a.1 - b.1 >= 2
            ||| b.1 - a.1 >= 2
            ||| a.2 - b.2 >= 2
            ||| b.2 - a.2 >= 2
        },
{
}

/// Being apart does not depend on the order of two positions, on which axis is
/// which, or on where the grid starts.
pub proof fn lemma_apart_symmetries(
    a: (u32, u32, u32),
    b: (u32, u32, u32),
    dx: u32,
    dy: u32,
    apart: bool,
    reversed: bool,
    exchanged: bool,
    shifted: bool,
)
    requires
        a.1 + dx <= u32::MAX && b.1 + dx <= u32::MAX,
        a.2 + dy <= u32::MAX && b.2 + dy <= u32::MAX,
        call_ensures(atoms_grid_separated, (a, b), apart),
        call_ensures(atoms_grid_separated, (b, a), reversed),
        call_ensures(atoms_grid_separated, ((a.0, a.2, a.1), (b.0, b.2, b.1)), exchanged),
        call_ensures(
            atoms_grid_separated,
            (
                (a.0, (a.1 + dx) as u32, (a.2 + dy) as u32),
                (b.0, (b.1 + dx) as u32, (b.2 + dy) as u32),
            ),
            shifted,
        ),
    ensures
        apart == reversed,
        apart == exchanged,
        apart == shifted,
{
}

/// The atoms `u` and `v` both sit on sites of the architecture, in different
/// zones or at least two grid steps from each other along one of the axes.
pub open spec fn stand_apart(
    entries: Seq<(u32, LocationAddr)>,
    arch: ArchModel,
    u: u32,
    v: u32,
) -> bool {
    exists|m: int, n: int|
        0 <= m < entries.len() && 0 <= n < entries.len() && (#[trigger] entries[m]).0 == u && (
        #[trigger] entries[n]).0 == v && {
            let (s, t) = (entries[m].1, entries[n].1);
            let a = arch.words[s.word_id as int][s.site_id as int];
            let b = arch.words[t.word_id as int][t.site_id as int];
            &&& s.word_id < arch.words.len() && s.site_id < arch.words[s.word_id as int].len()
            &&& t.word_id < arch.words.len() && t.site_id < arch.words[t.word_id as int].len()
            &&& {
                ||| s.zone_id != t.zone_id
                ||| a.0 - b.0 >= 2
                ||| b.0 - a.0 >= 2
                ||| a.1 - b.1 >= 2
                ||| b.1 - a.1 >= 2
            }
        }
}

/// The qubit is one of the two of a pair.
pub open spec fn in_pair(pair: (u32, u32), q: u32) -> bool {
    q == pair.0 || q == pair.1
}

/// Every atom of every pair stands apart from every atom of every other pair.
pub open spec fn all_stand_apart(
    entries: Seq<(u32, LocationAddr)>,
    pairs: Seq<(u32, u32)>,
    arch: ArchModel,
) -> bool {
    forall|i: int, j: int, u: u32, v: u32|
        0 <= i < pairs.len() && 0 <= j < pairs.len() && i != j && #[trigger] in_pair(pairs[i], u)
            && #[trigger] in_pair(pairs[j], v) ==> stand_apart(entries, arch, u, v)
}

/// The grid position of a placed atom, one by one.
pub proof fn lemma_grid_of_entry(entries: Seq<(u32, LocationAddr)>, arch: ArchModel, m: int)
    requires
        distinct_qubits(entries),
        0 <= m < entries.len(),
    ensures
        grid_of(place_map(entries), entries[m].0, arch) == {
            let s = entries[m].1;
            if s.word_id < arch.words.len() && s.site_id < arch.words[s.word_id as int].len() {
                let a = arch.words[s.word_id as int][s.site_id as int];
                Some((s.zone_id, a.0, a.1))
            } else {
                None
            }
        },
{
    let q = entries[m].0;
    lemma_entry_of_location(entries, q);
    assert(location_in(entries, q) is Some);
    let n = choose|n: int| 0 <= n < entries.len() && entries[n] == (q, location_in(entries, q)->0);
    if m < n {
        assert(entries[m].0 != entries[n].0);
    } else if n < m {
        assert(entries[n].0 != entries[m].0);
    }
    assert(place_map(entries).contains_key(q));
}

/// The entry of an atom with a grid position.
proof fn lemma_entry_of_grid(entries: Seq<(u32, LocationAddr)>, arch: ArchModel, q: u32) -> (m: int)
    requires
        distinct_qubits(entries),
        grid_of(place_map(entries), q, arch) is Some,
    ensures
        0 <= m < entries.len(),
        entries[m].0 == q,
{
    lemma_entry_of_location(entries, q);
    let loc = location_in(entries, q)->0;
    let m = choose|m: int| 0 <= m < entries.len() && entries[m] == (q, loc);
    m
}

/// Two atoms with grid positions are apart exactly where they stand apart.
pub proof fn lemma_atoms_stand_apart(
    entries: Seq<(u32, LocationAddr)>,
    arch: ArchModel,
    u: u32,
    v: u32,
)
    requires
        distinct_qubits(entries),
    ensures
        stand_apart(entries, arch, u, v) <==> {
            &&& grid_of(place_map(entries), u, arch) is Some
            &&& grid_of(place_map(entries), v, arch) is Some
            &&& atoms_apart(
                grid_of(place_map(entries), u, arch)->0,
                grid_of(place_map(entries), v, arch)->0,
            )
        },
{
    let places = place_map(entries);
    if stand_apart(entries, arch, u, v) {
        let (m, n) = choose|m: int, n: int|
            0 <= m < entries.len() && 0 <= n < entries.len() && (#[trigger] entries[m]).0 == u && (
            #[trigger] entries[n]).0 == v && {
                let (s, t) = (entries[m].1, entries[n].1);
                let a = arch.words[s.word_id as int][s.site_id as int];
                let b = arch.words[t.word_id as int][t.site_id as int];
                &&& s.word_id < arch.words.len() && s.site_id < arch.words[s.word_id as int].len()
                &&& t.word_id < arch.words.len() && t.site_id < arch.words[t.word_id as int].len()
                &&& {
                    ||| s.zone_id != t.zone_id
                    ||| a.0 - b.0 >= 2
                    ||| b.0 - a.0 >= 2
                    ||| a.1 - b.1 >= 2
                    ||| b.1 - a.1 >= 2
                }
            };
        lemma_grid_of_entry(entries, arch, m);
        lemma_grid_of_entry(entries, arch, n);
    }
    if grid_of(places, u, arch) is Some && grid_of(places, v, arch) is Some {
        let m = lemma_entry_of_grid(entries, arch, u);
        let n = lemma_entry_of_grid(entries, arch, v);
        lemma_grid_of_entry(entries, arch, m);
        lemma_grid_of_entry(entries, arch, n);
        if atoms_apart(grid_of(places, u, arch)->0, grid_of(places, v, arch)->0) {
            assert(entries[m].0 == u && entries[n].0 == v);
        }
    }
}

/// Pairs are separated exactly where there are fewer than two, or every atom of
/// each stands apart from every atom of each other.
pub proof fn lemma_separated_is_standing_apart(
    entries: Seq<(u32, LocationAddr)>,
    pairs: Seq<(u32, u32)>,
    arch: ArchModel,
)
    requires
        distinct_qubits(entries),
    ensures
        separated(place_map(entries), pairs, arch) <==> pairs.len() < 2 || all_stand_apart(
            entries,
            pairs,
            arch,
        ),
{
    let places = place_map(entries);
    if pairs.len() >= 2 && separated(places, pairs, arch) {
        assert forall|i: int, j: int, u: u32, v: u32|
            0 <= i < pairs.len() && 0 <= j < pairs.len() && i != j && #[trigger] in_pair(
                pairs[i],
                u,
            ) && #[trigger] in_pair(pairs[j], v) implies stand_apart(entries, arch, u, v) by {
            assert(on_grid(places, pairs[i], arch) && on_grid(places, pairs[j], arch));
            if i < j {
                assert(pairs_apart(places, pairs[i], pairs[j], arch));
            } else {
                assert(pairs_apart(places, pairs[j], pairs[i], arch));
            }
            lemma_atoms_stand_apart(entries, arch, u, v);
        }
    }
    if pairs.len() >= 2 && all_stand_apart(entries, pairs, arch) {
        assert forall|i: int, j: int, u: u32, v: u32|
            0 <= i < pairs.len() && 0 <= j < pairs.len() && i != j && #[trigger] in_pair(
                pairs[i],
                u,
            ) && #[trigger] in_pair(pairs[j], v) implies grid_of(places, u, arch) is Some
            && grid_of(places, v, arch) is Some && atoms_apart(
            grid_of(places, u, arch)->0,
            grid_of(places, v, arch)->0,
        ) by {
            assert(stand_apart(entries, arch, u, v));
            lemma_atoms_stand_apart(entries, arch, u, v);
        }
        assert forall|i: int| 0 <= i < pairs.len() implies on_grid(
            places,
            #[trigger] pairs[i],
            arch,
        ) by {
            let j: int = if i == 0 {
                1
            } else {
                0
            };
            assert(in_pair(pairs[i], pairs[i].0) && in_pair(pairs[j], pairs[j].0));
            assert(in_pair(pairs[i], pairs[i].1));
        }
        assert forall|i: int, j: int| 0 <= i < j < pairs.len() implies pairs_apart(
            places,
            #[trigger] pairs[i],
            #[trigger] pairs[j],
            arch,
        ) by {
            assert(in_pair(pairs[i], pairs[i].0) && in_pair(pairs[j], pairs[j].0));
            assert(in_pair(pairs[i], pairs[i].1) && in_pair(pairs[j], pairs[j].1));
        }
    }
}

/// [`pairs_grid_separated`] answers whether there are fewer than two pairs, or
/// every atom of each pair stands at least two grid steps from every atom of each
/// other one.
pub proof fn lemma_pairs_grid_separated(
    config: &Config,
    pairs: &[(u32, u32)],
    index: &LaneIndex,
    answer: bool,
)
    requires
        ordered_by_qubit(config@),
        call_ensures(pairs_grid_separated, (config, pairs, index), answer),
    ensures
        answer <==> pairs@.len() < 2 || all_stand_apart(config@, pairs@, index.arch()),
{
    lemma_separated_is_standing_apart(config@, pairs@, index.arch());
}

/// Whether pairs are separated does not depend on their order, nor on the order
/// of the two qubits of each, and fewer pairs are separated wherever more are.
pub proof fn lemma_separated_subset(
    config: &Config,
    index: &LaneIndex,
    all: &[(u32, u32)],
    some: &[(u32, u32)],
    place: Seq<int>,
    all_answer: bool,
    some_answer: bool,
)
    requires
        ordered_by_qubit(config@),
        call_ensures(pairs_grid_separated, (config, all, index), all_answer),
        call_ensures(pairs_grid_separated, (config, some, index), some_answer),
        place.len() == some@.len(),
        forall|i: int|
            0 <= i < some@.len() ==> 0 <= #[trigger] place[i] < all@.len() && (some@[i]
                == all@[place[i]] || some@[i] == (all@[place[i]].1, all@[place[i]].0)),
        forall|i: int, j: int|
            0 <= i < j < some@.len() ==> #[trigger] place[i] != #[trigger] place[j],
        all_answer,
    ensures
        some_answer,
{
    lemma_pairs_grid_separated(config, all, index, all_answer);
    lemma_pairs_grid_separated(config, some, index, some_answer);
    if some@.len() >= 2 {
        assert(place[0] != place[1]);
        let (entries, arch) = (config@, index.arch());
        assert forall|i: int, j: int, u: u32, v: u32|
            0 <= i < some@.len() && 0 <= j < some@.len() && i != j && #[trigger] in_pair(
                some@[i],
                u,
            ) && #[trigger] in_pair(some@[j], v) implies stand_apart(entries, arch, u, v) by {
            if i < j {
                assert(place[i] != place[j]);
            } else {
                assert(place[j] != place[i]);
            }
            assert(in_pair(all@[place[i]], u) && in_pair(all@[place[j]], v));
        }
    }
}

/// A separation goal is met exactly where the inner goal is and the pairs stand
/// apart.
pub proof fn lemma_separation_goal<G: Goal>(goal: PairSeparationGoal<G>, config: Config)
    requires
        ordered_by_qubit(config@),
    ensures
        goal.holds(config) <==> goal.inner().holds(config) && (goal.pairs().len() < 2
            || all_stand_apart(config@, goal.pairs(), goal.arch())),
{
    lemma_separated_is_standing_apart(config@, goal.pairs(), goal.arch());
}

} // verus!
