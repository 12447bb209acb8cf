//! Goals that a configuration can reach.

use crate::arch::{ArchModel, LocationAddr};
use crate::config::{occupant_in, place_map, Config};
use crate::entangling::{build_partner_map, is_partner_map, PlacementSet};
use crate::lane_index::LaneIndex;
use crate::seqs::copied;
use std::collections::{HashMap, HashSet};
use vstd::prelude::*;

verus! {

broadcast use vstd::std_specs::hash::group_hash_axioms;

/// Least Chebyshev grid distance between atoms of distinct CZ pairs in one zone
/// when the stage fires.
pub const PAIR_SEPARATION_MIN_GRID_DISTANCE: u32 = 2;

/// A condition on configurations.
pub trait Goal {
    /// The configuration satisfies the goal.
    spec fn holds(&self, config: Config) -> bool;

    /// Whether a configuration satisfies the goal.
    fn is_goal(&self, config: &Config) -> (b: bool)
        ensures
            b == self.holds(*config),
    ;
}

/// Zone and grid position of a location, where the architecture has it.
pub fn location_grid_index(loc: &LocationAddr, index: &LaneIndex) -> (grid: Option<(u32, u32, u32)>)
    ensures
        grid == index.arch().grid(*loc),
{
    let arch = index.arch_spec();
    if loc.word_id as usize >= arch.words.len() {
        return None;
    }
    let word = &arch.words[loc.word_id as usize];
    assert(arch@.words[loc.word_id as int] == word@);
    if loc.site_id as usize >= word.sites.len() {
        return None;
    }
    let (x, y) = word.sites[loc.site_id as usize];
    Some((loc.zone_id, x, y))
}

/// Zone and grid position of a qubit, where it is placed.
pub open spec fn grid_of(
    places: Map<u32, LocationAddr>,
    qubit_id: u32,
    arch: ArchModel,
) -> Option<(u32, u32, u32)> {
    if places.contains_key(qubit_id) {
        arch.grid(places[qubit_id])
    } else {
        None
    }
}

/// How far apart two coordinates are.
pub open spec fn gap(a: u32, b: u32) -> int {
    if a <= b {
        b - a
    } else {
        a - b
    }
}

/// Two grid positions are in different zones or far enough apart.
pub open spec fn atoms_apart(a: (u32, u32, u32), b: (u32, u32, u32)) -> bool {
    ||| a.0 != b.0
    ||| gap(a.1, b.1) >= PAIR_SEPARATION_MIN_GRID_DISTANCE
    ||| gap(a.2, b.2) >= PAIR_SEPARATION_MIN_GRID_DISTANCE
}

/// Every atom of one pair is apart from every atom of the other.
pub open spec fn pairs_apart(
    places: Map<u32, LocationAddr>,
    p: (u32, u32),
    q: (u32, u32),
    arch: ArchModel,
) -> bool {
    let p0 = grid_of(places, p.0, arch)->0;
    let p1 = grid_of(places, p.1, arch)->0;
    let q0 = grid_of(places, q.0, arch)->0;
    let q1 = grid_of(places, q.1, arch)->0;
    &&& atoms_apart(p0, q0)
    &&& atoms_apart(p0, q1)
    &&& atoms_apart(p1, q0)
    &&& atoms_apart(p1, q1)
}

/// Both atoms of a pair have a grid position.
pub open spec fn on_grid(
    places: Map<u32, LocationAddr>,
    p: (u32, u32),
    arch: ArchModel,
) -> bool {
    grid_of(places, p.0, arch) is Some && grid_of(places, p.1, arch) is Some
}

/// All pairs are on the grid and apart from each other. Fewer than two pairs
/// always are.
pub open spec fn separated(
    places: Map<u32, LocationAddr>,
    pairs: Seq<(u32, u32)>,
    arch: ArchModel,
) -> bool {
    pairs.len() >= 2 ==> {
        &&& forall|i: int| 0 <= i < pairs.len() ==> on_grid(places, #[trigger] pairs[i], arch)
        &&& forall|i: int, j: int|
            0 <= i < j < pairs.len() ==> pairs_apart(
                places,
                #[trigger] pairs[i],
                #[trigger] pairs[j],
                arch,
            )
    }
}

/// Zone and grid position of a qubit, where it is placed.
pub fn qubit_grid_index(config: &Config, qubit_id: u32, index: &LaneIndex) -> (grid: Option<
    (u32, u32, u32),
>)
    ensures
        grid == grid_of(place_map(config@), qubit_id, index.arch()),
{
    match config.location_of(qubit_id) {
        Some(loc) => location_grid_index(&loc, index),
        None => None,
    }
}

fn distance_reached(a: u32, b: u32) -> (far: bool)
    ensures
        far == (gap(a, b) >= PAIR_SEPARATION_MIN_GRID_DISTANCE),
{
    if a <= b {
        b - a >= PAIR_SEPARATION_MIN_GRID_DISTANCE
    } else {
        a - b >= PAIR_SEPARATION_MIN_GRID_DISTANCE
    }
}

/// Whether two grid positions are far enough apart. Positions in different
/// zones are.
pub fn atoms_grid_separated(a: (u32, u32, u32), b: (u32, u32, u32)) -> (apart: bool)
    ensures
        apart == atoms_apart(a, b),
{
    if a.0 != b.0 {
        return true;
    }
    distance_reached(a.1, b.1) || distance_reached(a.2, b.2)
}

/// Whether every atom of each pair is at least
/// [`PAIR_SEPARATION_MIN_GRID_DISTANCE`] Chebyshev grid steps from every atom of
/// every other pair. Atoms in different zones are separated; with two pairs or
/// more, an atom without a grid position is not.
pub fn pairs_grid_separated(config: &Config, pairs: &[(u32, u32)], index: &LaneIndex) -> (b: bool)
    ensures
        b == separated(place_map(config@), pairs@, index.arch()),
{
    if pairs.len() < 2 {
        return true;
    }
    let ghost places = place_map(config@);
    let ghost arch = index.arch();
    let mut grids: Vec<((u32, u32, u32), (u32, u32, u32))> = Vec::new();
    let mut k: usize = 0;
    while k < pairs.len()
        invariant
            k <= pairs@.len(),
            pairs@.len() >= 2,
            grids@.len() == k,
            places == place_map(config@),
            arch == index.arch(),
            forall|i: int|
                0 <= i < k ==> {
                    &&& grid_of(places, (#[trigger] pairs@[i]).0, arch) == Some(grids@[i].0)
                    &&& grid_of(places, pairs@[i].1, arch) == Some(grids@[i].1)
                },
        decreases pairs.len() - k,
    {
        let (qa, qb) = pairs[k];
        let a = qubit_grid_index(config, qa, index);
        let b = qubit_grid_index(config, qb, index);
        match (a, b) {
            (Some(a), Some(b)) => {
                grids.push((a, b));
            },
            _ => {
                assert(!on_grid(places, pairs@[k as int], arch));
                return false;
            },
        }
        k += 1;
    }
    let mut i: usize = 0;
    while i < grids.len()
        invariant
            i <= grids@.len(),
            grids@.len() == pairs@.len(),
            pairs@.len() >= 2,
            places == place_map(config@),
            arch == index.arch(),
            forall|m: int|
                0 <= m < pairs@.len() ==> {
                    &&& grid_of(places, (#[trigger] pairs@[m]).0, arch) == Some(grids@[m].0)
                    &&& grid_of(places, pairs@[m].1, arch) == Some(grids@[m].1)
                },
            forall|m: int, n: int|
                0 <= m < n < pairs@.len() && m < i ==> pairs_apart(
                    places,
                    #[trigger] pairs@[m],
                    #[trigger] pairs@[n],
                    arch,
                ),
        decreases grids.len() - i,
    {
        let mut j: usize = i + 1;
        while j < grids.len()
            invariant
                i < j <= grids@.len(),
                grids@.len() == pairs@.len(),
                pairs@.len() >= 2,
                places == place_map(config@),
                arch == index.arch(),
                forall|m: int|
                    0 <= m < pairs@.len() ==> {
                        &&& grid_of(places, (#[trigger] pairs@[m]).0, arch) == Some(grids@[m].0)
                        &&& grid_of(places, pairs@[m].1, arch) == Some(grids@[m].1)
                    },
                forall|n: int|
                    i < n < j ==> pairs_apart(
                        places,
                        pairs@[i as int],
                        #[trigger] pairs@[n],
                        arch,
                    ),
            decreases grids.len() - j,
        {
            let (a0, a1) = grids[i];
            let (b0, b1) = grids[j];
            let apart = atoms_grid_separated(a0, b0) && atoms_grid_separated(a0, b1)
                && atoms_grid_separated(a1, b0) && atoms_grid_separated(a1, b1);
            assert(apart == pairs_apart(places, pairs@[i as int], pairs@[j as int], arch));
            if !apart {
                return false;
            }
            j += 1;
        }
        i += 1;
    }
    true
}

/// Goal that asks for pair separation in addition to an inner goal.
pub struct PairSeparationGoal<G> {
    inner: G,
    pairs: Vec<(u32, u32)>,
    index: LaneIndex,
}

impl<G> PairSeparationGoal<G> {
    /// The inner goal.
    pub closed spec fn inner(self) -> G {
        self.inner
    }

    /// The pairs to separate.
    pub closed spec fn pairs(self) -> Seq<(u32, u32)> {
        self.pairs@
    }

    /// The architecture whose grid counts.
    pub closed spec fn arch(self) -> ArchModel {
        self.index.arch()
    }

    pub fn new(inner: G, pairs: &[(u32, u32)], index: &LaneIndex) -> (goal: Self)
        ensures
            goal.inner() == inner,
            goal.pairs() == pairs@,
            goal.arch() == index.arch(),
    {
        PairSeparationGoal { inner, pairs: copied(pairs), index: index.clone() }
    }
}

impl<G: Goal> Goal for PairSeparationGoal<G> {
    open spec fn holds(&self, config: Config) -> bool {
        self.inner().holds(config) && separated(place_map(config@), self.pairs(), self.arch())
    }

    fn is_goal(&self, config: &Config) -> (b: bool) {
        self.inner.is_goal(config) && pairs_grid_separated(
            config,
            self.pairs.as_slice(),
            &self.index,
        )
    }
}

/// The qubit sits at its target.
pub open spec fn at_target(config: Config, target: (u32, u64)) -> bool {
    match config.at(target.0) {
        Some(loc) => loc.code() == target.1,
        None => false,
    }
}

fn is_at_target(config: &Config, target: (u32, u64)) -> (b: bool)
    ensures
        b == at_target(*config, target),
{
    match config.location_of(target.0) {
        Some(loc) => loc.encode() == target.1,
        None => false,
    }
}

/// Goal: all qubits are at their target locations.
pub struct AllAtTarget {
    targets: Vec<(u32, u64)>,
}

impl AllAtTarget {
    /// The targets.
    pub closed spec fn targets(self) -> Seq<(u32, u64)> {
        self.targets@
    }

    /// A goal from qubits and their packed target locations.
    pub fn new(targets: &[(u32, u64)]) -> (goal: AllAtTarget)
        ensures
            goal.targets() == targets@,
    {
        AllAtTarget { targets: copied(targets) }
    }
}

impl Goal for AllAtTarget {
    open spec fn holds(&self, config: Config) -> bool {
        forall|i: int|
            0 <= i < self.targets().len() ==> at_target(config, #[trigger] self.targets()[i])
    }

    fn is_goal(&self, config: &Config) -> (b: bool) {
        let mut i: usize = 0;
        while i < self.targets.len()
            invariant
                i <= self.targets.len(),
                forall|k: int|
                    0 <= k < i ==> at_target(*config, #[trigger] self.targets()[k]),
            decreases self.targets.len() - i,
        {
            if !is_at_target(config, self.targets[i]) {
                assert(!at_target(*config, self.targets()[i as int]));
                return false;
            }
            i += 1;
        }
        true
    }
}

/// How many of the targets are met.
pub open spec fn placed_count(config: Config, targets: Seq<(u32, u64)>) -> nat
    decreases targets.len(),
{
    if targets.len() == 0 {
        0
    } else {
        placed_count(config, targets.drop_last()) + if at_target(config, targets.last()) {
            1nat
        } else {
            0
        }
    }
}

/// Goal: at least `min_placed` qubits are at their target locations.
pub struct PartialPlacementGoal {
    targets: Vec<(u32, u64)>,
    min_placed: usize,
}

impl PartialPlacementGoal {
    /// The targets.
    pub closed spec fn targets(self) -> Seq<(u32, u64)> {
        self.targets@
    }

    /// How many of them have to be met.
    pub closed spec fn min_placed(self) -> usize {
        self.min_placed
    }

    /// `min_placed` is the least number of qubits that must be at their target;
    /// all of them, where it is `None`.
    pub fn new(targets: &[(u32, u64)], min_placed: Option<usize>) -> (goal: PartialPlacementGoal)
        ensures
            goal.targets() == targets@,
            goal.min_placed() == match min_placed {
                Some(n) => n,
                None => targets@.len() as usize,
            },
    {
        PartialPlacementGoal {
            min_placed: match min_placed {
                Some(n) => n,
                None => targets.len(),
            },
            targets: copied(targets),
        }
    }
}

impl Goal for PartialPlacementGoal {
    open spec fn holds(&self, config: Config) -> bool {
        placed_count(config, self.targets()) >= self.min_placed()
    }

    fn is_goal(&self, config: &Config) -> (b: bool) {
        let mut placed: usize = 0;
        let mut i: usize = 0;
        assert(self.targets@.take(0) =~= seq![]);
        while i < self.targets.len()
            invariant
                i <= self.targets.len(),
                placed <= i,
                placed == placed_count(*config, self.targets@.take(i as int)),
            decreases self.targets.len() - i,
        {
            assert(self.targets@.take(i + 1).drop_last() =~= self.targets@.take(i as int));
            if is_at_target(config, self.targets[i]) {
                placed += 1;
            }
            i += 1;
        }
        assert(self.targets@.take(i as int) =~= self.targets@);
        placed >= self.min_placed
    }
}

proof fn lemma_placed_count(config: Config, targets: Seq<(u32, u64)>)
    ensures
        placed_count(config, targets) <= targets.len(),
        placed_count(config, targets) == targets.len() <==> forall|i: int|
            0 <= i < targets.len() ==> at_target(config, #[trigger] targets[i]),
    decreases targets.len(),
{
    if targets.len() > 0 {
        let rest = targets.drop_last();
        lemma_placed_count(config, rest);
        if placed_count(config, targets) == targets.len() {
            assert forall|i: int| 0 <= i < targets.len() implies at_target(
                config,
                #[trigger] targets[i],
            ) by {
                if i < rest.len() {
                    assert(at_target(config, rest[i]));
                }
            }
        }
        if forall|i: int| 0 <= i < targets.len() ==> at_target(config, #[trigger] targets[i]) {
            assert forall|i: int| 0 <= i < rest.len() implies at_target(
                config,
                #[trigger] rest[i],
            ) by {
                assert(at_target(config, targets[i]));
            }
            assert(at_target(config, targets[targets.len() - 1]));
        }
    }
}

/// A partial goal that wants every target is the same as [`AllAtTarget`], and
/// one that wants more is never met.
pub proof fn lemma_partial_goal_of_all(
    partial: PartialPlacementGoal,
    all: AllAtTarget,
    config: Config,
)
    requires
        partial.targets() == all.targets(),
    ensures
        partial.min_placed() == partial.targets().len() ==> partial.holds(config) == all.holds(
            config,
        ),
        partial.min_placed() > partial.targets().len() ==> !partial.holds(config),
{
    lemma_placed_count(config, partial.targets());
}

/// A weaker demand is met wherever a stronger one is.
pub proof fn lemma_partial_goal_monotone(
    weak: PartialPlacementGoal,
    strong: PartialPlacementGoal,
    config: Config,
)
    requires
        weak.targets() == strong.targets(),
        weak.min_placed() <= strong.min_placed(),
        strong.holds(config),
    ensures
        weak.holds(config),
{
}

/// Qubits that take part in a pair.
pub open spec fn pair_qubits(pairs: Seq<(u32, u32)>) -> Set<u32> {
    Set::new(
        |qubit_id: u32|
            exists|i: int|
                0 <= i < pairs.len() && ((#[trigger] pairs[i]).0 == qubit_id || pairs[i].1
                    == qubit_id),
    )
}

/// Pairs have finitely many qubits.
pub proof fn lemma_pair_qubits_finite(pairs: Seq<(u32, u32)>)
    ensures
        pair_qubits(pairs).finite(),
        pair_qubits(pairs).len() <= 2 * pairs.len(),
    decreases pairs.len(),
{
    if pairs.len() == 0 {
        assert(pair_qubits(pairs) =~= Set::empty());
    } else {
        let rest = pairs.drop_last();
        lemma_pair_qubits_finite(rest);
        let (a, b) = pairs.last();
        assert forall|q: u32| #[trigger] pair_qubits(pairs).contains(q) <==> pair_qubits(
            rest,
        ).insert(a).insert(b).contains(q) by {
            if pair_qubits(pairs).contains(q) {
                let i = choose|i: int|
                    0 <= i < pairs.len() && ((#[trigger] pairs[i]).0 == q || pairs[i].1 == q);
                if i < rest.len() {
                    assert(rest[i] == pairs[i]);
                }
            }
            if pair_qubits(rest).contains(q) {
                let i = choose|i: int|
                    0 <= i < rest.len() && ((#[trigger] rest[i]).0 == q || rest[i].1 == q);
                assert(pairs[i] == rest[i]);
            }
            assert(pairs[pairs.len() - 1] == (a, b));
        }
        assert(pair_qubits(pairs) =~= pair_qubits(rest).insert(a).insert(b));
    }
}

/// Collect the qubits of all pairs.
pub fn collect_pair_qubits(pairs: &[(u32, u32)]) -> (qubits: HashSet<u32>)
    ensures
        qubits@ == pair_qubits(pairs@),
{
    let mut qubits: HashSet<u32> = HashSet::new();
    let mut i: usize = 0;
    while i < pairs.len()
        invariant
            i <= pairs@.len(),
            forall|qubit_id: u32| #[trigger]
                qubits@.contains(qubit_id) <==> exists|k: int|
                    0 <= k < i && ((#[trigger] pairs@[k]).0 == qubit_id || pairs@[k].1 == qubit_id),
        decreases pairs.len() - i,
    {
        let (a, b) = pairs[i];
        qubits.insert(a);
        qubits.insert(b);
        i += 1;
    }
    assert(qubits@ =~= pair_qubits(pairs@));
    qubits
}

/// The pair sits on a valid placement.
pub open spec fn pair_placed(config: Config, pair: (u32, u32), placements: Set<(u64, u64)>) -> bool {
    match (config.at(pair.0), config.at(pair.1)) {
        (Some(a), Some(b)) => placements.contains((a.code(), b.code())),
        _ => false,
    }
}

/// The qubit across from the spectator at position `i`, where that is another
/// spectator: together they would perform an accidental CZ.
pub open spec fn accidental_partner(
    entries: Seq<(u32, LocationAddr)>,
    cz_qubits: Set<u32>,
    partners: Map<u64, u64>,
    i: int,
) -> Option<u32> {
    let (qubit_id, loc) = entries[i];
    if cz_qubits.contains(qubit_id) || !partners.contains_key(loc.code()) {
        None
    } else {
        match occupant_in(entries, LocationAddr::of_code(partners[loc.code()])) {
            Some(other) => if cz_qubits.contains(other) {
                None
            } else {
                Some(other)
            },
            None => None,
        }
    }
}

/// The other spectator of an accidental CZ, if there is one.
pub fn find_accidental_partner(
    config: &Config,
    cz_qubits: &HashSet<u32>,
    partner_map: &HashMap<u64, u64>,
    qubit_id: u32,
    loc: LocationAddr,
) -> (other: Option<u32>)
    ensures
        forall|i: int|
            0 <= i < config@.len() && #[trigger] config@[i] == (qubit_id, loc) ==> other
                == accidental_partner(config@, cz_qubits@, partner_map@, i),
        other == if cz_qubits@.contains(qubit_id) || !partner_map@.contains_key(loc.code()) {
            None
        } else {
            match occupant_in(config@, LocationAddr::of_code(partner_map@[loc.code()])) {
                Some(holder) if !cz_qubits@.contains(holder) => Some(holder),
                _ => None,
            }
        },
{
    if cz_qubits.contains(&qubit_id) {
        return None;
    }
    let code = loc.encode();
    match partner_map.get(&code) {
        Some(partner) => match config.qubit_at(LocationAddr::decode(*partner)) {
            Some(other) => if cz_qubits.contains(&other) {
                None
            } else {
                Some(other)
            },
            None => None,
        },
        None => None,
    }
}

/// Goal: all CZ pairs are at valid entangling positions and no spectators are
/// in accidental CZ positions.
///
/// A spectator is a qubit of no CZ pair. An accidental CZ occurs when two
/// spectators occupy partner sites.
pub struct EntanglingConstraintGoal {
    pairs: Vec<(u32, u32)>,
    valid_placements: PlacementSet,
    cz_qubits: HashSet<u32>,
    partner_map: HashMap<u64, u64>,
}

impl EntanglingConstraintGoal {
    /// Required CZ pairs.
    pub closed spec fn pairs(self) -> Seq<(u32, u32)> {
        self.pairs@
    }

    /// Valid placements of a pair.
    pub closed spec fn placements(self) -> Set<(u64, u64)> {
        self.valid_placements@
    }

    /// Partner of each entangling location.
    pub closed spec fn partners(self) -> Map<u64, u64> {
        self.partner_map@
    }

    #[verifier::type_invariant]
    spec fn consistent(self) -> bool {
        self.cz_qubits@ == pair_qubits(self.pairs@)
    }

    /// A goal from CZ pairs and the valid placements, see
    /// [`build_entangling_set`](crate::entangling::build_entangling_set).
    pub fn new(pairs: &[(u32, u32)], valid_placements: PlacementSet) -> (goal: Self)
        ensures
            goal.pairs() == pairs@,
            goal.placements() == valid_placements@,
            is_partner_map(valid_placements@, goal.partners()),
    {
        let cz_qubits = collect_pair_qubits(pairs);
        let partner_map = build_partner_map(&valid_placements);
        EntanglingConstraintGoal { pairs: copied(pairs), valid_placements, cz_qubits, partner_map }
    }
}

impl Goal for EntanglingConstraintGoal {
    open spec fn holds(&self, config: Config) -> bool {
        &&& forall|i: int|
            0 <= i < self.pairs().len() ==> pair_placed(
                config,
                #[trigger] self.pairs()[i],
                self.placements(),
            )
        &&& forall|i: int|
            0 <= i < config@.len() ==> (#[trigger] accidental_partner(
                config@,
                pair_qubits(self.pairs()),
                self.partners(),
                i,
            )) is None
    }

    fn is_goal(&self, config: &Config) -> (b: bool) {
        proof {
            use_type_invariant(self);
        }
        let mut i: usize = 0;
        while i < self.pairs.len()
            invariant
                i <= self.pairs.len(),
                forall|k: int|
                    0 <= k < i ==> pair_placed(
                        *config,
                        #[trigger] self.pairs()[k],
                        self.placements(),
                    ),
            decreases self.pairs.len() - i,
        {
            let (qa, qb) = self.pairs[i];
            let placed = match (config.location_of(qa), config.location_of(qb)) {
                (Some(a), Some(b)) => self.valid_placements.contains(&(a.encode(), b.encode())),
                _ => false,
            };
            assert(placed == pair_placed(*config, self.pairs()[i as int], self.placements()));
            if !placed {
                return false;
            }
            i += 1;
        }
        let entries = config.entries();
        let mut n: usize = 0;
        while n < entries.len()
            invariant
                n <= entries@.len(),
                entries@ == config@,
                self.cz_qubits@ == pair_qubits(self.pairs()),
                forall|k: int|
                    0 <= k < n ==> (#[trigger] accidental_partner(
                        config@,
                        pair_qubits(self.pairs()),
                        self.partners(),
                        k,
                    )) is None,
            decreases entries.len() - n,
        {
            let (qubit_id, loc) = entries[n];
            let other = find_accidental_partner(
                config,
                &self.cz_qubits,
                &self.partner_map,
                qubit_id,
                loc,
            );
            assert(config@[n as int] == (qubit_id, loc));
            if other.is_some() {
                return false;
            }
            n += 1;
        }
        true
    }
}

} // verus!
