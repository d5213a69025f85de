//! The hash maps and the hash set that the searches keep their books in.
//! They are bevy's; what is said here of their methods is taken on trust.

use vstd::prelude::*;
use crate::sector::{GatePairInSector, PathElement, SectorId};

verus! {

/// A path element as the key of a table: its sector, then the two gates.
pub open spec fn key_of(element: PathElement) -> (usize, usize, usize) {
    (element.exit_sector, element.gate_pair.from, element.gate_pair.to)
}

/// The path element that a key stands for.
pub open spec fn element_of(key: (usize, usize, usize)) -> PathElement {
    PathElement { exit_sector: key.0, gate_pair: GatePairInSector { from: key.1, to: key.2 } }
}

/// The key under which `element` is kept.
fn key(element: PathElement) -> (k: (usize, usize, usize))
    ensures
        k == key_of(element),
{
    (element.exit_sector, element.gate_pair.from, element.gate_pair.to)
}

/// The cost recorded for each path element that the search has reached, held
/// in a `bevy::utils::HashMap`.
#[verifier::external_body]
pub struct CostTable {
    inner: bevy::utils::HashMap<(usize, usize, usize), u128>,
}

/// The entries that a `CostTable` holds.
pub uninterp spec fn cost_entries(table: CostTable) -> Map<(usize, usize, usize), u128>;

/// The element through which each path element was reached, held in a
/// `bevy::utils::HashMap`.
#[verifier::external_body]
pub struct PredecessorTable {
    inner: bevy::utils::HashMap<(usize, usize, usize), (usize, usize, usize)>,
}

/// The entries that a `PredecessorTable` holds.
pub uninterp spec fn predecessor_entries(table: PredecessorTable) -> Map<
    (usize, usize, usize),
    (usize, usize, usize),
>;

/// The sectors that a region search has come across, held in a
/// `bevy::utils::HashSet`.
#[verifier::external_body]
pub struct VisitedSet {
    inner: bevy::utils::HashSet<usize>,
}

/// The sectors that a `VisitedSet` holds.
pub uninterp spec fn visited_entries(set: VisitedSet) -> Set<usize>;

impl CostTable {
    /// `HashMap::new` of hashbrown, through bevy's alias: the map that it
    /// returns has no entry.
    #[verifier::external_body]
    pub(crate) fn new() -> (table: CostTable)
        ensures
            cost_entries(table).dom().is_empty(),
    {
        CostTable { inner: bevy::utils::HashMap::new() }
    }

    /// `HashMap::insert` of hashbrown: afterwards the key has the new value,
    /// whether or not it had one, and every other key has what it had.
    #[verifier::external_body]
    pub(crate) fn insert(&mut self, key: (usize, usize, usize), cost: u128)
        ensures
            cost_entries(*final(self)) == cost_entries(*old(self)).insert(key, cost),
    {
        self.inner.insert(key, cost);
    }

    /// `HashMap::contains_key` of hashbrown: whether the key has a value.
    #[verifier::external_body]
    pub(crate) fn contains_key(&self, key: &(usize, usize, usize)) -> (present: bool)
        ensures
            present == cost_entries(*self).contains_key(*key),
    {
        self.inner.contains_key(key)
    }

    /// `Index::index` of hashbrown's `HashMap`: the value of a key that has
    /// one. It panics on a key without a value, which `requires` leaves out.
    #[verifier::external_body]
    pub(crate) fn index(&self, key: &(usize, usize, usize)) -> (cost: u128)
        requires
            cost_entries(*self).contains_key(*key),
        ensures
            cost == cost_entries(*self)[*key],
    {
        self.inner[key]
    }

    /// The recorded costs, by path element.
    pub open spec fn view(&self) -> Map<PathElement, nat> {
        Map::new(
            |element: PathElement| cost_entries(*self).contains_key(key_of(element)),
            |element: PathElement| cost_entries(*self)[key_of(element)] as nat,
        )
    }

    /// Records `cost` for `element`.
    pub(crate) fn record(&mut self, element: PathElement, cost: u128)
        ensures
            final(self)@ == old(self)@.insert(element, cost as nat),
    {
        self.insert(key(element), cost);
        assert(self@ =~= old(self)@.insert(element, cost as nat));
    }

    /// Whether a cost is recorded for `element`.
    pub(crate) fn has(&self, element: PathElement) -> (present: bool)
        ensures
            present == self@.contains_key(element),
    {
        let k = key(element);
        self.contains_key(&k)
    }

    /// The cost recorded for `element`.
    pub(crate) fn cost_of(&self, element: PathElement) -> (cost: u128)
        requires
            self@.contains_key(element),
        ensures
            cost == self@[element],
    {
        let k = key(element);
        self.index(&k)
    }
}

impl PredecessorTable {
    /// `HashMap::new` of hashbrown, through bevy's alias: the map that it
    /// returns has no entry.
    #[verifier::external_body]
    pub(crate) fn new() -> (table: PredecessorTable)
        ensures
            predecessor_entries(table).dom().is_empty(),
    {
        PredecessorTable { inner: bevy::utils::HashMap::new() }
    }

    /// `HashMap::insert` of hashbrown: afterwards the key has the new value,
    /// whether or not it had one, and every other key has what it had.
    #[verifier::external_body]
    pub(crate) fn insert(&mut self, key: (usize, usize, usize), previous: (usize, usize, usize))
        ensures
            predecessor_entries(*final(self)) == predecessor_entries(*old(self)).insert(
                key,
                previous,
            ),
    {
        self.inner.insert(key, previous);
    }

    /// `HashMap::get` of hashbrown, with the value copied out: the value of
    /// the key, or `None` where it has none.
    #[verifier::external_body]
    pub(crate) fn get(&self, key: &(usize, usize, usize)) -> (previous: Option<
        (usize, usize, usize),
    >)
        ensures
            previous == if predecessor_entries(*self).contains_key(*key) {
                Some(predecessor_entries(*self)[*key])
            } else {
                None
            },
    {
        self.inner.get(key).copied()
    }

    /// The recorded predecessors, by path element.
    pub open spec fn view(&self) -> Map<PathElement, PathElement> {
        Map::new(
            |element: PathElement| predecessor_entries(*self).contains_key(key_of(element)),
            |element: PathElement| element_of(predecessor_entries(*self)[key_of(element)]),
        )
    }

    /// Records that `element` was reached through `previous`.
    pub(crate) fn link(&mut self, element: PathElement, previous: PathElement)
        ensures
            final(self)@ == old(self)@.insert(element, previous),
    {
        self.insert(key(element), key(previous));
        assert(self@ =~= old(self)@.insert(element, previous));
    }

    /// The element through which `element` was reached, if any is recorded.
    pub(crate) fn previous(&self, element: PathElement) -> (previous: Option<PathElement>)
        ensures
            previous == if self@.contains_key(element) {
                Some(self@[element])
            } else {
                None
            },
    {
        let k = key(element);
        match self.get(&k) {
            Some(p) => Some(
                PathElement {
                    exit_sector: p.0,
                    gate_pair: GatePairInSector { from: p.1, to: p.2 },
                },
            ),
            None => None,
        }
    }
}

impl VisitedSet {
    /// `Default::default` of hashbrown's `HashSet`: the set that it returns
    /// is empty.
    #[verifier::external_body]
    pub(crate) fn new() -> (set: VisitedSet)
        ensures
            visited_entries(set).is_empty(),
    {
        VisitedSet { inner: bevy::utils::HashSet::default() }
    }

    /// `HashSet::insert` of hashbrown: afterwards the set holds the value
    /// besides what it held.
    #[verifier::external_body]
    pub(crate) fn insert(&mut self, sector: SectorId)
        ensures
            visited_entries(*final(self)) == visited_entries(*old(self)).insert(sector),
    {
        self.inner.insert(sector);
    }

    /// `HashSet::contains` of hashbrown: whether the set holds the value.
    #[verifier::external_body]
    pub(crate) fn contains(&self, sector: &SectorId) -> (present: bool)
        ensures
            present == visited_entries(*self).contains(*sector),
    {
        self.inner.contains(sector)
    }

    /// The sectors that the set holds.
    pub open spec fn view(&self) -> Set<SectorId> {
        visited_entries(*self)
    }
}

} // verus!
