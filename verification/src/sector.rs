//! The graph that the searches read: sectors, each gate pair that links two
//! of them, and where each gate lies.

use vstd::prelude::*;
use crate::position::Position;

verus! {

/// Identifies a sector: its index in the graph.
pub type SectorId = usize;

/// Identifies a gate: its index in the graph.
pub type GateId = usize;

/// A graph can hold this many links.
pub const MAX_LINKS: u32 = 0xFFFF_FFFF;

/// The two gates of one connection, seen from the sector that holds `from`.
#[derive(Clone, Copy, Debug, PartialEq, Eq, Structural, Hash)]
pub struct GatePairInSector {
    /// Which gate lies inside this sector
    pub from: GateId,
    /// Which gate that one is connected to
    pub to: GateId,
}

/// One step of a route: travel until you leave through `gate_pair`, which
/// brings you into `exit_sector`.
#[derive(Clone, Copy, Debug, PartialEq, Eq, Structural, Hash)]
pub struct PathElement {
    pub exit_sector: SectorId,
    pub gate_pair: GatePairInSector,
}

impl PathElement {
    /// The step through `gate_pair` into `exit_sector`.
    pub fn new(exit_sector: SectorId, gate_pair: GatePairInSector) -> (element: PathElement)
        ensures
            element == (PathElement { exit_sector, gate_pair }),
    {
        PathElement { exit_sector, gate_pair }
    }
}

/// The links of all the sectors, sector after sector.
pub open spec fn all_links(lists: Seq<Vec<PathElement>>) -> Seq<PathElement>
    decreases lists.len(),
{
    if lists.len() == 0 {
        Seq::empty()
    } else {
        all_links(lists.drop_last()) + lists.last()@
    }
}

/// A further sector brings its links to the end of `all_links`.
proof fn lemma_all_links_push(lists: Seq<Vec<PathElement>>, list: Vec<PathElement>)
    ensures
        all_links(lists.push(list)) == all_links(lists) + list@,
{
    assert(lists.push(list).drop_last() =~= lists);
}

/// Another list of links for one sector changes the number of `all_links` by
/// the difference of the two lists' lengths.
proof fn lemma_all_links_update(lists: Seq<Vec<PathElement>>, k: int, list: Vec<PathElement>)
    requires
        0 <= k < lists.len(),
    ensures
        all_links(lists.update(k, list)).len() == all_links(lists).len() - lists[k]@.len()
            + list@.len(),
    decreases lists.len(),
{
    let updated = lists.update(k, list);
    if k == lists.len() - 1 {
        assert(updated.drop_last() =~= lists.drop_last());
    } else {
        assert(updated.drop_last() =~= lists.drop_last().update(k, list));
        lemma_all_links_update(lists.drop_last(), k, list);
    }
}

/// `all_links` are at least as many as the links of any one sector.
proof fn lemma_all_links_covers(lists: Seq<Vec<PathElement>>, k: int)
    requires
        0 <= k < lists.len(),
    ensures
        lists[k]@.len() <= all_links(lists).len(),
    decreases lists.len(),
{
    if k < lists.len() - 1 {
        lemma_all_links_covers(lists.drop_last(), k);
    }
}

/// Every link of every sector occurs among `all_links`.
pub proof fn lemma_all_links_contains(lists: Seq<Vec<PathElement>>, s: int, i: int)
    requires
        0 <= s < lists.len(),
        0 <= i < lists[s]@.len(),
    ensures
        all_links(lists).contains(lists[s]@[i]),
    decreases lists.len(),
{
    let before = all_links(lists.drop_last());
    if s == lists.len() - 1 {
        assert(all_links(lists)[before.len() + i] == lists[s]@[i]);
    } else {
        lemma_all_links_contains(lists.drop_last(), s, i);
        let j = choose|j: int| 0 <= j < before.len() && before[j] == lists[s]@[i];
        assert(all_links(lists)[j] == lists[s]@[i]);
    }
}

/// Sectors, the links that leave each, and where each gate lies. A sector may
/// have several links into one other sector; none leads into itself.
pub struct SectorGraph {
    sectors: Vec<Vec<PathElement>>,
    gates: Vec<Position>,
    link_count: u32,
}

impl SectorGraph {
    /// Every link leads to another sector of the graph through gates of the
    /// graph, and the graph has counted its links.
    pub closed spec fn wf(&self) -> bool {
        &&& all_links(self.sectors@).len() == self.link_count
        &&& forall|s: int, i: int|
            0 <= s < self.sectors@.len() && 0 <= i < self.sectors@[s]@.len() ==> {
                let link = #[trigger] self.sectors@[s]@[i];
                &&& link.exit_sector < self.sectors@.len()
                &&& link.exit_sector != s
                &&& link.gate_pair.from < self.gates@.len()
                &&& link.gate_pair.to < self.gates@.len()
            }
    }

    /// How many sectors the graph has.
    pub closed spec fn sector_total(&self) -> nat {
        self.sectors@.len()
    }

    /// How many gates the graph has.
    pub closed spec fn gate_total(&self) -> nat {
        self.gates@.len()
    }

    /// The links that leave `sector`, in the order in which they were added.
    pub closed spec fn links(&self, sector: SectorId) -> Seq<PathElement> {
        if sector < self.sectors@.len() {
            self.sectors@[sector as int]@
        } else {
            Seq::empty()
        }
    }

    /// Where `gate` lies.
    pub closed spec fn position_of(&self, gate: GateId) -> Position {
        self.gates@[gate as int]
    }

    /// A graph without sectors.
    pub fn new() -> (graph: SectorGraph)
        ensures
            graph.wf(),
            graph.sector_total() == 0,
            graph.gate_total() == 0,
            graph.link_total() == 0,
    {
        SectorGraph { sectors: Vec::new(), gates: Vec::new(), link_count: 0 }
    }

    /// How many sectors the graph has.
    pub fn sector_count(&self) -> (n: usize)
        ensures
            n == self.sector_total(),
    {
        self.sectors.len()
    }

    /// How many gates the graph has.
    pub fn gate_count(&self) -> (n: usize)
        ensures
            n == self.gate_total(),
    {
        self.gates.len()
    }

    /// Adds a sector without links and returns its id.
    pub fn add_sector(&mut self) -> (id: SectorId)
        requires
            old(self).wf(),
        ensures
            final(self).wf(),
            id == old(self).sector_total(),
            final(self).sector_total() == old(self).sector_total() + 1,
            final(self).gate_total() == old(self).gate_total(),
            final(self).link_total() == old(self).link_total(),
            final(self).links(id) == Seq::<PathElement>::empty(),
            forall|s: SectorId| #[trigger] final(self).links(s) == old(self).links(s),
            forall|g: GateId|
                g < old(self).gate_total() ==> #[trigger] final(self).position_of(g) == old(
                    self,
                ).position_of(g),
    {
        let id: usize = self.sectors.len();
        let list: Vec<PathElement> = Vec::new();
        proof {
            lemma_all_links_push(self.sectors@, list);
        }
        self.sectors.push(list);
        id
    }

    /// Adds a gate that lies at `position` and returns its id.
    pub fn add_gate_at(&mut self, position: Position) -> (id: GateId)
        requires
            old(self).wf(),
        ensures
            final(self).wf(),
            id == old(self).gate_total(),
            final(self).gate_total() == old(self).gate_total() + 1,
            final(self).sector_total() == old(self).sector_total(),
            final(self).link_total() == old(self).link_total(),
            final(self).position_of(id) == position,
            forall|s: SectorId| #[trigger] final(self).links(s) == old(self).links(s),
            forall|g: GateId|
                g < old(self).gate_total() ==> #[trigger] final(self).position_of(g) == old(
                    self,
                ).position_of(g),
    {
        let id: usize = self.gates.len();
        self.gates.push(position);
        id
    }

    /// Records that `this_gate`, in `this_sector`, leads to `destination_gate`
    /// in `destination_sector`. Nothing is recorded, and `false` returned,
    /// where a sector or a gate is unknown, the two sectors are one, or the
    /// graph is full.
    pub fn add_gate(
        &mut self,
        this_sector: SectorId,
        this_gate: GateId,
        destination_sector: SectorId,
        destination_gate: GateId,
    ) -> (added: bool)
        requires
            old(self).wf(),
        ensures
            final(self).wf(),
            added <==> {
                &&& this_sector < old(self).sector_total()
                &&& destination_sector < old(self).sector_total()
                &&& this_sector != destination_sector
                &&& this_gate < old(self).gate_total()
                &&& destination_gate < old(self).gate_total()
                &&& old(self).link_total() < MAX_LINKS
            },
            final(self).sector_total() == old(self).sector_total(),
            final(self).gate_total() == old(self).gate_total(),
            final(self).link_total() == old(self).link_total() + if added {
                1nat
            } else {
                0nat
            },
            forall|g: GateId| #[trigger] final(self).position_of(g) == old(self).position_of(g),
            added ==> final(self).links(this_sector) == old(self).links(this_sector).push(
                PathElement {
                    exit_sector: destination_sector,
                    gate_pair: GatePairInSector { from: this_gate, to: destination_gate },
                },
            ),
            !added ==> final(self).links(this_sector) == old(self).links(this_sector),
            forall|s: SectorId|
                s != this_sector ==> #[trigger] final(self).links(s) == old(self).links(s),
    {
        if this_sector >= self.sectors.len() || destination_sector >= self.sectors.len()
            || this_sector == destination_sector || this_gate >= self.gates.len()
            || destination_gate >= self.gates.len() || self.link_count == MAX_LINKS {
            return false;
        }
        let link = PathElement {
            exit_sector: destination_sector,
            gate_pair: GatePairInSector { from: this_gate, to: destination_gate },
        };
        self.link_count = self.link_count + 1;
        self.sectors[this_sector].push(link);
        proof {
            let list = self.sectors@[this_sector as int];
            lemma_all_links_update(old(self).sectors@, this_sector as int, list);
            assert(self.sectors@ =~= old(self).sectors@.update(this_sector as int, list));
        }
        true
    }

    /// How many links the graph has, over all its sectors.
    pub closed spec fn link_total(&self) -> nat {
        all_links(self.sectors@).len()
    }

    /// The path elements that occur as a link of some sector.
    pub closed spec fn link_set(&self) -> Set<PathElement> {
        all_links(self.sectors@).to_set()
    }

    /// A link of a well-formed graph leads to another sector of the graph,
    /// through gates of the graph, and is in the graph's `link_set`.
    pub proof fn lemma_link_is_valid(&self, sector: SectorId, i: int)
        requires
            self.wf(),
            0 <= i < self.links(sector).len(),
        ensures
            sector < self.sector_total(),
            self.links(sector)[i].exit_sector < self.sector_total(),
            self.links(sector)[i].exit_sector != sector,
            self.links(sector)[i].gate_pair.from < self.gate_total(),
            self.links(sector)[i].gate_pair.to < self.gate_total(),
            self.link_set().contains(self.links(sector)[i]),
    {
        assert(self.sectors@[sector as int]@[i] == self.links(sector)[i]);
        lemma_all_links_contains(self.sectors@, sector as int, i);
    }

    /// A well-formed graph has at most `MAX_LINKS` links, and so at most as
    /// many different path elements, and no sector has more.
    pub proof fn lemma_links_are_bounded(&self, sector: SectorId)
        requires
            self.wf(),
        ensures
            self.link_total() <= MAX_LINKS,
            self.link_set().finite(),
            self.link_set().len() <= self.link_total(),
            self.links(sector).len() <= self.link_total(),
    {
        let all = all_links(self.sectors@);
        vstd::seq_lib::seq_to_set_is_finite(all);
        all.lemma_cardinality_of_set();
        if sector < self.sectors@.len() {
            lemma_all_links_covers(self.sectors@, sector as int);
        }
    }

    /// The links that leave `sector`.
    pub fn links_of(&self, sector: SectorId) -> (links: &Vec<PathElement>)
        requires
            sector < self.sector_total(),
        ensures
            links@ == self.links(sector),
    {
        &self.sectors[sector]
    }

    /// Where `gate` lies.
    pub fn gate_position(&self, gate: GateId) -> (position: Position)
        requires
            gate < self.gate_total(),
        ensures
            position == self.position_of(gate),
    {
        self.gates[gate]
    }
}

} // verus!
