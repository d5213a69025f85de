//! The layers of a region search: the sectors that lie zero, one, two and
//! more hops from its start, and what makes them so.

use vstd::prelude::*;
use crate::sector::{SectorGraph, SectorId};

verus! {

/// What a region search knows while it builds a layer: the sectors come
/// across so far, and the sectors of the layer, in the order in which they
/// were found.
pub ghost struct Layering {
    pub seen: Set<SectorId>,
    pub layer: Seq<SectorId>,
}

/// The layering after `sector` has been come across: where it is new, it is
/// seen from now on and joins the layer.
pub open spec fn visit(layering: Layering, sector: SectorId) -> Layering {
    if layering.seen.contains(sector) {
        layering
    } else {
        Layering { seen: layering.seen.insert(sector), layer: layering.layer.push(sector) }
    }
}

/// The layering after the first `n` links of `sector` have been followed.
pub open spec fn scan_links(
    graph: &SectorGraph,
    layering: Layering,
    sector: SectorId,
    n: nat,
) -> Layering
    decreases n,
{
    if n == 0 {
        layering
    } else {
        visit(
            scan_links(graph, layering, sector, (n - 1) as nat),
            graph.links(sector)[n - 1].exit_sector,
        )
    }
}

/// The layering after all the links of the first `n` sectors of `previous`
/// have been followed.
pub open spec fn scan_layer(
    graph: &SectorGraph,
    layering: Layering,
    previous: Seq<SectorId>,
    n: nat,
) -> Layering
    decreases n,
{
    if n == 0 {
        layering
    } else {
        scan_links(
            graph,
            scan_layer(graph, layering, previous, (n - 1) as nat),
            previous[n - 1],
            graph.links(previous[n - 1]).len(),
        )
    }
}

/// The layering once layer `depth` is complete. Layer 0 is the start sector;
/// each further layer holds the sectors that the links of the layer before
/// it lead to and that no layer held yet.
pub open spec fn layering_at(graph: &SectorGraph, from: SectorId, depth: nat) -> Layering
    decreases depth,
{
    if depth == 0 {
        Layering { seen: set![from], layer: seq![from] }
    } else {
        let before = layering_at(graph, from, (depth - 1) as nat);
        scan_layer(
            graph,
            Layering { seen: before.seen, layer: Seq::empty() },
            before.layer,
            before.layer.len(),
        )
    }
}

/// The sectors of layer `depth`, in the order in which the search finds them.
pub open spec fn layer(graph: &SectorGraph, from: SectorId, depth: nat) -> Seq<SectorId> {
    layering_at(graph, from, depth).layer
}

/// Whether a link leads from `a` into `b`.
pub open spec fn adjacent(graph: &SectorGraph, a: SectorId, b: SectorId) -> bool {
    exists|i: int| 0 <= i < graph.links(a).len() && #[trigger] graph.links(a)[i].exit_sector == b
}

/// Whether `hops` links, one after the other, lead from `from` into `sector`.
pub open spec fn reaches_in(graph: &SectorGraph, from: SectorId, sector: SectorId, hops: nat) -> bool
    decreases hops,
{
    if hops == 0 {
        sector == from
    } else {
        exists|before: SectorId|
            reaches_in(graph, from, before, (hops - 1) as nat) && #[trigger] adjacent(
                graph,
                before,
                sector,
            )
    }
}

/// Whether `sector` lies `hops` hops from `from`, and no fewer.
pub open spec fn is_hop_distance(
    graph: &SectorGraph,
    from: SectorId,
    sector: SectorId,
    hops: nat,
) -> bool {
    &&& reaches_in(graph, from, sector, hops)
    &&& forall|fewer: nat| fewer < hops ==> !#[trigger] reaches_in(graph, from, sector, fewer)
}

/// Whether `sector` lies within `hops` hops from `from`.
pub open spec fn reaches_within(
    graph: &SectorGraph,
    from: SectorId,
    sector: SectorId,
    hops: nat,
) -> bool {
    exists|n: nat| n <= hops && #[trigger] reaches_in(graph, from, sector, n)
}

/// Whether one of `sectors` has a link into `sector`.
pub open spec fn next_to(graph: &SectorGraph, sectors: Seq<SectorId>, sector: SectorId) -> bool {
    exists|j: int| 0 <= j < sectors.len() && adjacent(graph, #[trigger] sectors[j], sector)
}

/// What following links does to a layering: no sector that was in the layer
/// leaves it or moves, whatever was seen stays seen, the layer holds no
/// sector twice, and what is in the layer is seen.
pub open spec fn grows_from(before: Layering, after: Layering) -> bool {
    &&& before.layer.len() <= after.layer.len()
    &&& after.layer.take(before.layer.len() as int) == before.layer
    &&& before.seen.subset_of(after.seen)
    &&& forall|s: SectorId|
        after.seen.contains(s) ==> before.seen.contains(s) || after.layer.contains(s)
    &&& forall|i: int|
        before.layer.len() <= i < after.layer.len() ==> !before.seen.contains(
            #[trigger] after.layer[i],
        ) && after.seen.contains(after.layer[i])
    &&& forall|i: int, j: int|
        before.layer.len() <= i < j < after.layer.len() ==> after.layer[i] != after.layer[j]
}

/// What has grown from what has grown from a layering has grown from it.
proof fn lemma_grows_trans(a: Layering, b: Layering, c: Layering)
    requires
        grows_from(a, b),
        grows_from(b, c),
    ensures
        grows_from(a, c),
{
    assert(c.layer.take(a.layer.len() as int) =~= a.layer) by {
        assert forall|i: int| 0 <= i < a.layer.len() implies c.layer[i] == a.layer[i] by {
            assert(c.layer.take(b.layer.len() as int)[i] == b.layer[i]);
            assert(b.layer.take(a.layer.len() as int)[i] == a.layer[i]);
        }
    }
    assert forall|s: SectorId| c.seen.contains(s) implies a.seen.contains(s) || c.layer.contains(
        s,
    ) by {
        if !a.seen.contains(s) && b.seen.contains(s) {
            let i = choose|i: int| 0 <= i < b.layer.len() && b.layer[i] == s;
            assert(c.layer.take(b.layer.len() as int)[i] == b.layer[i]);
            assert(c.layer[i] == s);
        }
    }
    assert forall|i: int| a.layer.len() <= i < c.layer.len() implies !a.seen.contains(
        #[trigger] c.layer[i],
    ) && c.seen.contains(c.layer[i]) by {
        if i < b.layer.len() {
            assert(c.layer.take(b.layer.len() as int)[i] == b.layer[i]);
        }
    }
    assert forall|i: int, j: int| a.layer.len() <= i < j < c.layer.len() implies c.layer[i]
        != c.layer[j] by {
        if i < b.layer.len() {
            assert(c.layer.take(b.layer.len() as int)[i] == b.layer[i]);
            if j < b.layer.len() {
                assert(c.layer.take(b.layer.len() as int)[j] == b.layer[j]);
            } else {
                assert(b.seen.contains(b.layer[i]));
            }
        }
    }
}

/// Following the first `n` links of `sector` lets the layering grow by the
/// sectors that these links lead into and that were not seen.
pub proof fn lemma_scan_links(graph: &SectorGraph, layering: Layering, sector: SectorId, n: nat)
    requires
        n <= graph.links(sector).len(),
    ensures
        grows_from(layering, scan_links(graph, layering, sector, n)),
        forall|i: int|
            0 <= i < n ==> scan_links(graph, layering, sector, n).seen.contains(
                #[trigger] graph.links(sector)[i].exit_sector,
            ),
        forall|s: SectorId|
            scan_links(graph, layering, sector, n).seen.contains(s) && !layering.seen.contains(s)
                ==> adjacent(graph, sector, s),
    decreases n,
{
    if n == 0 {
        assert(layering.layer.take(layering.layer.len() as int) =~= layering.layer);
    } else {
        let before = scan_links(graph, layering, sector, (n - 1) as nat);
        let after = scan_links(graph, layering, sector, n);
        let target = graph.links(sector)[n - 1].exit_sector;
        lemma_scan_links(graph, layering, sector, (n - 1) as nat);
        assert(grows_from(before, after)) by {
            assert(after.layer.take(before.layer.len() as int) =~= before.layer);
            if !before.seen.contains(target) {
                assert(after.layer[before.layer.len() as int] == target);
            }
        }
        lemma_grows_trans(layering, before, after);
    }
}

/// Following all the links of the first `n` sectors of `previous` lets the
/// layering grow by the sectors next to them that were not seen.
pub proof fn lemma_scan_layer(
    graph: &SectorGraph,
    layering: Layering,
    previous: Seq<SectorId>,
    n: nat,
)
    requires
        n <= previous.len(),
    ensures
        grows_from(layering, scan_layer(graph, layering, previous, n)),
        forall|s: SectorId|
            next_to(graph, previous.take(n as int), s) ==> scan_layer(
                graph,
                layering,
                previous,
                n,
            ).seen.contains(s),
        forall|s: SectorId|
            scan_layer(graph, layering, previous, n).seen.contains(s) && !layering.seen.contains(s)
                ==> next_to(graph, previous.take(n as int), s),
    decreases n,
{
    if n == 0 {
        assert(layering.layer.take(layering.layer.len() as int) =~= layering.layer);
    } else {
        let before = scan_layer(graph, layering, previous, (n - 1) as nat);
        let after = scan_layer(graph, layering, previous, n);
        let sector = previous[n - 1];
        lemma_scan_layer(graph, layering, previous, (n - 1) as nat);
        lemma_scan_links(graph, before, sector, graph.links(sector).len());
        lemma_grows_trans(layering, before, after);
        let shorter = previous.take(n - 1);
        let longer = previous.take(n as int);
        assert forall|s: SectorId| next_to(graph, longer, s) implies after.seen.contains(s) by {
            let j = choose|j: int| 0 <= j < longer.len() && adjacent(graph, #[trigger] longer[j], s);
            if j < n - 1 {
                assert(shorter[j] == longer[j]);
                assert(next_to(graph, shorter, s));
            } else {
                let i = choose|i: int|
                    0 <= i < graph.links(sector).len() && #[trigger] graph.links(
                        sector,
                    )[i].exit_sector == s;
                assert(after.seen.contains(graph.links(sector)[i].exit_sector));
            }
        }
        assert forall|s: SectorId|
            after.seen.contains(s) && !layering.seen.contains(s) implies next_to(
            graph,
            longer,
            s,
        ) by {
            if before.seen.contains(s) {
                let j = choose|j: int|
                    0 <= j < shorter.len() && adjacent(graph, #[trigger] shorter[j], s);
                assert(longer[j] == shorter[j]);
            } else {
                assert(longer[n - 1] == sector);
            }
        }
    }
}

/// One more link leads one hop further.
pub proof fn lemma_reaches_on(
    graph: &SectorGraph,
    from: SectorId,
    before: SectorId,
    sector: SectorId,
    hops: nat,
)
    requires
        reaches_in(graph, from, before, hops),
        adjacent(graph, before, sector),
    ensures
        reaches_in(graph, from, sector, hops + 1),
{
    assert(reaches_in(graph, from, before, ((hops + 1) - 1) as nat));
}

/// The sector from which the last of `hops` links leads into `sector`.
pub proof fn lemma_reaches_from(
    graph: &SectorGraph,
    from: SectorId,
    sector: SectorId,
    hops: nat,
) -> (before: SectorId)
    requires
        hops > 0,
        reaches_in(graph, from, sector, hops),
    ensures
        reaches_in(graph, from, before, (hops - 1) as nat),
        adjacent(graph, before, sector),
{
    choose|before: SectorId|
        reaches_in(graph, from, before, (hops - 1) as nat) && #[trigger] adjacent(
            graph,
            before,
            sector,
        )
}

/// A sector that `hops` links lead into lies some number of hops away, and
/// no more than `hops`.
pub proof fn lemma_hop_distance_exists(
    graph: &SectorGraph,
    from: SectorId,
    sector: SectorId,
    hops: nat,
) -> (least: nat)
    requires
        reaches_in(graph, from, sector, hops),
    ensures
        least <= hops,
        is_hop_distance(graph, from, sector, least),
    decreases hops,
{
    if forall|fewer: nat| fewer < hops ==> !#[trigger] reaches_in(graph, from, sector, fewer) {
        hops
    } else {
        let fewer = choose|fewer: nat| fewer < hops && reaches_in(graph, from, sector, fewer);
        lemma_hop_distance_exists(graph, from, sector, fewer)
    }
}

/// Layer `depth` holds, each once, the sectors that lie `depth` hops from
/// `from`, and no fewer; the sectors seen by then are those that lie within
/// `depth` hops; and all of them are sectors of the graph.
pub proof fn lemma_layers(graph: &SectorGraph, from: SectorId, depth: nat)
    requires
        graph.wf(),
        from < graph.sector_total(),
    ensures
        forall|s: SectorId|
            #[trigger] layering_at(graph, from, depth).seen.contains(s) <==> reaches_within(
                graph,
                from,
                s,
                depth,
            ),
        forall|s: SectorId|
            layer(graph, from, depth).contains(s) <==> #[trigger] is_hop_distance(
                graph,
                from,
                s,
                depth,
            ),
        forall|i: int, j: int|
            0 <= i < j < layer(graph, from, depth).len() ==> layer(graph, from, depth)[i] != layer(
                graph,
                from,
                depth,
            )[j],
        forall|i: int|
            0 <= i < layer(graph, from, depth).len() ==> #[trigger] layer(graph, from, depth)[i]
                < graph.sector_total(),
    decreases depth,
{
    let here = layering_at(graph, from, depth);
    if depth == 0 {
        assert forall|s: SectorId| here.seen.contains(s) <==> reaches_within(
            graph,
            from,
            s,
            depth,
        ) by {
            if s == from {
                assert(reaches_in(graph, from, s, 0));
            }
        }
        assert forall|s: SectorId| here.layer.contains(s) <==> is_hop_distance(
            graph,
            from,
            s,
            depth,
        ) by {
            if s == from {
                assert(here.layer[0] == s);
            }
        }
    } else {
        let fewer = (depth - 1) as nat;
        let before = layering_at(graph, from, fewer);
        let start = Layering { seen: before.seen, layer: Seq::empty() };
        lemma_layers(graph, from, fewer);
        lemma_scan_layer(graph, start, before.layer, before.layer.len());
        assert(before.layer.take(before.layer.len() as int) =~= before.layer);
        assert forall|s: SectorId| here.seen.contains(s) implies reaches_within(
            graph,
            from,
            s,
            depth,
        ) by {
            if before.seen.contains(s) {
                let n = choose|n: nat| n <= fewer && #[trigger] reaches_in(graph, from, s, n);
                assert(n <= depth && reaches_in(graph, from, s, n));
            } else {
                let j = choose|j: int|
                    0 <= j < before.layer.len() && adjacent(graph, #[trigger] before.layer[j], s);
                assert(layer(graph, from, fewer).contains(before.layer[j]));
                assert(is_hop_distance(graph, from, before.layer[j], fewer));
                lemma_reaches_on(graph, from, before.layer[j], s, fewer);
                assert(reaches_in(graph, from, s, depth));
            }
        }
        assert forall|s: SectorId| reaches_within(graph, from, s, depth) implies here.seen.contains(
            s,
        ) by {
            let n = choose|n: nat| n <= depth && #[trigger] reaches_in(graph, from, s, n);
            if n <= fewer {
                assert(reaches_within(graph, from, s, fewer));
                assert(layering_at(graph, from, fewer).seen.contains(s));
            } else {
                let p = lemma_reaches_from(graph, from, s, depth);
                let least = lemma_hop_distance_exists(graph, from, p, fewer);
                if least == fewer {
                    assert(is_hop_distance(graph, from, p, fewer));
                    assert(layer(graph, from, fewer).contains(p));
                    let j = choose|j: int| 0 <= j < before.layer.len() && before.layer[j] == p;
                    assert(adjacent(graph, before.layer[j], s));
                    assert(next_to(graph, before.layer, s));
                } else {
                    lemma_reaches_on(graph, from, p, s, least);
                    assert(reaches_in(graph, from, s, least + 1));
                    assert(reaches_within(graph, from, s, fewer));
                    assert(layering_at(graph, from, fewer).seen.contains(s));
                }
            }
        }
        assert forall|s: SectorId| here.layer.contains(s) implies is_hop_distance(
            graph,
            from,
            s,
            depth,
        ) by {
            let i = choose|i: int| 0 <= i < here.layer.len() && here.layer[i] == s;
            assert(!before.seen.contains(here.layer[i]) && here.seen.contains(here.layer[i]));
            assert(reaches_within(graph, from, s, depth));
            let n = choose|n: nat| n <= depth && #[trigger] reaches_in(graph, from, s, n);
            assert forall|m: nat| m < depth implies !#[trigger] reaches_in(graph, from, s, m) by {
                if reaches_in(graph, from, s, m) {
                    assert(reaches_within(graph, from, s, fewer));
                }
            }
        }
        assert forall|s: SectorId| is_hop_distance(graph, from, s, depth) implies here.layer.contains(
            s,
        ) by {
            assert(reaches_within(graph, from, s, depth));
            if before.seen.contains(s) {
                let n = choose|n: nat| n <= fewer && #[trigger] reaches_in(graph, from, s, n);
                assert(false);
            }
        }
        assert forall|i: int| 0 <= i < here.layer.len() implies #[trigger] here.layer[i]
            < graph.sector_total() by {
            let s = here.layer[i];
            assert(here.seen.contains(here.layer[i]) && !start.seen.contains(here.layer[i]));
            let j = choose|j: int|
                0 <= j < before.layer.len() && adjacent(graph, #[trigger] before.layer[j], s);
            let p = before.layer[j];
            let k = choose|k: int|
                0 <= k < graph.links(p).len() && #[trigger] graph.links(p)[k].exit_sector == s;
            graph.lemma_link_is_valid(p, k);
        }
    }
}

/// No sector lies in two layers, or twice in one.
pub proof fn lemma_layers_are_apart(
    graph: &SectorGraph,
    from: SectorId,
    a: nat,
    i: int,
    b: nat,
    j: int,
)
    requires
        graph.wf(),
        from < graph.sector_total(),
        0 <= i < layer(graph, from, a).len(),
        0 <= j < layer(graph, from, b).len(),
        layer(graph, from, a)[i] == layer(graph, from, b)[j],
    ensures
        a == b,
        i == j,
{
    lemma_layers(graph, from, a);
    lemma_layers(graph, from, b);
    let s = layer(graph, from, a)[i];
    assert(layer(graph, from, a).contains(s));
    assert(layer(graph, from, b).contains(s));
    assert(is_hop_distance(graph, from, s, a));
    assert(is_hop_distance(graph, from, s, b));
}

} // verus!
