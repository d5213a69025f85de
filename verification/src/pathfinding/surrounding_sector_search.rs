//! The region search: the sectors within a number of hops that satisfy a
//! predicate, with their distances.

use vstd::prelude::*;
use crate::pathfinding::layers::{
    is_hop_distance, layer, layering_at, lemma_hop_distance_exists, lemma_layers,
    lemma_layers_are_apart, reaches_in, reaches_within, scan_layer, scan_links, Layering,
};
use crate::pathfinding::search_result::SearchResult;
use crate::pathfinding::tables::VisitedSet;
use crate::sector::{SectorGraph, SectorId};

verus! {

/// What is known of `sector`, if anything.
pub open spec fn data_for<T>(data: Seq<Option<T>>, sector: SectorId) -> Option<T> {
    if sector < data.len() {
        data[sector as int]
    } else {
        None
    }
}

/// The results for the first `n` sectors of a layer: one for each sector that
/// matches, in the order of the layer.
pub open spec fn matches_in(
    layer: Seq<SectorId>,
    distance: u8,
    matching: Set<SectorId>,
    n: nat,
) -> Seq<SearchResult>
    decreases n,
{
    if n == 0 {
        Seq::empty()
    } else if matching.contains(layer[n - 1]) {
        matches_in(layer, distance, matching, (n - 1) as nat).push(
            SearchResult { distance, sector: layer[n - 1] },
        )
    } else {
        matches_in(layer, distance, matching, (n - 1) as nat)
    }
}

/// The results of a region search up to `depth` hops: those of layer 0, then
/// those of layer 1, and so on.
pub open spec fn found_within(
    graph: &SectorGraph,
    from: SectorId,
    matching: Set<SectorId>,
    depth: u8,
) -> Seq<SearchResult>
    decreases depth,
{
    let here = matches_in(
        layer(graph, from, depth as nat),
        depth,
        matching,
        layer(graph, from, depth as nat).len(),
    );
    if depth == 0 {
        here
    } else {
        found_within(graph, from, matching, (depth - 1) as u8) + here
    }
}

/// Whether `matching` says of `sector` what the predicate does: a sector of
/// which nothing is known does not match; of another, `matching` holds an
/// answer that the predicate can give.
pub open spec fn answers<T, F: Fn(&T) -> bool>(
    search_fn: F,
    data: Seq<Option<T>>,
    matching: Set<SectorId>,
    sector: SectorId,
) -> bool {
    match data_for(data, sector) {
        Some(known) => call_ensures(search_fn, (&known,), matching.contains(sector)),
        None => !matching.contains(sector),
    }
}

/// The results for the first `n` sectors of a layer depend on which of these
/// sectors match, and on no other sector.
pub proof fn lemma_matches_in_agree(
    layer: Seq<SectorId>,
    distance: u8,
    a: Set<SectorId>,
    b: Set<SectorId>,
    n: nat,
)
    requires
        n <= layer.len(),
        forall|i: int| 0 <= i < n ==> a.contains(#[trigger] layer[i]) == b.contains(layer[i]),
    ensures
        matches_in(layer, distance, a, n) == matches_in(layer, distance, b, n),
    decreases n,
{
    if n > 0 {
        lemma_matches_in_agree(layer, distance, a, b, (n - 1) as nat);
    }
}

/// The results of a region search depend on which of the sectors within
/// `depth` hops match, and on no other sector: two searches in which the
/// predicate says the same of every sector in range return the same list.
pub proof fn lemma_found_within_agree(
    graph: &SectorGraph,
    from: SectorId,
    a: Set<SectorId>,
    b: Set<SectorId>,
    depth: u8,
)
    requires
        graph.wf(),
        from < graph.sector_total(),
        forall|s: SectorId| #[trigger]
            reaches_within(graph, from, s, depth as nat) ==> a.contains(s) == b.contains(s),
    ensures
        found_within(graph, from, a, depth) == found_within(graph, from, b, depth),
    decreases depth,
{
    let here = layer(graph, from, depth as nat);
    lemma_layers(graph, from, depth as nat);
    assert forall|i: int| 0 <= i < here.len() implies a.contains(#[trigger] here[i]) == b.contains(
        here[i],
    ) by {
        assert(here.contains(here[i]));
        assert(is_hop_distance(graph, from, here[i], depth as nat));
        assert(reaches_within(graph, from, here[i], depth as nat));
    }
    lemma_matches_in_agree(here, depth, a, b, here.len());
    if depth > 0 {
        assert forall|s: SectorId| #[trigger]
            reaches_within(graph, from, s, (depth - 1) as nat) implies a.contains(s) == b.contains(
            s,
        ) by {
            let n = choose|n: nat| n <= (depth - 1) as nat && #[trigger] reaches_in(graph, from, s, n);
            assert(n <= depth as nat && reaches_in(graph, from, s, n));
            assert(reaches_within(graph, from, s, depth as nat));
        }
        lemma_found_within_agree(graph, from, a, b, (depth - 1) as u8);
    }
}

/// A sector within `depth` hops lies within fewer or in layer `depth`.
proof fn lemma_within_or_in_layer(graph: &SectorGraph, from: SectorId, sector: SectorId, depth: nat)
    requires
        graph.wf(),
        from < graph.sector_total(),
        reaches_within(graph, from, sector, depth),
    ensures
        (depth > 0 && reaches_within(graph, from, sector, (depth - 1) as nat)) || layer(
            graph,
            from,
            depth,
        ).contains(sector),
{
    let n = choose|n: nat| n <= depth && #[trigger] reaches_in(graph, from, sector, n);
    let least = lemma_hop_distance_exists(graph, from, sector, n);
    lemma_layers(graph, from, depth);
    if least == depth {
        assert(is_hop_distance(graph, from, sector, depth));
    } else {
        assert(least <= depth - 1 && reaches_in(graph, from, sector, least));
    }
}

/// What the results of a region search are, whatever their order within one
/// distance: each is a matching sector with its distance in hops, which is at
/// most `max_range`; every matching sector within `max_range` hops is among
/// them, once; and no result comes before a nearer one.
pub open spec fn is_found(
    graph: &SectorGraph,
    from: SectorId,
    matching: Set<SectorId>,
    max_range: u8,
    results: Seq<SearchResult>,
) -> bool {
    &&& forall|i: int|
        0 <= i < results.len() ==> {
            &&& (#[trigger] results[i]).distance <= max_range
            &&& matching.contains(results[i].sector)
            &&& is_hop_distance(graph, from, results[i].sector, results[i].distance as nat)
        }
    &&& forall|s: SectorId, d: u8|
        d <= max_range && matching.contains(s) && #[trigger] is_hop_distance(
            graph,
            from,
            s,
            d as nat,
        ) ==> results.contains(SearchResult { distance: d, sector: s })
    &&& forall|i: int, j: int|
        0 <= i < j < results.len() ==> (#[trigger] results[i]).distance <= (
        #[trigger] results[j]).distance && results[i].sector != results[j].sector
}

/// The results for a layer without repeats: each is a matching sector of
/// the layer, every matching sector of the layer is among them, and none
/// comes twice.
proof fn lemma_matches_in(layer: Seq<SectorId>, distance: u8, matching: Set<SectorId>, n: nat)
    requires
        n <= layer.len(),
        forall|i: int, j: int| 0 <= i < j < layer.len() ==> layer[i] != layer[j],
    ensures
        forall|i: int|
            0 <= i < matches_in(layer, distance, matching, n).len() ==> {
                let found = #[trigger] matches_in(layer, distance, matching, n)[i];
                &&& found.distance == distance
                &&& matching.contains(found.sector)
                &&& exists|j: int| 0 <= j < n && layer[j] == found.sector
            },
        forall|j: int|
            0 <= j < n && matching.contains(#[trigger] layer[j]) ==> matches_in(
                layer,
                distance,
                matching,
                n,
            ).contains(SearchResult { distance, sector: layer[j] }),
        forall|i: int, j: int|
            0 <= i < j < matches_in(layer, distance, matching, n).len() ==> (#[trigger] matches_in(
                layer,
                distance,
                matching,
                n,
            )[i]).sector != (#[trigger] matches_in(layer, distance, matching, n)[j]).sector,
    decreases n,
{
    if n > 0 {
        let rest = matches_in(layer, distance, matching, (n - 1) as nat);
        let all = matches_in(layer, distance, matching, n);
        lemma_matches_in(layer, distance, matching, (n - 1) as nat);
        assert forall|i: int| 0 <= i < all.len() implies {
            let found = #[trigger] all[i];
            &&& found.distance == distance
            &&& matching.contains(found.sector)
            &&& exists|j: int| 0 <= j < n && layer[j] == found.sector
        } by {
            if i < rest.len() {
                let found = rest[i];
                let j = choose|j: int| 0 <= j < n - 1 && layer[j] == found.sector;
                assert(0 <= j < n && layer[j] == found.sector);
            } else {
                assert(layer[n - 1] == all[i].sector);
            }
        }
        assert forall|j: int| 0 <= j < n && matching.contains(#[trigger] layer[j]) implies all.contains(
            SearchResult { distance, sector: layer[j] },
        ) by {
            let wanted = SearchResult { distance, sector: layer[j] };
            if j < n - 1 {
                let i = choose|i: int| 0 <= i < rest.len() && rest[i] == wanted;
                assert(all[i] == wanted);
            } else {
                assert(all[all.len() - 1] == wanted);
            }
        }
        assert forall|i: int, j: int| 0 <= i < j < all.len() implies (#[trigger] all[i]).sector != (
        #[trigger] all[j]).sector by {
            if j >= rest.len() {
                let found = rest[i];
                let k = choose|k: int| 0 <= k < n - 1 && layer[k] == found.sector;
                assert(layer[k] != layer[n - 1]);
            }
        }
    }
}

/// The results of a region search are what `is_found` asks for.
pub proof fn lemma_found_within(
    graph: &SectorGraph,
    from: SectorId,
    matching: Set<SectorId>,
    depth: u8,
)
    requires
        graph.wf(),
        from < graph.sector_total(),
    ensures
        is_found(graph, from, matching, depth, found_within(graph, from, matching, depth)),
    decreases depth,
{
    let sectors = layer(graph, from, depth as nat);
    let here = matches_in(sectors, depth, matching, sectors.len());
    let all = found_within(graph, from, matching, depth);
    lemma_layers(graph, from, depth as nat);
    lemma_matches_in(sectors, depth, matching, sectors.len());
    assert forall|i: int| 0 <= i < here.len() implies is_hop_distance(
        graph,
        from,
        (#[trigger] here[i]).sector,
        depth as nat,
    ) by {
        let j = choose|j: int| 0 <= j < sectors.len() && sectors[j] == here[i].sector;
        assert(sectors.contains(sectors[j]));
    }
    let before = if depth == 0 {
        Seq::<SearchResult>::empty()
    } else {
        found_within(graph, from, matching, (depth - 1) as u8)
    };
    if depth > 0 {
        lemma_found_within(graph, from, matching, (depth - 1) as u8);
    }
    assert(all =~= before + here);
    assert forall|s: SectorId, d: u8|
        d <= depth && matching.contains(s) && #[trigger] is_hop_distance(
            graph,
            from,
            s,
            d as nat,
        ) implies all.contains(SearchResult { distance: d, sector: s }) by {
        let wanted = SearchResult { distance: d, sector: s };
        if d == depth {
            assert(sectors.contains(s));
            let j = choose|j: int| 0 <= j < sectors.len() && sectors[j] == s;
            assert(here.contains(SearchResult { distance: depth, sector: sectors[j] }));
            let i = choose|i: int| 0 <= i < here.len() && here[i] == wanted;
            assert(all[before.len() + i] == wanted);
        } else {
            let i = choose|i: int| 0 <= i < before.len() && before[i] == wanted;
            assert(all[i] == wanted);
        }
    }
    assert forall|i: int, j: int| 0 <= i < j < all.len() implies (#[trigger] all[i]).distance <= (
    #[trigger] all[j]).distance && all[i].sector != all[j].sector by {
        if i < before.len() && j >= before.len() {
            assert(all[i] == before[i]);
            assert(all[j] == here[j - before.len()]);
            assert(is_hop_distance(graph, from, all[i].sector, all[i].distance as nat));
            assert(is_hop_distance(graph, from, all[j].sector, depth as nat));
        } else if i >= before.len() {
            assert(all[i] == here[i - before.len()]);
            assert(all[j] == here[j - before.len()]);
        } else {
            assert(all[i] == before[i]);
            assert(all[j] == before[j]);
        }
    }
    assert forall|i: int| 0 <= i < all.len() implies {
        &&& (#[trigger] all[i]).distance <= depth
        &&& matching.contains(all[i].sector)
        &&& is_hop_distance(graph, from, all[i].sector, all[i].distance as nat)
    } by {
        if i < before.len() {
            assert(all[i] == before[i]);
        } else {
            assert(all[i] == here[i - before.len()]);
        }
    }
}

/// Whether the predicate has been asked about `sector` by the time the first
/// `n` sectors of layer `depth` have been looked at.
pub open spec fn is_asked(
    graph: &SectorGraph,
    from: SectorId,
    depth: nat,
    n: nat,
    sector: SectorId,
) -> bool {
    ||| depth > 0 && reaches_within(graph, from, sector, (depth - 1) as nat)
    ||| exists|i: int| 0 <= i < n && #[trigger] layer(graph, from, depth)[i] == sector
}

/// The results of the layers before `depth`.
pub open spec fn found_before(
    graph: &SectorGraph,
    from: SectorId,
    matching: Set<SectorId>,
    depth: u8,
) -> Seq<SearchResult> {
    if depth == 0 {
        Seq::empty()
    } else {
        found_within(graph, from, matching, (depth - 1) as u8)
    }
}

/// Performs a breadth-first search on the sectors surrounding `from`, out to
/// `max_range` hops.
///
/// # Returns
/// The sectors of which something is known that satisfies `search_fn`, each
/// with its distance to `from` in hops, ordered by that distance; sectors
/// that are equally far come in the order in which the search met them.
/// `from` itself lies at distance 0. A sector of which `sector_search_data`
/// holds nothing is passed over, and its links are followed all the same.
pub fn surrounding_sector_search<T, TSearchFunction>(
    all_sectors: &SectorGraph,
    from: SectorId,
    max_range: u8,
    sector_search_data: &Vec<Option<T>>,
    search_fn: TSearchFunction,
) -> (result: Vec<SearchResult>) where TSearchFunction: Fn(&T) -> bool
    requires
        all_sectors.wf(),
        from < all_sectors.sector_total(),
        forall|s: SectorId, known: T|
            reaches_within(all_sectors, from, s, max_range as nat) && data_for(
                sector_search_data@,
                s,
            ) == Some(known) ==> call_requires(search_fn, (&known,)),
    ensures
        exists|matching: Set<SectorId>|
            {
                &&& forall|s: SectorId| #[trigger]
                    reaches_within(all_sectors, from, s, max_range as nat) ==> answers(
                        search_fn,
                        sector_search_data@,
                        matching,
                        s,
                    )
                &&& result@ == found_within(all_sectors, from, matching, max_range)
                &&& is_found(all_sectors, from, matching, max_range, result@)
            },
{
    let mut visited = VisitedSet::new();
    visited.insert(from);
    let mut next: Vec<SectorId> = Vec::new();
    next.push(from);
    let mut result: Vec<SearchResult> = Vec::new();
    let ghost mut matching: Set<SectorId> = Set::empty();
    let mut current_depth: u8 = 0;
    proof {
        assert(visited@ =~= set![from]);
        assert(next@ =~= seq![from]);
    }
    loop
        invariant_except_break
            layering_at(all_sectors, from, current_depth as nat) == (Layering {
                seen: visited@,
                layer: next@,
            }),
            result@ == found_before(all_sectors, from, matching, current_depth),
            forall|s: SectorId|
                matching.contains(s) ==> is_asked(all_sectors, from, current_depth as nat, 0, s),
            forall|s: SectorId| #[trigger]
                is_asked(all_sectors, from, current_depth as nat, 0, s) ==> answers(
                    search_fn,
                    sector_search_data@,
                    matching,
                    s,
                ),
        invariant
            all_sectors.wf(),
            from < all_sectors.sector_total(),
            forall|s: SectorId, known: T|
                reaches_within(all_sectors, from, s, max_range as nat) && data_for(
                    sector_search_data@,
                    s,
                ) == Some(known) ==> call_requires(search_fn, (&known,)),
            current_depth <= max_range,
        ensures
            current_depth == max_range,
            result@ == found_within(all_sectors, from, matching, max_range),
            forall|s: SectorId| #[trigger]
                reaches_within(all_sectors, from, s, max_range as nat) ==> answers(
                    search_fn,
                    sector_search_data@,
                    matching,
                    s,
                ),
        decreases max_range - current_depth,
    {
        let ghost start = Layering { seen: visited@, layer: Seq::<SectorId>::empty() };
        let ghost depth = current_depth as nat;
        let mut next_next: Vec<SectorId> = Vec::new();
        let mut n: usize = 0;
        proof {
            lemma_layers(all_sectors, from, depth);
            assert(next_next@ =~= Seq::<SectorId>::empty());
            assert(next@ == layer(all_sectors, from, depth));
        }
        while n < next.len()
            invariant
                all_sectors.wf(),
                from < all_sectors.sector_total(),
                forall|s: SectorId, known: T|
                    reaches_within(all_sectors, from, s, max_range as nat) && data_for(
                        sector_search_data@,
                        s,
                    ) == Some(known) ==> call_requires(search_fn, (&known,)),
                current_depth <= max_range,
                depth == current_depth as nat,
                n <= next.len(),
                next@ == layer(all_sectors, from, depth),
                forall|i: int|
                    0 <= i < next.len() ==> #[trigger] next[i] < all_sectors.sector_total(),
                scan_layer(all_sectors, start, next@, n as nat) == (Layering {
                    seen: visited@,
                    layer: next_next@,
                }),
                result@ == found_before(all_sectors, from, matching, current_depth) + matches_in(
                    next@,
                    current_depth,
                    matching,
                    n as nat,
                ),
                forall|s: SectorId|
                    matching.contains(s) ==> is_asked(all_sectors, from, depth, n as nat, s),
                forall|s: SectorId| #[trigger]
                    is_asked(all_sectors, from, depth, n as nat, s) ==> answers(
                        search_fn,
                        sector_search_data@,
                        matching,
                        s,
                    ),
            decreases next.len() - n,
        {
            let sector_entity = next[n];
            let ghost asked_before = matching;
            let ghost found_so_far = result@;
            proof {
                // The predicate has not been asked about this sector yet.
                if is_asked(all_sectors, from, depth, n as nat, sector_entity) {
                    lemma_layers(all_sectors, from, depth);
                    assert(next@.contains(next@[n as int]));
                    assert(is_hop_distance(all_sectors, from, sector_entity, depth));
                    if depth > 0 && reaches_within(
                        all_sectors,
                        from,
                        sector_entity,
                        (depth - 1) as nat,
                    ) {
                        let m = choose|m: nat|
                            m <= (depth - 1) as nat && #[trigger] reaches_in(
                                all_sectors,
                                from,
                                sector_entity,
                                m,
                            );
                        assert(false);
                    } else {
                        let i = choose|i: int|
                            0 <= i < n && #[trigger] layer(all_sectors, from, depth)[i]
                                == sector_entity;
                        lemma_layers_are_apart(all_sectors, from, depth, i, depth, n as int);
                    }
                }
                assert(!matching.contains(sector_entity));
                lemma_layers(all_sectors, from, depth);
                assert(next@.contains(next@[n as int]));
                assert(is_hop_distance(all_sectors, from, sector_entity, depth));
                assert(reaches_in(all_sectors, from, sector_entity, depth));
                assert(reaches_within(all_sectors, from, sector_entity, max_range as nat));
            }
            let mut matched = false;
            if sector_entity < sector_search_data.len() {
                if let Some(search_components) = &sector_search_data[sector_entity] {
                    assert(data_for(sector_search_data@, sector_entity) == Some(
                        *search_components,
                    ));
                    if search_fn(search_components) {
                        matched = true;
                    }
                }
            }
            if matched {
                result.push(SearchResult { distance: current_depth, sector: sector_entity });
                proof {
                    matching = matching.insert(sector_entity);
                }
            }
            proof {
                assert(answers(search_fn, sector_search_data@, matching, sector_entity));
                assert forall|s: SectorId|
                    matching.contains(s) implies is_asked(
                    all_sectors,
                    from,
                    depth,
                    (n + 1) as nat,
                    s,
                ) by {
                    if s == sector_entity {
                        assert(layer(all_sectors, from, depth)[n as int] == s);
                    } else {
                        assert(is_asked(all_sectors, from, depth, n as nat, s));
                        if !(depth > 0 && reaches_within(all_sectors, from, s, (depth - 1) as nat)) {
                            let i = choose|i: int|
                                0 <= i < n && #[trigger] layer(all_sectors, from, depth)[i] == s;
                            assert(0 <= i < n + 1 && layer(all_sectors, from, depth)[i] == s);
                        }
                    }
                }
                assert forall|s: SectorId| #[trigger]
                    is_asked(all_sectors, from, depth, (n + 1) as nat, s) implies answers(
                    search_fn,
                    sector_search_data@,
                    matching,
                    s,
                ) by {
                    if s != sector_entity {
                        if !(depth > 0 && reaches_within(all_sectors, from, s, (depth - 1) as nat)) {
                            let i = choose|i: int|
                                0 <= i < n + 1 && #[trigger] layer(all_sectors, from, depth)[i]
                                    == s;
                            assert(0 <= i < n && layer(all_sectors, from, depth)[i] == s);
                        }
                        assert(is_asked(all_sectors, from, depth, n as nat, s));
                        assert(answers(search_fn, sector_search_data@, asked_before, s));
                    }
                }
                if current_depth > 0 {
                    assert forall|s: SectorId| #[trigger]
                        reaches_within(
                            all_sectors,
                            from,
                            s,
                            (current_depth - 1) as nat,
                        ) implies asked_before.contains(s) == matching.contains(s) by {
                        assert(is_asked(all_sectors, from, depth, n as nat, s));
                    }
                    lemma_found_within_agree(
                        all_sectors,
                        from,
                        asked_before,
                        matching,
                        (current_depth - 1) as u8,
                    );
                }
                assert forall|i: int| 0 <= i < n implies asked_before.contains(#[trigger] next@[i])
                    == matching.contains(next@[i]) by {
                    assert(layer(all_sectors, from, depth)[i] == next@[i]);
                    assert(is_asked(all_sectors, from, depth, n as nat, next@[i]));
                }
                lemma_matches_in_agree(next@, current_depth, asked_before, matching, n as nat);
            }
            let links = all_sectors.links_of(sector_entity);
            let ghost scanned = Layering { seen: visited@, layer: next_next@ };
            let mut k: usize = 0;
            while k < links.len()
                invariant
                    k <= links.len(),
                    links@ == all_sectors.links(sector_entity),
                    scan_links(all_sectors, scanned, sector_entity, k as nat) == (Layering {
                        seen: visited@,
                        layer: next_next@,
                    }),
                decreases links.len() - k,
            {
                let to_sector = links[k].exit_sector;
                if !visited.contains(&to_sector) {
                    visited.insert(to_sector);
                    next_next.push(to_sector);
                }
                k = k + 1;
            }
            n = n + 1;
        }
        proof {
            assert(layering_at(all_sectors, from, depth + 1) == (Layering {
                seen: visited@,
                layer: next_next@,
            }));
            assert forall|s: SectorId| #[trigger]
                reaches_within(all_sectors, from, s, depth) implies answers(
                search_fn,
                sector_search_data@,
                matching,
                s,
            ) by {
                lemma_within_or_in_layer(all_sectors, from, s, depth);
                if !(depth > 0 && reaches_within(all_sectors, from, s, (depth - 1) as nat)) {
                    let i = choose|i: int| 0 <= i < next@.len() && next@[i] == s;
                    assert(layer(all_sectors, from, depth)[i] == s);
                }
                assert(is_asked(all_sectors, from, depth, n as nat, s));
            }
            assert forall|s: SectorId| matching.contains(s) implies reaches_within(
                all_sectors,
                from,
                s,
                depth,
            ) by {
                assert(is_asked(all_sectors, from, depth, n as nat, s));
                if depth > 0 && reaches_within(all_sectors, from, s, (depth - 1) as nat) {
                    let m = choose|m: nat|
                        m <= (depth - 1) as nat && #[trigger] reaches_in(all_sectors, from, s, m);
                    assert(m <= depth && reaches_in(all_sectors, from, s, m));
                } else {
                    let i = choose|i: int|
                        0 <= i < n && #[trigger] layer(all_sectors, from, depth)[i] == s;
                    assert(layer(all_sectors, from, depth).contains(s));
                    assert(is_hop_distance(all_sectors, from, s, depth));
                    assert(reaches_in(all_sectors, from, s, depth));
                }
            }
        }
        if current_depth == max_range {
            break ;
        }
        next = next_next;
        current_depth = current_depth + 1;
    }
    proof {
        lemma_found_within(all_sectors, from, matching, max_range);
    }
    result
}

} // verus!
