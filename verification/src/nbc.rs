//! Growing clusters from dense points: what the labelling of a point set is,
//! and the functions that compute it.

use crate::distance::DistanceTable;
use crate::neighbourhood::{
    calculate_ndf, calculate_neighbourhood, densities, listed, lists, near, neighbour_lists,
    reverse_sets, rows, sets, Density, Knb, Ndf, RowId,
};
use std::collections::BTreeMap;
use vstd::prelude::*;

verus! {

/// Label of a point that no cluster has reached.
pub const UNCLASSIFIED: i32 = -1;

/// `p` has a density factor, and it is at least one.
pub open spec fn dense_at(ndf: Map<RowId, Density>, p: RowId) -> bool {
    ndf.contains_key(p) && ndf[p].dense()
}

/// Both maps have an entry for each of the `n` points and for nothing else,
/// and every near neighbour is one of the points.
pub open spec fn describes(n: int, knb: Map<RowId, Seq<RowId>>, ndf: Map<RowId, Density>) -> bool {
    &&& knb.dom() == rows(n)
    &&& ndf.dom() == rows(n)
    &&& forall|i: RowId, p: RowId| #[trigger] near(knb, i, p) ==> 0 <= p < n
}

/// `p` is still unclassified under `labels` and lies outside the seed's own
/// neighbourhood: a growing cluster may take it, but only by spreading.
pub open spec fn open_to(
    knb: Map<RowId, Seq<RowId>>,
    labels: Map<RowId, i32>,
    seed: RowId,
    p: RowId,
) -> bool {
    &&& labels.contains_key(p)
    &&& labels[p] == UNCLASSIFIED
    &&& p != seed
    &&& !near(knb, seed, p)
}

/// The cluster seeded at `seed` spreads to `p` in at most `hops` steps: `p`
/// is open, and it is a near neighbour of a dense point `d` that is either a
/// near neighbour of the seed or was itself reached in fewer steps.
pub open spec fn spreads_to(
    knb: Map<RowId, Seq<RowId>>,
    ndf: Map<RowId, Density>,
    labels: Map<RowId, i32>,
    seed: RowId,
    p: RowId,
    hops: nat,
) -> bool
    decreases hops,
{
    &&& hops > 0
    &&& open_to(knb, labels, seed, p)
    &&& exists|d: RowId|
        #[trigger] near(knb, d, p) && dense_at(ndf, d) && (near(knb, seed, d) || spreads_to(
            knb,
            ndf,
            labels,
            seed,
            d,
            (hops - 1) as nat,
        ))
}

/// `p` belongs to the cluster seeded at `seed`: it is the seed, one of the
/// seed's near neighbours, or an open point that the cluster spreads to.
pub open spec fn joins(
    knb: Map<RowId, Seq<RowId>>,
    ndf: Map<RowId, Density>,
    labels: Map<RowId, i32>,
    seed: RowId,
    p: RowId,
) -> bool {
    ||| p == seed
    ||| near(knb, seed, p)
    ||| exists|hops: nat| spreads_to(knb, ndf, labels, seed, p, hops)
}

/// The labelling after a cluster with the id `id` was seeded at `seed`:
/// every point that joins the cluster carries `id`, whatever it carried
/// before, and every other point keeps its label.
pub open spec fn grow(
    knb: Map<RowId, Seq<RowId>>,
    ndf: Map<RowId, Density>,
    labels: Map<RowId, i32>,
    seed: RowId,
    id: i32,
) -> Map<RowId, i32> {
    Map::new(
        |p: RowId| labels.contains_key(p),
        |p: RowId|
            if joins(knb, ndf, labels, seed, p) {
                id
            } else {
                labels[p]
            },
    )
}

/// The labelling, and the number of clusters seeded, after the points
/// `0 .. upto` had their turn in ascending order. A point seeds a cluster at
/// its turn if it is dense and still unclassified; the cluster takes the
/// number of clusters seeded before it as its id.
pub open spec fn clustered(
    knb: Map<RowId, Seq<RowId>>,
    ndf: Map<RowId, Density>,
    n: int,
    upto: int,
) -> (Map<RowId, i32>, int)
    decreases upto,
{
    if upto <= 0 {
        (Map::new(|r: RowId| 0 <= r < n, |r: RowId| UNCLASSIFIED), 0)
    } else {
        let (labels, count) = clustered(knb, ndf, n, upto - 1);
        let seed = (upto - 1) as RowId;
        if labels[seed] == UNCLASSIFIED && dense_at(ndf, seed) {
            (grow(knb, ndf, labels, seed, count as i32), count + 1)
        } else {
            (labels, count)
        }
    }
}

/// Whether the point `row_id` carries a cluster id.
pub fn has_cluster(row_id: RowId, clusters: &BTreeMap<RowId, i32>) -> (assigned: bool)
    requires
        clusters@.contains_key(row_id),
    ensures
        assigned == (clusters@[row_id] != UNCLASSIFIED),
{
    let label = clusters.get(&row_id).unwrap();
    *label != UNCLASSIFIED
}

/// Whether the density factor of the point `row_id` is at least one.
pub fn is_dense_point(row_id: &RowId, ndf: &Ndf) -> (dense: bool)
    requires
        ndf@.contains_key(*row_id),
    ensures
        dense == dense_at(ndf@, *row_id),
{
    ndf.get(row_id).unwrap().is_dense()
}

/// A labelling of `points` points in which no point carries a cluster id.
fn unclassified(points: usize) -> (clusters: BTreeMap<RowId, i32>)
    requires
        points <= i32::MAX,
    ensures
        clusters@ == Map::new(|r: RowId| 0 <= r < points, |r: RowId| UNCLASSIFIED),
{
    let mut clusters: BTreeMap<RowId, i32> = BTreeMap::new();
    let mut point: usize = 0;
    while point < points
        invariant
            point <= points <= i32::MAX,
            clusters@ == Map::new(|r: RowId| 0 <= r < point, |r: RowId| UNCLASSIFIED),
        decreases points - point,
    {
        clusters.insert(point as RowId, UNCLASSIFIED);
        point += 1;
    }
    clusters
}

/// How many of the points `0 .. n` are unclassified under `labels`.
spec fn pending(labels: Map<RowId, i32>, n: int) -> nat
    decreases n,
{
    if n <= 0 {
        0
    } else if labels[(n - 1) as RowId] == UNCLASSIFIED {
        pending(labels, n - 1) + 1
    } else {
        pending(labels, n - 1)
    }
}

/// Classifying one unclassified point leaves one fewer pending.
proof fn lemma_pending_drops(labels: Map<RowId, i32>, n: int, p: RowId, id: i32)
    requires
        0 <= n <= i32::MAX,
        id != UNCLASSIFIED,
        labels[p] == UNCLASSIFIED,
    ensures
        pending(labels.insert(p, id), n) == pending(labels, n) - if 0 <= p < n {
            1int
        } else {
            0int
        },
    decreases n,
{
    if n > 0 {
        lemma_pending_drops(labels, n - 1, p, id);
    }
}

/// While a cluster grows from `seed`: `now` agrees with the final labelling
/// on the seed, on its near neighbours and on every point that was
/// classified `before`; an open point is unclassified or was reached.
spec fn underway(
    knb: Map<RowId, Seq<RowId>>,
    ndf: Map<RowId, Density>,
    before: Map<RowId, i32>,
    now: Map<RowId, i32>,
    seed: RowId,
    id: i32,
) -> bool {
    &&& now.dom() == before.dom()
    &&& forall|p: RowId| #[trigger]
        now.contains_key(p) ==> if p == seed || near(knb, seed, p) {
            now[p] == id
        } else if before[p] != UNCLASSIFIED {
            now[p] == before[p]
        } else {
            now[p] == UNCLASSIFIED || (now[p] == id && exists|hops: nat|
                spreads_to(knb, ndf, before, seed, p, hops))
        }
}

/// A dense point of the growing cluster: the cluster spreads on from it.
spec fn carrier(
    knb: Map<RowId, Seq<RowId>>,
    ndf: Map<RowId, Density>,
    before: Map<RowId, i32>,
    now: Map<RowId, i32>,
    seed: RowId,
    id: i32,
    d: RowId,
) -> bool {
    &&& dense_at(ndf, d)
    &&& near(knb, seed, d) || (open_to(knb, before, seed, d) && now[d] == id)
}

/// All near neighbours of `d` are classified.
spec fn settled(knb: Map<RowId, Seq<RowId>>, now: Map<RowId, i32>, d: RowId) -> bool {
    forall|m: RowId| #[trigger] near(knb, d, m) ==> now[m] != UNCLASSIFIED
}

/// Once every carrier is settled, the cluster holds every point it spreads to.
proof fn lemma_spread_complete(
    knb: Map<RowId, Seq<RowId>>,
    ndf: Map<RowId, Density>,
    before: Map<RowId, i32>,
    now: Map<RowId, i32>,
    seed: RowId,
    id: i32,
    p: RowId,
    hops: nat,
)
    requires
        id != UNCLASSIFIED,
        underway(knb, ndf, before, now, seed, id),
        forall|d: RowId| #[trigger]
            carrier(knb, ndf, before, now, seed, id, d) ==> settled(knb, now, d),
        spreads_to(knb, ndf, before, seed, p, hops),
    ensures
        now[p] == id,
    decreases hops,
{
    let d = choose|d: RowId|
        #[trigger] near(knb, d, p) && dense_at(ndf, d) && (near(knb, seed, d) || spreads_to(
            knb,
            ndf,
            before,
            seed,
            d,
            (hops - 1) as nat,
        ));
    if !near(knb, seed, d) {
        lemma_spread_complete(knb, ndf, before, now, seed, id, d, (hops - 1) as nat);
    }
    assert(carrier(knb, ndf, before, now, seed, id, d));
}

/// Seeds the cluster `id` at the point `seed` and lets it grow: the seed and
/// its near neighbours take the id whatever they carried, and from each dense
/// point of the cluster the id passes to its unclassified near neighbours.
fn seed_cluster(
    clusters: &mut BTreeMap<RowId, i32>,
    points: usize,
    knb: &Knb,
    ndf: &Ndf,
    seed: RowId,
    id: i32,
)
    requires
        points <= i32::MAX,
        describes(points as int, lists(knb@), ndf@),
        old(clusters)@.dom() == rows(points as int),
        0 <= seed < points,
        id != UNCLASSIFIED,
    ensures
        final(clusters)@ == grow(lists(knb@), ndf@, old(clusters)@, seed, id),
{
    let ghost before = clusters@;
    let ghost graph = lists(knb@);
    let ghost n = points as int;
    clusters.insert(seed, id);
    let mut dense_points: Vec<RowId> = Vec::new();
    let neighbours = knb.get(&seed).unwrap();
    let mut t: usize = 0;
    // The near neighbours of the seed join, classified or not.
    while t < neighbours.len()
        invariant
            t <= neighbours.len(),
            n == points <= i32::MAX,
            graph == lists(knb@),
            describes(n, graph, ndf@),
            before.dom() == rows(n),
            0 <= seed < n,
            id != UNCLASSIFIED,
            graph[seed] == neighbours@,
            clusters@.dom() == before.dom(),
            forall|p: RowId| #[trigger]
                clusters@.contains_key(p) ==> clusters@[p] == if p == seed || listed(
                    neighbours@,
                    t as int,
                    p,
                ) {
                    id
                } else {
                    before[p]
                },
            forall|s: int|
                0 <= s < dense_points@.len() ==> dense_at(ndf@, #[trigger] dense_points@[s])
                    && near(graph, seed, dense_points@[s]),
            forall|s: int|
                0 <= s < t && dense_at(ndf@, #[trigger] neighbours@[s])
                    ==> dense_points@.contains(neighbours@[s]),
        decreases neighbours.len() - t,
    {
        let neighbour = neighbours[t];
        assert(near(graph, seed, neighbour));
        clusters.insert(neighbour, id);
        if is_dense_point(&neighbour, ndf) {
            let ghost stack_prior = dense_points@;
            dense_points.push(neighbour);
            assert(dense_points@.last() == neighbour);
            assert forall|s: int|
                0 <= s < t + 1 && dense_at(ndf@, #[trigger] neighbours@[s])
                implies dense_points@.contains(neighbours@[s]) by {
                if s < t {
                    let w = choose|w: int|
                        0 <= w < stack_prior.len() && stack_prior[w] == neighbours@[s];
                    assert(dense_points@[w] == neighbours@[s]);
                }
            }
        }
        t += 1;
    }
    // The cluster spreads. Each turn either classifies a point or shortens
    // the stack, so the turns come to an end.
    while !dense_points.is_empty()
        invariant
            n == points <= i32::MAX,
            graph == lists(knb@),
            describes(n, graph, ndf@),
            before.dom() == rows(n),
            0 <= seed < n,
            id != UNCLASSIFIED,
            underway(graph, ndf@, before, clusters@, seed, id),
            forall|s: int|
                0 <= s < dense_points@.len() ==> carrier(
                    graph,
                    ndf@,
                    before,
                    clusters@,
                    seed,
                    id,
                    #[trigger] dense_points@[s],
                ),
            forall|d: RowId| #[trigger]
                carrier(graph, ndf@, before, clusters@, seed, id, d)
                    ==> dense_points@.contains(d) || settled(graph, clusters@, d),
        decreases pending(clusters@, n), dense_points@.len(),
    {
        let ghost at_pop = clusters@;
        let ghost len_at_pop = dense_points@.len();
        let ghost stack_before = dense_points@;
        let dp = dense_points.pop().unwrap();
        let around = knb.get(&dp).unwrap();
        let mut t: usize = 0;
        assert forall|d: RowId| #[trigger]
            carrier(graph, ndf@, before, clusters@, seed, id, d)
            implies dense_points@.contains(d) || settled(graph, clusters@, d) || d == dp by {
            if stack_before.contains(d) && d != dp {
                let w = choose|w: int| 0 <= w < stack_before.len() && stack_before[w] == d;
                assert(dense_points@[w] == d);
            }
        }
        while t < around.len()
            invariant
                t <= around.len(),
                n == points <= i32::MAX,
                graph == lists(knb@),
                describes(n, graph, ndf@),
                before.dom() == rows(n),
                0 <= seed < n,
                id != UNCLASSIFIED,
                graph.contains_key(dp),
                graph[dp] == around@,
                carrier(graph, ndf@, before, clusters@, seed, id, dp),
                underway(graph, ndf@, before, clusters@, seed, id),
                forall|s: int|
                    0 <= s < dense_points@.len() ==> carrier(
                        graph,
                        ndf@,
                        before,
                        clusters@,
                        seed,
                        id,
                        #[trigger] dense_points@[s],
                    ),
                forall|d: RowId| #[trigger]
                    carrier(graph, ndf@, before, clusters@, seed, id, d)
                        ==> dense_points@.contains(d) || settled(graph, clusters@, d) || d == dp,
                forall|s: int| 0 <= s < t ==> clusters@[#[trigger] around@[s]] != UNCLASSIFIED,
                pending(clusters@, n) <= pending(at_pop, n),
                pending(clusters@, n) + dense_points@.len() <= pending(at_pop, n) + len_at_pop
                    - 1,
            decreases around.len() - t,
        {
            let neighbour = around[t];
            assert(near(graph, dp, neighbour));
            assert(clusters@.contains_key(neighbour));
            if !has_cluster(neighbour, clusters) {
                let ghost prior = clusters@;
                let ghost stack_prior = dense_points@;
                proof {
                    lemma_pending_drops(prior, n, neighbour, id);
                    // The cluster spreads to `neighbour` by way of `dp`.
                    if near(graph, seed, dp) {
                        assert(spreads_to(graph, ndf@, before, seed, neighbour, 1));
                    } else {
                        let h = choose|h: nat| spreads_to(graph, ndf@, before, seed, dp, h);
                        assert(spreads_to(graph, ndf@, before, seed, neighbour, h + 1));
                    }
                }
                clusters.insert(neighbour, id);
                if is_dense_point(&neighbour, ndf) {
                    dense_points.push(neighbour);
                }
                assert(underway(graph, ndf@, before, clusters@, seed, id)) by {
                    assert(clusters@.dom() =~= before.dom());
                }
                assert forall|d: RowId| #[trigger]
                    carrier(graph, ndf@, before, clusters@, seed, id, d)
                    implies dense_points@.contains(d) || settled(graph, clusters@, d) || d
                    == dp by {
                    if d == neighbour && !near(graph, seed, d) {
                        assert(dense_points@.last() == d);
                    }
                    if carrier(graph, ndf@, before, prior, seed, id, d) {
                        if stack_prior.contains(d) {
                            let w = choose|w: int|
                                0 <= w < stack_prior.len() && stack_prior[w] == d;
                            assert(dense_points@[w] == d);
                        } else if settled(graph, prior, d) {
                            assert(settled(graph, clusters@, d));
                        }
                    }
                }
            }
            t += 1;
        }
    }
    // Every carrier is settled now, so the cluster holds all it spreads to.
    assert(clusters@ =~= grow(graph, ndf@, before, seed, id)) by {
        assert forall|p: RowId| #[trigger] clusters@.contains_key(p) implies clusters@[p] == grow(
            graph,
            ndf@,
            before,
            seed,
            id,
        )[p] by {
            if p != seed && !near(graph, seed, p) && exists|hops: nat|
                spreads_to(graph, ndf@, before, seed, p, hops) {
                let hops = choose|hops: nat| spreads_to(graph, ndf@, before, seed, p, hops);
                lemma_spread_complete(graph, ndf@, before, clusters@, seed, id, p, hops);
            }
        }
    }
}

/// After the first `upto` turns every point has exactly one label, which is
/// `UNCLASSIFIED` or the id of one of the clusters seeded so far, and no more
/// clusters were seeded than turns were taken.
pub proof fn lemma_clustered_labels(
    knb: Map<RowId, Seq<RowId>>,
    ndf: Map<RowId, Density>,
    n: int,
    upto: int,
)
    requires
        0 <= upto <= i32::MAX,
    ensures
        clustered(knb, ndf, n, upto).0.dom() == rows(n),
        0 <= clustered(knb, ndf, n, upto).1 <= upto,
        forall|p: RowId|
            0 <= p < n ==> UNCLASSIFIED <= #[trigger] clustered(knb, ndf, n, upto).0[p]
                < clustered(knb, ndf, n, upto).1,
    decreases upto,
{
    if upto > 0 {
        lemma_clustered_labels(knb, ndf, n, upto - 1);
    }
}

/// Point `s` seeds a cluster: at its turn it is dense and unclassified.
pub open spec fn seeds(
    knb: Map<RowId, Seq<RowId>>,
    ndf: Map<RowId, Density>,
    n: int,
    s: RowId,
) -> bool {
    &&& 0 <= s < n
    &&& clustered(knb, ndf, n, s as int).0[s] == UNCLASSIFIED
    &&& dense_at(ndf, s)
}

/// The cluster seeded at `s` holds on to `p`: `p` joins it, and no point
/// that seeds a cluster later has `p` as a near neighbour.
pub open spec fn holds_on_to(
    knb: Map<RowId, Seq<RowId>>,
    ndf: Map<RowId, Density>,
    n: int,
    s: RowId,
    p: RowId,
) -> bool {
    &&& 0 <= p < n
    &&& joins(knb, ndf, clustered(knb, ndf, n, s as int).0, s, p)
    &&& forall|u: RowId| s < u < n && #[trigger] seeds(knb, ndf, n, u) ==> !near(knb, u, p)
}

/// Cluster ids are given out in the order of the seeds, none twice and none
/// left out: each id below the number of clusters seeded so far belongs to
/// a point that seeded a cluster, and was the number of clusters seeded
/// before that point's turn.
pub proof fn lemma_every_id_seeded(
    knb: Map<RowId, Seq<RowId>>,
    ndf: Map<RowId, Density>,
    n: int,
    upto: int,
    id: int,
)
    requires
        0 <= upto <= n <= i32::MAX,
        0 <= id < clustered(knb, ndf, n, upto).1,
    ensures
        exists|s: RowId|
            s < upto && #[trigger] seeds(knb, ndf, n, s) && clustered(knb, ndf, n, s as int).1
                == id,
    decreases upto,
{
    if upto > 0 {
        let s = (upto - 1) as RowId;
        if id < clustered(knb, ndf, n, upto - 1).1 {
            lemma_every_id_seeded(knb, ndf, n, upto - 1, id);
        } else {
            assert(seeds(knb, ndf, n, s));
        }
    }
}

/// A classified point keeps its label for as long as no point that seeds a
/// cluster has it as a near neighbour.
pub proof fn lemma_label_kept(
    knb: Map<RowId, Seq<RowId>>,
    ndf: Map<RowId, Density>,
    n: int,
    p: RowId,
    from: int,
    upto: int,
)
    requires
        0 <= from <= upto <= n <= i32::MAX,
        0 <= p < n,
        clustered(knb, ndf, n, from).0[p] != UNCLASSIFIED,
        forall|u: RowId| from <= u < upto && #[trigger] seeds(knb, ndf, n, u) ==> !near(knb, u, p),
    ensures
        clustered(knb, ndf, n, upto).0[p] == clustered(knb, ndf, n, from).0[p],
    decreases upto,
{
    if upto > from {
        lemma_label_kept(knb, ndf, n, p, from, upto - 1);
        lemma_clustered_labels(knb, ndf, n, upto - 1);
        let u = (upto - 1) as RowId;
        if seeds(knb, ndf, n, u) {
        }
    }
}

/// A point that a later seed has as a near neighbour passes to the cluster
/// of that seed, whatever it carried before.
pub proof fn lemma_label_taken(
    knb: Map<RowId, Seq<RowId>>,
    ndf: Map<RowId, Density>,
    n: int,
    p: RowId,
    u: RowId,
)
    requires
        0 <= n <= i32::MAX,
        0 <= p < n,
        seeds(knb, ndf, n, u),
        near(knb, u, p),
    ensures
        clustered(knb, ndf, n, u + 1).0[p] == clustered(knb, ndf, n, u as int).1,
{
    lemma_clustered_labels(knb, ndf, n, u as int);
}

/// Over the turns `from .. upto` the number of clusters does not shrink, and
/// a label changes only into the id of a cluster seeded in those turns.
pub proof fn lemma_label_changes_forward(
    knb: Map<RowId, Seq<RowId>>,
    ndf: Map<RowId, Density>,
    n: int,
    p: RowId,
    from: int,
    upto: int,
)
    requires
        0 <= from <= upto <= n <= i32::MAX,
        0 <= p < n,
    ensures
        clustered(knb, ndf, n, from).1 <= clustered(knb, ndf, n, upto).1,
        clustered(knb, ndf, n, upto).0[p] == clustered(knb, ndf, n, from).0[p] || clustered(
            knb,
            ndf,
            n,
            from,
        ).1 <= clustered(knb, ndf, n, upto).0[p],
    decreases upto,
{
    if upto > from {
        lemma_label_changes_forward(knb, ndf, n, p, from, upto - 1);
        lemma_clustered_labels(knb, ndf, n, upto - 1);
    }
}

/// A point is unclassified after the first `upto` turns exactly if none of
/// the clusters seeded in those turns was joined by it. So a point that a
/// cluster has once taken is never unclassified again.
pub proof fn lemma_unclassified_is_unreached(
    knb: Map<RowId, Seq<RowId>>,
    ndf: Map<RowId, Density>,
    n: int,
    p: RowId,
    upto: int,
)
    requires
        0 <= upto <= n <= i32::MAX,
        0 <= p < n,
    ensures
        clustered(knb, ndf, n, upto).0[p] == UNCLASSIFIED <==> forall|u: RowId|
            u < upto && #[trigger] seeds(knb, ndf, n, u) ==> !joins(
                knb,
                ndf,
                clustered(knb, ndf, n, u as int).0,
                u,
                p,
            ),
    decreases upto,
{
    if upto > 0 {
        lemma_unclassified_is_unreached(knb, ndf, n, p, upto - 1);
        lemma_clustered_labels(knb, ndf, n, upto - 1);
        let last = (upto - 1) as RowId;
        let before = clustered(knb, ndf, n, upto - 1).0;
        if before[p] != UNCLASSIFIED {
            lemma_label_changes_forward(knb, ndf, n, p, upto - 1, upto);
            let u = choose|u: RowId|
                u < upto - 1 && #[trigger] seeds(knb, ndf, n, u) && joins(
                    knb,
                    ndf,
                    clustered(knb, ndf, n, u as int).0,
                    u,
                    p,
                );
            assert(u < upto && seeds(knb, ndf, n, u));
        } else if seeds(knb, ndf, n, last) && joins(knb, ndf, before, last, p) {
            assert(last < upto && seeds(knb, ndf, n, last));
        }
    }
}

/// The id of a cluster labels a point in the final labelling exactly if the
/// cluster holds on to that point.
pub proof fn lemma_id_in_use(
    knb: Map<RowId, Seq<RowId>>,
    ndf: Map<RowId, Density>,
    n: int,
    s: RowId,
    p: RowId,
)
    requires
        0 <= n <= i32::MAX,
        seeds(knb, ndf, n, s),
        0 <= p < n,
    ensures
        clustered(knb, ndf, n, n).0[p] == clustered(knb, ndf, n, s as int).1 <==> holds_on_to(
            knb,
            ndf,
            n,
            s,
            p,
        ),
{
    let id = clustered(knb, ndf, n, s as int).1;
    lemma_clustered_labels(knb, ndf, n, s as int);
    lemma_label_changes_forward(knb, ndf, n, p, s + 1, n);
    if holds_on_to(knb, ndf, n, s, p) {
        lemma_label_kept(knb, ndf, n, p, s + 1, n);
    }
    if clustered(knb, ndf, n, n).0[p] == id {
        assert forall|u: RowId| s < u < n && #[trigger] seeds(knb, ndf, n, u) implies !near(
            knb,
            u,
            p,
        ) by {
            if near(knb, u, p) {
                lemma_label_taken(knb, ndf, n, p, u);
                lemma_label_changes_forward(knb, ndf, n, p, s + 1, u as int);
                lemma_label_changes_forward(knb, ndf, n, p, u + 1, n);
            }
        }
    }
}

/// The cluster ids in the final labelling are `0`, `1`, and so on without a
/// gap, provided that every cluster holds on to one of its points. (A
/// cluster whose points all pass to later clusters leaves its id unused.)
pub proof fn lemma_ids_without_gaps(
    knb: Map<RowId, Seq<RowId>>,
    ndf: Map<RowId, Density>,
    n: int,
    id: int,
)
    requires
        0 <= n <= i32::MAX,
        forall|s: RowId| #[trigger]
            seeds(knb, ndf, n, s) ==> exists|p: RowId| holds_on_to(knb, ndf, n, s, p),
        0 <= id < clustered(knb, ndf, n, n).1,
    ensures
        exists|p: RowId| 0 <= p < n && #[trigger] clustered(knb, ndf, n, n).0[p] == id,
{
    lemma_every_id_seeded(knb, ndf, n, n, id);
    let s = choose|s: RowId|
        s < n && #[trigger] seeds(knb, ndf, n, s) && clustered(knb, ndf, n, s as int).1 == id;
    let p = choose|p: RowId| holds_on_to(knb, ndf, n, s, p);
    lemma_clustered_labels(knb, ndf, n, s as int);
    lemma_label_kept(knb, ndf, n, p, s + 1, n);
}

/// Grows the clusters of a point set from its neighbour map and its density
/// factors. The points take their turn in ascending order. A point that is
/// dense and unclassified at its turn seeds the next cluster, which takes
/// the seed and its near neighbours, classified or not, and then spreads from
/// its dense points to their unclassified near neighbours. A point that no
/// cluster reaches stays `UNCLASSIFIED`.
pub fn expand_clusters(points: usize, knb: &Knb, ndf: &Ndf) -> (clusters: BTreeMap<RowId, i32>)
    requires
        points <= i32::MAX,
        describes(points as int, lists(knb@), ndf@),
    ensures
        clusters@ == clustered(lists(knb@), ndf@, points as int, points as int).0,
        clusters@.dom() == rows(points as int),
        forall|p: RowId|
            0 <= p < points ==> UNCLASSIFIED <= #[trigger] clusters@[p] < clustered(
                lists(knb@),
                ndf@,
                points as int,
                points as int,
            ).1,
{
    let ghost n = points as int;
    let mut clusters = unclassified(points);
    let mut current_cluster_id: i32 = 0;
    let mut row: usize = 0;
    while row < points
        invariant
            row <= points <= i32::MAX,
            n == points,
            describes(n, lists(knb@), ndf@),
            clusters@ == clustered(lists(knb@), ndf@, n, row as int).0,
            current_cluster_id == clustered(lists(knb@), ndf@, n, row as int).1,
        decreases points - row,
    {
        proof {
            lemma_clustered_labels(lists(knb@), ndf@, n, row as int);
        }
        let row_id = row as RowId;
        if !has_cluster(row_id, &clusters) && is_dense_point(&row_id, ndf) {
            seed_cluster(&mut clusters, points, knb, ndf, row_id, current_cluster_id);
            current_cluster_id += 1;
        }
        row += 1;
    }
    proof {
        lemma_clustered_labels(lists(knb@), ndf@, n, n);
    }
    clusters
}

/// The labelling of the points with the distances `d`, and the number of
/// clusters seeded for it: what the growth of clusters yields on the
/// neighbourhood of the points and its density factors.
pub open spec fn nbc_clustering(d: Seq<Seq<u64>>, k: int) -> (Map<RowId, i32>, int) {
    clustered(
        neighbour_lists(d, k),
        densities(neighbour_lists(d, k), reverse_sets(d, k)),
        d.len() as int,
        d.len() as int,
    )
}

/// Clusters the points with the given distances. Each point has the `k`
/// nearest of the other points, and all that tie with the `k`-th of them, as
/// its near neighbours; it is dense if at least as many points chose it as it
/// chose itself; and clusters grow from the dense points, in ascending order
/// of the points, as `expand_clusters` describes. The result holds for each
/// point the id of its cluster, or `UNCLASSIFIED`.
pub fn nbc(distances: &DistanceTable, k: i32) -> (clusters: BTreeMap<RowId, i32>)
    requires
        1 <= k < distances@.len(),
    ensures
        clusters@ == nbc_clustering(distances@, k as int).0,
        clusters@.dom() == rows(distances@.len() as int),
        forall|p: RowId|
            0 <= p < distances@.len() ==> UNCLASSIFIED <= #[trigger] clusters@[p] < nbc_clustering(
                distances@,
                k as int,
            ).1,
{
    let (knb, r_knb) = calculate_neighbourhood(distances, k);
    assert(knb@.dom() =~= lists(knb@).dom());
    assert(r_knb@.dom() =~= sets(r_knb@).dom());
    let ndf = calculate_ndf(&knb, &r_knb);
    let points = distances.len();
    expand_clusters(points, &knb, &ndf)
}

} // verus!
