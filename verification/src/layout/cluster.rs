//! Rigid moves of whole groups of stations, for the dead end a single-station
//! search cannot see out of.
//!
//! **A cluster is one side of a bridge**, the smaller side. That is
//! structural and parameter-free: a whole connected component is excluded by
//! definition, which matters because every criterion is
//! translation-invariant. **Clusters nest; they are not a partition**: one
//! station may be translated by several clusters over a single pass.

use vstd::prelude::*;

use crate::geometry::{bounded, coord_limit, lies_along, segments_overlap};
use crate::grid::{holds_positions, key, GridOccupancy, GridPoint};
use crate::layout::candidate::{fan, is_rotation, ordered_neighbours, rotation_of};
use crate::layout::{corridors, ends, lemma_ends, placed};
use crate::model::Network;

verus! {

/// One side of one bridge: the stations that move together, and the edge
/// that joins them to everything else.
#[derive(Debug, Clone, PartialEq, Eq)]
pub struct Cluster {
    /// Index into the corridor list, not a station pair: an edge is
    /// identified by its position in that list.
    pub bridge: usize,
    /// Station indices, **ascending**.
    pub members: Vec<usize>,
}

// ---------------------------------------------------------------------------
// Reachability.
// ---------------------------------------------------------------------------

/// A corridor other than `without` joins `x` and `y`.
pub open spec fn adjacent(edges: Seq<(usize, usize)>, without: int, x: usize, y: usize) -> bool {
    exists|e: int|
        0 <= e < edges.len() && e != without && ((#[trigger] edges[e].0 == x && edges[e].1 == y) || (edges[e].1 == x
            && edges[e].0 == y))
}

/// `p` is a walk along corridors other than `without`.
pub open spec fn is_walk(edges: Seq<(usize, usize)>, without: int, p: Seq<usize>) -> bool {
    &&& p.len() >= 1
    &&& forall|i: int| 0 <= i < p.len() - 1 ==> adjacent(edges, without, #[trigger] p[i], p[i + 1])
}

/// Station `x` can be reached from `start` without corridor `without`.
pub open spec fn reachable(edges: Seq<(usize, usize)>, without: int, start: usize, x: usize) -> bool {
    exists|p: Seq<usize>| is_walk(edges, without, p) && p[0] == start && p.last() == x
}

/// The stations below `n` reachable from `start` without `without`,
/// ascending.
pub open spec fn reach_below(edges: Seq<(usize, usize)>, without: int, start: usize, n: int) -> Seq<usize>
    decreases n,
{
    if n <= 0 {
        Seq::empty()
    } else if reachable(edges, without, start, (n - 1) as usize) {
        reach_below(edges, without, start, n - 1).push((n - 1) as usize)
    } else {
        reach_below(edges, without, start, n - 1)
    }
}

/// `adjacency` lists, for every station, exactly its `(neighbour, corridor)`
/// pairs.
pub open spec fn adjacency_of(edges: Seq<(usize, usize)>, stations: int, adjacency: Seq<Vec<(usize, usize)>>) -> bool {
    &&& adjacency.len() == stations
    &&& edges.len() <= usize::MAX
    &&& forall|e: int| 0 <= e < edges.len() ==> (#[trigger] edges[e]).0 < stations && edges[e].1 < stations
    &&& forall|s: int, k: int|
        0 <= s < stations && 0 <= k < adjacency[s]@.len() ==> {
            let (y, e) = #[trigger] adjacency[s]@[k];
            &&& e < edges.len()
            &&& (edges[e as int].0 == s && edges[e as int].1 == y) || (edges[e as int].1 == s && edges[e as int].0 == y)
        }
    &&& forall|e: int|
        0 <= e < edges.len() ==> adjacency[(#[trigger] edges[e]).0 as int]@.contains((edges[e].1, e as usize))
            && adjacency[edges[e].1 as int]@.contains((edges[e].0, e as usize))
}

/// The number of unseen stations.
spec fn unseen(seen: Seq<bool>) -> nat
    decreases seen.len(),
{
    if seen.len() == 0 {
        0
    } else {
        unseen(seen.drop_last()) + if seen.last() {
            0nat
        } else {
            1nat
        }
    }
}

proof fn lemma_unseen_mark(seen: Seq<bool>, x: int)
    requires
        0 <= x < seen.len(),
        !seen[x],
    ensures
        unseen(seen.update(x, true)) + 1 == unseen(seen),
    decreases seen.len(),
{
    if x < seen.len() - 1 {
        assert(seen.update(x, true).drop_last() =~= seen.drop_last().update(x, true));
        lemma_unseen_mark(seen.drop_last(), x);
    } else {
        assert(seen.update(x, true).drop_last() =~= seen.drop_last());
    }
}

proof fn lemma_walk_extend(edges: Seq<(usize, usize)>, without: int, start: usize, x: usize, y: usize)
    requires
        reachable(edges, without, start, x),
        adjacent(edges, without, x, y),
    ensures
        reachable(edges, without, start, y),
{
    let p = choose|p: Seq<usize>| is_walk(edges, without, p) && p[0] == start && p.last() == x;
    let q = p.push(y);
    assert forall|i: int| 0 <= i < q.len() - 1 implies adjacent(edges, without, #[trigger] q[i], q[i + 1]) by {
        if i < p.len() - 1 {
            assert(q[i] == p[i] && q[i + 1] == p[i + 1]);
        } else {
            assert(q[i] == x && q[i + 1] == y);
        }
    }
    assert(is_walk(edges, without, q));
    assert(q[0] == start && q.last() == y);
}

/// A walk from a closed set of stations never leaves it.
proof fn lemma_closed(edges: Seq<(usize, usize)>, without: int, seen: Seq<bool>, p: Seq<usize>)
    requires
        is_walk(edges, without, p),
        p[0] < seen.len(),
        seen[p[0] as int],
        forall|x: usize, y: usize| x < seen.len() && seen[x as int] && #[trigger] adjacent(edges, without, x, y) ==> y < seen.len() && seen[y as int],
    ensures
        p.last() < seen.len() && seen[p.last() as int],
    decreases p.len(),
{
    if p.len() > 1 {
        let q = p.drop_last();
        assert forall|i: int| 0 <= i < q.len() - 1 implies adjacent(edges, without, #[trigger] q[i], q[i + 1]) by {
            assert(q[i] == p[i] && q[i + 1] == p[i + 1]);
        }
        lemma_closed(edges, without, seen, q);
        assert(adjacent(edges, without, p[p.len() - 2], p[p.len() - 1]));
    }
}

/// The stations reachable from `start` with corridor `without` removed,
/// ascending.
///
/// Ascending by construction rather than in visit order: the frontier's order
/// is an implementation detail and the caller compares these sets.
fn reach(
    adjacency: &Vec<Vec<(usize, usize)>>,
    stations: usize,
    start: usize,
    without: usize,
    Ghost(edges): Ghost<Seq<(usize, usize)>>,
) -> (r: Vec<usize>)
    requires
        adjacency_of(edges, stations as int, adjacency@),
        start < stations,
    ensures
        r@ == reach_below(edges, without as int, start, stations as int),
{
    let mut seen: Vec<bool> = Vec::new();
    let mut i: usize = 0;
    while i < stations
        invariant
            i <= stations,
            seen@.len() == i,
            forall|x: int| 0 <= x < i ==> !seen@[x],
        decreases stations - i,
    {
        seen.push(false);
        i += 1;
    }
    let ghost w = without as int;
    proof {
        lemma_unseen_mark(seen@, start as int);
    }
    seen.set(start, true);
    let mut frontier: Vec<usize> = Vec::new();
    frontier.push(start);
    proof {
        let p = seq![start];
        assert(is_walk(edges, w, p));
        assert(p[0] == start && p.last() == start);
        assert(reachable(edges, w, start, start));
        assert(frontier@ == seq![start]);
        assert forall|x: int| 0 <= x < stations && #[trigger] seen@[x] implies x == start as int by {}
        assert(frontier@.contains(start)) by {
            assert(frontier@[0] == start);
        }
    }

    while frontier.len() > 0
        invariant
            adjacency_of(edges, stations as int, adjacency@),
            w == without as int,
            seen@.len() == stations,
            start < stations,
            seen@[start as int],
            forall|x: int| 0 <= x < stations && #[trigger] seen@[x] ==> reachable(edges, w, start, x as usize),
            forall|k: int| 0 <= k < frontier@.len() ==> #[trigger] frontier@[k] < stations && seen@[frontier@[k] as int],
            forall|k1: int, k2: int| 0 <= k1 < k2 < frontier@.len() ==> #[trigger] frontier@[k1] != #[trigger] frontier@[k2],
            forall|x: usize, y: usize|
                x < stations && seen@[x as int] && !frontier@.contains(x) && #[trigger] adjacent(edges, w, x, y) ==> y < stations
                    && seen@[y as int],
        decreases 2 * unseen(seen@) + frontier@.len(),
    {
        let ghost old_frontier = frontier@;
        let station = frontier.pop().unwrap();
        let ghost popped = frontier@;
        assert(old_frontier == popped.push(station));
        assert forall|x: usize| !popped.contains(x) && x != station implies !old_frontier.contains(x) by {
            if old_frontier.contains(x) {
                let q = choose|q: int| 0 <= q < old_frontier.len() && old_frontier[q] == x;
                if q < popped.len() {
                    assert(popped[q] == x);
                }
            }
        }
        let ghost measure = 2 * unseen(seen@) + popped.len() + 1;
        assert(!popped.contains(station)) by {
            if popped.contains(station) {
                let k = choose|k: int| 0 <= k < popped.len() && popped[k] == station;
                assert(frontier@.push(station)[k] == station);
            }
        }
        let nbrs = &adjacency[station];
        let mut k: usize = 0;
        while k < nbrs.len()
            invariant
                adjacency_of(edges, stations as int, adjacency@),
                w == without as int,
                *nbrs == adjacency@[station as int],
                station < stations,
                seen@.len() == stations,
                seen@[start as int],
                seen@[station as int],
                !popped.contains(station),
                forall|q: int| 0 <= q < frontier@.len() && q < popped.len() ==> frontier@[q] == popped[q],
                popped.len() <= frontier@.len(),
                forall|x: int| 0 <= x < stations && #[trigger] seen@[x] ==> reachable(edges, w, start, x as usize),
                forall|q: int| 0 <= q < frontier@.len() ==> #[trigger] frontier@[q] < stations && seen@[frontier@[q] as int],
                forall|q1: int, q2: int| 0 <= q1 < q2 < frontier@.len() ==> #[trigger] frontier@[q1] != #[trigger] frontier@[q2],
                forall|x: usize| #[trigger] frontier@.contains(x) && !popped.contains(x) ==> x != station,
                forall|x: usize, y: usize|
                    x < stations && seen@[x as int] && !frontier@.contains(x) && x != station && #[trigger] adjacent(edges, w, x, y) ==> y
                        < stations && seen@[y as int],
                forall|q: int|
                    0 <= q < k && (#[trigger] nbrs@[q]).1 != without ==> seen@[nbrs@[q].0 as int],
                2 * unseen(seen@) + frontier@.len() < measure,
                k <= nbrs@.len(),
            decreases nbrs@.len() - k,
        {
            let (neighbour, edge) = nbrs[k];
            proof {
                assert(adjacency@[station as int]@[k as int] == (neighbour, edge));
                assert(edge < edges.len());
                assert((edges[edge as int].0 == station && edges[edge as int].1 == neighbour) || (edges[edge as int].1
                    == station && edges[edge as int].0 == neighbour));
            }
            if edge != without && !seen[neighbour] {
                proof {
                    let e = edge as int;
                    assert(0 <= e < edges.len());
                    assert(e != w);
                    assert((edges[e].0 == station && edges[e].1 == neighbour) || (
                    edges[e].1 == station && edges[e].0 == neighbour));
                    assert(adjacent(edges, w, station, neighbour));
                    lemma_walk_extend(edges, w, start, station, neighbour);
                    lemma_unseen_mark(seen@, neighbour as int);
                }
                let ghost fr = frontier@;
                seen.set(neighbour, true);
                frontier.push(neighbour);
                proof {
                    assert forall|x: usize| #[trigger] frontier@.contains(x) && !popped.contains(x) implies x != station by {
                        let q = choose|q: int| 0 <= q < frontier@.len() && frontier@[q] == x;
                        if q < fr.len() {
                            assert(fr.contains(x));
                        }
                    }
                    assert forall|q1: int, q2: int| 0 <= q1 < q2 < frontier@.len() implies #[trigger] frontier@[q1]
                        != #[trigger] frontier@[q2] by {
                        if q2 == fr.len() {
                            assert(seen@[fr[q1] as int] || fr[q1] != neighbour);
                        }
                    }
                    assert forall|x: usize, y: usize|
                        x < stations && seen@[x as int] && !frontier@.contains(x) && x != station && #[trigger] adjacent(edges, w, x, y)
                            implies y < stations && seen@[y as int] by {
                        if x != neighbour {
                            assert(!fr.contains(x)) by {
                                if fr.contains(x) {
                                    let q = choose|q: int| 0 <= q < fr.len() && fr[q] == x;
                                    assert(frontier@[q] == x);
                                }
                            }
                        } else {
                            assert(frontier@[fr.len() as int] == neighbour);
                        }
                    }
                }
            }
            k += 1;
        }
        proof {
            assert forall|x: usize, y: usize|
                x < stations && seen@[x as int] && !frontier@.contains(x) && #[trigger] adjacent(edges, w, x, y) implies y < stations
                    && seen@[y as int] by {
                if x == station {
                    let e = choose|e: int|
                        0 <= e < edges.len() && e != w && ((#[trigger] edges[e].0 == x && edges[e].1 == y) || (edges[e].1 == x
                            && edges[e].0 == y));
                    let pair = (y, e as usize);
                    assert(adjacency@[edges[e].0 as int]@.contains((edges[e].1, e as usize)));
                    assert(adjacency@[edges[e].1 as int]@.contains((edges[e].0, e as usize)));
                    if edges[e].0 == x && edges[e].1 == y {
                        assert(nbrs@.contains(pair));
                    } else {
                        assert(nbrs@.contains(pair));
                    }
                    let q = choose|q: int| 0 <= q < nbrs@.len() && nbrs@[q] == pair;
                    assert(nbrs@[q].1 != without);
                    assert(seen@[nbrs@[q].0 as int]);
                }
            }
        }
    }

    // Every station reachable from `start` has been seen.
    proof {
        assert forall|x: usize| x < stations && reachable(edges, w, start, x) implies #[trigger] seen@[x as int] by {
            let p = choose|p: Seq<usize>| is_walk(edges, w, p) && p[0] == start && p.last() == x;
            lemma_closed(edges, w, seen@, p);
        }
    }

    let mut r: Vec<usize> = Vec::new();
    let mut s: usize = 0;
    while s < stations
        invariant
            w == without as int,
            seen@.len() == stations,
            s <= stations,
            forall|x: usize| x < stations ==> (#[trigger] seen@[x as int] <==> reachable(edges, w, start, x)),
            r@ == reach_below(edges, w, start, s as int),
        decreases stations - s,
    {
        if seen[s] {
            r.push(s);
        }
        s += 1;
    }
    r
}

proof fn lemma_reach_below(edges: Seq<(usize, usize)>, without: int, start: usize, n: int)
    requires
        0 <= n <= usize::MAX + 1,
    ensures
        forall|x: usize| #[trigger] reach_below(edges, without, start, n).contains(x) <==> x < n && reachable(
            edges,
            without,
            start,
            x,
        ),
        forall|i: int, j: int|
            0 <= i < j < reach_below(edges, without, start, n).len() ==> #[trigger] reach_below(edges, without, start, n)[i]
                < #[trigger] reach_below(edges, without, start, n)[j],
        forall|i: int| 0 <= i < reach_below(edges, without, start, n).len() ==> #[trigger] reach_below(edges, without, start, n)[i] < n,
    decreases n,
{
    if n > 0 {
        lemma_reach_below(edges, without, start, n - 1);
        let p = reach_below(edges, without, start, n - 1);
        let q = reach_below(edges, without, start, n);
        assert forall|x: usize| #[trigger] q.contains(x) <==> x < n && reachable(edges, without, start, x) by {
            if reachable(edges, without, start, (n - 1) as usize) {
                assert(q == p.push((n - 1) as usize));
                if x == (n - 1) as usize {
                    assert(q[p.len() as int] == x);
                }
                if q.contains(x) && x != (n - 1) as usize {
                    let i = choose|i: int| 0 <= i < q.len() && q[i] == x;
                    assert(p[i] == x);
                }
                if p.contains(x) {
                    let i = choose|i: int| 0 <= i < p.len() && p[i] == x;
                    assert(q[i] == x);
                }
            }
        }
    }
}

/// A walk read backwards is a walk.
proof fn lemma_reachable_symmetric(edges: Seq<(usize, usize)>, without: int, x: usize, y: usize)
    requires
        reachable(edges, without, x, y),
    ensures
        reachable(edges, without, y, x),
{
    let p = choose|p: Seq<usize>| is_walk(edges, without, p) && p[0] == x && p.last() == y;
    let q = p.reverse();
    assert forall|i: int| 0 <= i < q.len() - 1 implies adjacent(edges, without, #[trigger] q[i], q[i + 1]) by {
        let j = p.len() - 2 - i;
        assert(q[i] == p[j + 1] && q[i + 1] == p[j]);
        assert(adjacent(edges, without, p[j], p[j + 1]));
        let e = choose|e: int|
            0 <= e < edges.len() && e != without && ((#[trigger] edges[e].0 == p[j] && edges[e].1 == p[j + 1]) || (
            edges[e].1 == p[j] && edges[e].0 == p[j + 1]));
        assert((edges[e].0 == q[i] && edges[e].1 == q[i + 1]) || (edges[e].1 == q[i] && edges[e].0 == q[i + 1]));
    }
    assert(is_walk(edges, without, q));
    assert(q[0] == y && q.last() == x);
}

proof fn lemma_reachable_self(edges: Seq<(usize, usize)>, without: int, x: usize)
    ensures
        reachable(edges, without, x, x),
{
    let p = seq![x];
    assert(is_walk(edges, without, p));
    assert(p[0] == x && p.last() == x);
}

/// The smaller of two sides, a tie going to the side with the lower first
/// station.
pub open spec fn smaller(a: Seq<usize>, b: Seq<usize>) -> Seq<usize> {
    if a.len() < b.len() {
        a
    } else if a.len() > b.len() {
        b
    } else if a[0] < b[0] {
        a
    } else {
        b
    }
}

/// The smaller of the two sides, ties broken by the lower minimum station
/// index. Both are ascending, so the minimum is the first element.
fn smaller_side(a: Vec<usize>, b: Vec<usize>) -> (r: Vec<usize>)
    requires
        a@.len() == b@.len() ==> a@.len() > 0,
    ensures
        r@ == smaller(a@, b@),
{
    if a.len() < b.len() {
        a
    } else if a.len() > b.len() {
        b
    } else if a[0] < b[0] {
        a
    } else {
        b
    }
}

/// The side of bridge `e` that becomes a cluster, or `None` when `e` is not a
/// bridge: removing it leaves its two ends connected.
pub open spec fn bridge_side(net: Network, e: int) -> Option<Seq<usize>> {
    let edges = ends(net);
    let n = net.station_seq().len() as int;
    let (a, b) = edges[e];
    if reachable(edges, e, a, b) {
        None
    } else {
        Some(smaller(reach_below(edges, e, a, n), reach_below(edges, e, b, n)))
    }
}

/// The clusters among the first `k` corridors: each bridge's smaller side
/// with two stations or more, paired with the bridge.
pub open spec fn clusters_below(net: Network, k: int) -> Seq<(usize, Seq<usize>)>
    decreases k,
{
    if k <= 0 {
        Seq::empty()
    } else {
        let p = clusters_below(net, k - 1);
        match bridge_side(net, k - 1) {
            Some(m) => if m.len() >= 2 {
                p.push(((k - 1) as usize, m))
            } else {
                p
            },
            None => p,
        }
    }
}

/// **A cluster holds exactly one end of its bridge, and both or neither end of
/// every other corridor**: the bridge is the one corridor a rigid translation
/// of the cluster reshapes.
pub proof fn lemma_bridge_side_holds_one_end(net: Network, e: int)
    requires
        net.wf(),
        0 <= e < ends(net).len(),
        bridge_side(net, e) is Some,
    ensures
        ({
            let m = bridge_side(net, e).unwrap();
            let (a, b) = ends(net)[e];
            m.contains(a) != m.contains(b)
        }),
        forall|f: int|
            0 <= f < ends(net).len() && f != e ==> bridge_side(net, e).unwrap().contains((#[trigger] ends(net)[f]).0)
                == bridge_side(net, e).unwrap().contains(ends(net)[f].1),
{
    lemma_ends(net);
    net.lemma_wf();
    let edges = ends(net);
    let n = net.station_seq().len() as int;
    let (a, b) = edges[e];
    lemma_reach_below(edges, e, a, n);
    lemma_reach_below(edges, e, b, n);
    lemma_reachable_self(edges, e, a);
    lemma_reachable_self(edges, e, b);
    if reachable(edges, e, b, a) {
        lemma_reachable_symmetric(edges, e, b, a);
    }
    let ra = reach_below(edges, e, a, n);
    let rb = reach_below(edges, e, b, n);
    assert(ra.contains(a) && !ra.contains(b));
    assert(rb.contains(b) && !rb.contains(a));
    let m = bridge_side(net, e).unwrap();
    let s = if m == ra { a } else { b };
    assert(m == reach_below(edges, e, s, n));
    assert forall|f: int| 0 <= f < edges.len() && f != e implies m.contains((#[trigger] edges[f]).0) == m.contains(
        edges[f].1,
    ) by {
        let (x, y) = edges[f];
        assert(adjacent(edges, e, x, y));
        assert(adjacent(edges, e, y, x));
        if m.contains(x) {
            lemma_walk_extend(edges, e, s, x, y);
        }
        if m.contains(y) {
            lemma_walk_extend(edges, e, s, y, x);
        }
    }
}

/// Every bridge's smaller side, in corridor order, sides of fewer than two
/// stations dropped.
///
/// For each corridor, walk the graph **without** it from each end: the
/// corridor is a bridge exactly when the two walks do not meet, and then the
/// two reach-sets are the two sides. Sides of one station are dropped
/// because the per-station sweep already moves them.
///
/// Bridges are a property of the graph alone, not of the layout, so this is
/// computed once.
pub fn find(network: &Network) -> (r: Vec<Cluster>)
    requires
        network.wf(),
    ensures
        r@.len() == clusters_below(*network, ends(*network).len() as int).len(),
        forall|i: int|
            0 <= i < r@.len() ==> (#[trigger] r@[i]).bridge == clusters_below(*network, ends(*network).len() as int)[i].0
                && r@[i].members@ == clusters_below(*network, ends(*network).len() as int)[i].1,
{
    proof {
        lemma_ends(*network);
    }
    let edges = corridors(network);
    let stations = network.stations().len();
    let ghost ed = edges@;
    let ghost n = stations as int;

    // Every station's `(neighbour, corridor)` pairs, in corridor order.
    let mut adjacency: Vec<Vec<(usize, usize)>> = Vec::new();
    let mut s: usize = 0;
    while s < stations
        invariant
            network.wf(),
            ed == edges@,
            ed == ends(*network),
            n == stations,
            n == network.station_seq().len(),
            s <= stations,
            adjacency@.len() == s,
            forall|t: int, k: int|
                0 <= t < s && 0 <= k < adjacency@[t]@.len() ==> {
                    let (y, e) = #[trigger] adjacency@[t]@[k];
                    &&& e < ed.len()
                    &&& (ed[e as int].0 == t && ed[e as int].1 == y) || (ed[e as int].1 == t && ed[e as int].0 == y)
                },
            forall|e: int|
                0 <= e < ed.len() && (#[trigger] ed[e]).0 < s ==> adjacency@[ed[e].0 as int]@.contains((ed[e].1, e as usize)),
            forall|e: int|
                0 <= e < ed.len() && (#[trigger] ed[e]).1 < s ==> adjacency@[ed[e].1 as int]@.contains((ed[e].0, e as usize)),
        decreases stations - s,
    {
        let mut row: Vec<(usize, usize)> = Vec::new();
        let mut e: usize = 0;
        while e < edges.len()
            invariant
                network.wf(),
                ed == edges@,
                ed == ends(*network),
                s < n,
                e <= ed.len(),
                forall|k: int|
                    0 <= k < row@.len() ==> {
                        let (y, f) = #[trigger] row@[k];
                        &&& f < ed.len()
                        &&& (ed[f as int].0 == s && ed[f as int].1 == y) || (ed[f as int].1 == s && ed[f as int].0 == y)
                    },
                forall|f: int| 0 <= f < e && #[trigger] ed[f].0 == s ==> row@.contains((ed[f].1, f as usize)),
                forall|f: int| 0 <= f < e && #[trigger] ed[f].1 == s ==> row@.contains((ed[f].0, f as usize)),
            decreases ed.len() - e,
        {
            proof {
                lemma_ends(*network);
            }
            let (a, b) = edges[e];
            let ghost before = row@;
            if a == s {
                row.push((b, e));
                assert(row@[before.len() as int] == (b, e));
            } else if b == s {
                row.push((a, e));
                assert(row@[before.len() as int] == (a, e));
            }
            proof {
                assert forall|f: int| 0 <= f < e + 1 && #[trigger] ed[f].0 == s implies row@.contains((ed[f].1, f as usize)) by {
                    if f < e {
                        let k = choose|k: int| 0 <= k < before.len() && before[k] == (ed[f].1, f as usize);
                        assert(row@[k] == before[k]);
                    }
                }
                assert forall|f: int| 0 <= f < e + 1 && #[trigger] ed[f].1 == s implies row@.contains((ed[f].0, f as usize)) by {
                    if f < e {
                        let k = choose|k: int| 0 <= k < before.len() && before[k] == (ed[f].0, f as usize);
                        assert(row@[k] == before[k]);
                    }
                }
            }
            e += 1;
        }
        adjacency.push(row);
        s += 1;
    }
    proof {
        lemma_ends(*network);
        assert(adjacency_of(ed, n, adjacency@));
    }

    let mut clusters: Vec<Cluster> = Vec::new();
    let mut e: usize = 0;
    while e < edges.len()
        invariant
            network.wf(),
            ed == edges@,
            ed == ends(*network),
            n == stations,
            n == network.station_seq().len(),
            adjacency_of(ed, n, adjacency@),
            e <= ed.len(),
            clusters@.len() == clusters_below(*network, e as int).len(),
            forall|i: int|
                0 <= i < clusters@.len() ==> (#[trigger] clusters@[i]).bridge == clusters_below(*network, e as int)[i].0
                    && clusters@[i].members@ == clusters_below(*network, e as int)[i].1,
        decreases ed.len() - e,
    {
        proof {
            lemma_ends(*network);
        }
        let (a, b) = edges[e];
        let from_a = reach(&adjacency, stations, a, e, Ghost(ed));
        proof {
            lemma_reach_below(ed, e as int, a, n);
            lemma_reach_below(ed, e as int, b, n);
        }
        let ghost before = clusters@;
        let mut meets = false;
        let mut i: usize = 0;
        while i < from_a.len()
            invariant
                i <= from_a@.len(),
                meets == exists|j: int| 0 <= j < i && from_a@[j] == b,
            decreases from_a@.len() - i,
        {
            if from_a[i] == b {
                meets = true;
            }
            i += 1;
        }
        proof {
            assert(meets == from_a@.contains(b));
        }
        if !meets {
            let from_b = reach(&adjacency, stations, b, e, Ghost(ed));
            proof {
                lemma_reachable_self(ed, e as int, a);
                lemma_reachable_self(ed, e as int, b);
                assert(from_a@.contains(a));
                assert(from_b@.contains(b));
            }
            let members = smaller_side(from_a, from_b);
            if members.len() >= 2 {
                clusters.push(Cluster { bridge: e, members });
                proof {
                    assert forall|i: int| 0 <= i < clusters@.len() implies (#[trigger] clusters@[i]).bridge
                        == clusters_below(*network, e + 1)[i].0 && clusters@[i].members@ == clusters_below(
                        *network,
                        e + 1,
                    )[i].1 by {
                        if i < before.len() {
                            assert(clusters@[i] == before[i]);
                        }
                    }
                }
            }
        }
        e += 1;
    }
    clusters
}

// ---------------------------------------------------------------------------
// Translation.
// ---------------------------------------------------------------------------

/// A cell moved by an offset.
pub open spec fn shift(p: GridPoint, d: (i64, i64)) -> GridPoint {
    GridPoint { i: (p.i + d.0) as i64, j: (p.j + d.1) as i64 }
}

/// `p` moved by `d` is still a [`bounded`] cell.
pub open spec fn fits(p: GridPoint, d: (i64, i64)) -> bool {
    -coord_limit() < p.i + d.0 < coord_limit() && -coord_limit() < p.j + d.1 < coord_limit()
}

/// Station indices, strictly ascending.
pub open spec fn ascending(members: Seq<usize>) -> bool {
    forall|i: int, j: int| 0 <= i < j < members.len() ==> #[trigger] members[i] < #[trigger] members[j]
}

/// Every member is a station, and moving it by `d` keeps it bounded.
pub open spec fn movable(pos: Seq<GridPoint>, members: Seq<usize>, d: (i64, i64)) -> bool {
    forall|k: int| 0 <= k < members.len() ==> #[trigger] members[k] < pos.len() && fits(pos[members[k] as int], d)
}

/// The positions with every member moved by `d`.
pub open spec fn translated(pos: Seq<GridPoint>, members: Seq<usize>, d: (i64, i64)) -> Seq<GridPoint> {
    Seq::new(
        pos.len(),
        |s: int|
            if members.contains(s as usize) {
                shift(pos[s], d)
            } else {
                pos[s]
            },
    )
}

/// The offset undone.
pub fn back(offset: (i64, i64)) -> (r: (i64, i64))
    requires
        offset.0 > i64::MIN,
        offset.1 > i64::MIN,
    ensures
        r.0 == -offset.0,
        r.1 == -offset.1,
{
    (-offset.0, -offset.1)
}

/// **Translating back undoes a translation.** Members on the grid, moved by
/// `d` and then by its negation as [`back`] gives it, are where they started,
/// and every other station never moved.
pub proof fn lemma_translate_back(pos: Seq<GridPoint>, members: Seq<usize>, d: (i64, i64), undo: (i64, i64))
    requires
        pos.len() <= usize::MAX,
        movable(pos, members, d),
        forall|k: int| 0 <= k < members.len() ==> bounded(pos[#[trigger] members[k] as int]),
        undo.0 == -d.0,
        undo.1 == -d.1,
    ensures
        movable(translated(pos, members, d), members, undo),
        translated(translated(pos, members, d), members, undo) == pos,
{
    let moved = translated(pos, members, d);
    assert forall|k: int| 0 <= k < members.len() implies #[trigger] members[k] < moved.len() && fits(
        moved[members[k] as int],
        undo,
    ) by {
        let m = members[k];
        assert(members.contains(m));
        assert(fits(pos[m as int], d) && bounded(pos[m as int]));
    }
    assert forall|s: int| 0 <= s < pos.len() implies #[trigger] translated(moved, members, undo)[s] == pos[s] by {
        if members.contains(s as usize) {
            let k = choose|k: int| 0 <= k < members.len() && members[k] == s as usize;
            assert(members[k] as int == s);
            assert(fits(pos[members[k] as int], d) && bounded(pos[members[k] as int]));
        }
    }
    assert(translated(moved, members, undo) =~= pos);
}

/// Move every member by `offset`, in place.
pub fn translate(positions: &mut Vec<GridPoint>, members: &Vec<usize>, offset: (i64, i64))
    requires
        ascending(members@),
        movable(old(positions)@, members@, offset),
    ensures
        final(positions)@ == translated(old(positions)@, members@, offset),
{
    let ghost pos = positions@;
    let count = positions.len();
    let mut k: usize = 0;
    while k < members.len()
        invariant
            ascending(members@),
            movable(pos, members@, offset),
            pos.len() == count,
            k <= members@.len(),
            positions@.len() == pos.len(),
            forall|s: int|
                0 <= s < pos.len() ==> #[trigger] positions@[s] == if members@.take(k as int).contains(s as usize) {
                    shift(pos[s], offset)
                } else {
                    pos[s]
                },
        decreases members@.len() - k,
    {
        let m = members[k];
        proof {
            assert(members@[k as int] < pos.len() && fits(pos[m as int], offset));
            assert(!members@.take(k as int).contains(m)) by {
                if members@.take(k as int).contains(m) {
                    let q = choose|q: int| 0 <= q < k && members@.take(k as int)[q] == m;
                    assert(members@[q] < members@[k as int]);
                }
            }
        }
        let p = positions[m];
        proof {
            assert(positions@[m as int] == pos[m as int]);
        }
        let moved = GridPoint { i: p.i + offset.0, j: p.j + offset.1 };
        assert(moved == shift(pos[m as int], offset));
        let ghost prior = positions@;
        positions.set(m, moved);
        proof {
            assert forall|s: int| 0 <= s < pos.len() implies #[trigger] positions@[s] == if members@.take(k + 1).contains(
                s as usize,
            ) {
                shift(pos[s], offset)
            } else {
                pos[s]
            } by {
                assert(members@.take(k + 1) == members@.take(k as int).push(m));
                if s == m as int {
                    assert(members@.take(k + 1)[k as int] == m);
                } else {
                    assert(positions@[s] == prior[s]);
                    assert(members@.take(k + 1).contains(s as usize) == members@.take(k as int).contains(s as usize)) by {
                        if members@.take(k + 1).contains(s as usize) {
                            let q = choose|q: int| 0 <= q < k + 1 && #[trigger] members@.take(k + 1)[q] == s as usize;
                            assert(members@.take(k as int)[q] == s as usize);
                        }
                        if members@.take(k as int).contains(s as usize) {
                            let q = choose|q: int| 0 <= q < k && #[trigger] members@.take(k as int)[q] == s as usize;
                            assert(members@.take(k + 1)[q] == s as usize);
                        }
                    }
                }
            }
        }
        k += 1;
    }
    proof {
        assert(members@.take(members@.len() as int) =~= members@);
        assert(positions@ =~= translated(pos, members@, offset));
    }
}

/// How far along `offset` a cell lies.
pub open spec fn along(cell: GridPoint, offset: (i64, i64)) -> int {
    cell.i * offset.0 + cell.j * offset.1
}

proof fn lemma_along_fits(cell: GridPoint, offset: (i64, i64))
    requires
        bounded(cell),
    ensures
        along(cell, offset) <= i128::MAX,
{
    let lim: int = 0x8000_0000_0000_0000;
    let half: int = 0x4000_0000_0000_0000;
    assert(cell.i * offset.0 <= half * lim) by (nonlinear_arith)
        requires
            -half < cell.i < half,
            -lim <= offset.0 < lim,
    ;
    assert(cell.j * offset.1 <= half * lim) by (nonlinear_arith)
        requires
            -half < cell.j < half,
            -lim <= offset.1 < lim,
    ;
    assert(half * lim == 0x2000_0000_0000_0000_0000_0000_0000_0000) by (nonlinear_arith)
        requires
            half == 0x4000_0000_0000_0000,
            lim == 0x8000_0000_0000_0000,
    ;
}

/// How far along `offset` a cell lies, exactly. Widened to `i128`, which
/// holds every value but one: both coordinates and both components at
/// `i64::MIN`.
pub fn projection(cell: GridPoint, offset: (i64, i64)) -> (r: i128)
    requires
        along(cell, offset) <= i128::MAX,
    ensures
        r == along(cell, offset),
{
    proof {
        let lim: int = 0x8000_0000_0000_0000;
        assert(-lim * lim < cell.i * offset.0 <= lim * lim) by (nonlinear_arith)
            requires
                -lim <= cell.i < lim,
                -lim <= offset.0 < lim,
        ;
        assert(-lim * lim < cell.j * offset.1 <= lim * lim) by (nonlinear_arith)
            requires
                -lim <= cell.j < lim,
                -lim <= offset.1 < lim,
        ;
        assert(lim * lim == 0x4000_0000_0000_0000_0000_0000_0000_0000) by (nonlinear_arith)
            requires
                lim == 0x8000_0000_0000_0000,
        ;
    }
    cell.i as i128 * offset.0 as i128 + cell.j as i128 * offset.1 as i128
}

// ---------------------------------------------------------------------------
// The three rejections in their group forms.
// ---------------------------------------------------------------------------

/// Every member's target is free, or held by a member of the same cluster.
pub open spec fn targets_free(
    pos: Seq<GridPoint>,
    occ: Map<(i64, i64), usize>,
    members: Seq<usize>,
    d: (i64, i64),
) -> bool {
    forall|k: int|
        0 <= k < members.len() ==> {
            let to = key(shift(pos[#[trigger] members[k] as int], d));
            !occ.contains_key(to) || members.contains(occ[to])
        }
}

fn holds_member(members: &Vec<usize>, station: usize) -> (r: bool)
    ensures
        r == members@.contains(station),
{
    let mut k: usize = 0;
    while k < members.len()
        invariant
            k <= members@.len(),
            forall|q: int| 0 <= q < k ==> members@[q] != station,
        decreases members@.len() - k,
    {
        if members[k] == station {
            return true;
        }
        k += 1;
    }
    false
}

/// Rejection 1, **occupancy read with the cluster's own cells vacated**: a
/// target counts as free when it is free or a member of this same cluster
/// holds it. A translation is injective, so members cannot collide with one
/// another. Without the second clause a translation by one cell is rejected
/// by the cluster's own body and no cluster move can ever fire.
pub fn targets_are_free(
    positions: &Vec<GridPoint>,
    occupancy: &GridOccupancy,
    cluster: &Cluster,
    offset: (i64, i64),
) -> (r: bool)
    requires
        movable(positions@, cluster.members@, offset),
    ensures
        r == targets_free(positions@, occupancy@, cluster.members@, offset),
{
    let members = &cluster.members;
    let mut k: usize = 0;
    while k < members.len()
        invariant
            movable(positions@, members@, offset),
            *members == cluster.members,
            k <= members@.len(),
            forall|q: int|
                0 <= q < k ==> {
                    let to = key(shift(positions@[#[trigger] members@[q] as int], offset));
                    !occupancy@.contains_key(to) || members@.contains(occupancy@[to])
                },
        decreases members@.len() - k,
    {
        let m = members[k];
        proof {
            assert(members@[k as int] < positions@.len() && fits(positions@[m as int], offset));
        }
        let p = positions[m];
        let to = GridPoint { i: p.i + offset.0, j: p.j + offset.1 };
        match occupancy.station_at(to) {
            None => {},
            Some(holder) => {
                if !holds_member(members, holder) {
                    return false;
                }
            },
        }
        k += 1;
    }
    true
}

/// Some corridor other than `bridge` lies along it.
pub open spec fn bridge_folds(edges: Seq<(usize, usize)>, pos: Seq<GridPoint>, bridge: int) -> bool {
    exists|other: int|
        0 <= other < edges.len() && other != bridge && lies_along(
            pos[edges[bridge].0 as int],
            pos[edges[bridge].1 as int],
            pos[(#[trigger] edges[other]).0 as int],
            pos[edges[other].1 as int],
        )
}

/// Rejection 3: the bridge may not come to lie **along** any other edge,
/// including the cluster's own edge at its near end — a fold-back along
/// one's own neighbour is invisible to the crossing count.
pub fn bridge_overlaps(corridors: &Vec<(usize, usize)>, positions: &Vec<GridPoint>, bridge: usize) -> (r: bool)
    requires
        bridge < corridors@.len(),
        forall|e: int|
            0 <= e < corridors@.len() ==> (#[trigger] corridors@[e]).0 < positions@.len() && corridors@[e].1
                < positions@.len(),
        forall|s: int| 0 <= s < positions@.len() ==> bounded(#[trigger] positions@[s]),
    ensures
        r == bridge_folds(corridors@, positions@, bridge as int),
{
    let (a, b) = corridors[bridge];
    let mut other: usize = 0;
    while other < corridors.len()
        invariant
            bridge < corridors@.len(),
            (a, b) == corridors@[bridge as int],
            forall|e: int|
                0 <= e < corridors@.len() ==> (#[trigger] corridors@[e]).0 < positions@.len() && corridors@[e].1
                    < positions@.len(),
            forall|s: int| 0 <= s < positions@.len() ==> bounded(#[trigger] positions@[s]),
            other <= corridors@.len(),
            forall|o: int|
                0 <= o < other && o != bridge ==> !lies_along(
                    positions@[a as int],
                    positions@[b as int],
                    positions@[(#[trigger] corridors@[o]).0 as int],
                    positions@[corridors@[o].1 as int],
                ),
        decreases corridors@.len() - other,
    {
        let (c, d) = corridors[other];
        proof {
            assert(corridors@[other as int] == (c, d));
        }
        if other != bridge && segments_overlap(positions[a], positions[b], positions[c], positions[d]) {
            return true;
        }
        other += 1;
    }
    false
}

/// The two ends of a cluster's bridge.
pub open spec fn bridge_ends(net: Network, bridge: usize) -> (usize, usize) {
    ends(net)[bridge as int]
}

/// A cluster of `net`: a bridge and ascending member stations.
pub open spec fn is_cluster(net: Network, cluster: Cluster) -> bool {
    &&& cluster.bridge < ends(net).len()
    &&& ascending(cluster.members@)
    &&& forall|k: int| 0 <= k < cluster.members@.len() ==> #[trigger] cluster.members@[k] < net.station_seq().len()
}

/// Whether the whole cluster may translate by `offset`, against all three of
/// the hard rejections in their group forms.
///
/// **Exactly one edge changes geometry** under a rigid translation — the
/// bridge — so the fan-order rule is evaluated at the bridge's two ends only,
/// and the overlap rule on the bridge only.
///
/// **Takes `positions` mutably and restores it**, as the single-station
/// predicate does.
pub fn is_valid_move(
    network: &Network,
    positions: &mut Vec<GridPoint>,
    occupancy: &GridOccupancy,
    cluster: &Cluster,
    offset: (i64, i64),
) -> (r: bool)
    requires
        network.wf(),
        placed(*network, old(positions)@),
        is_cluster(*network, *cluster),
        movable(old(positions)@, cluster.members@, offset),
        offset.0 > i64::MIN,
        offset.1 > i64::MIN,
    ensures
        final(positions)@ == old(positions)@,
        r == ({
            let pos = old(positions)@;
            let moved = translated(pos, cluster.members@, offset);
            let (near, far) = bridge_ends(*network, cluster.bridge);
            &&& targets_free(pos, occupancy@, cluster.members@, offset)
            &&& rotation_of(fan(ends(*network), pos, near), fan(ends(*network), moved, near))
            &&& rotation_of(fan(ends(*network), pos, far), fan(ends(*network), moved, far))
            &&& !bridge_folds(ends(*network), moved, cluster.bridge as int)
        }),
{
    let ghost pos = positions@;
    let count = positions.len();
    assert(pos.len() == count);
    if !targets_are_free(positions, occupancy, cluster, offset) {
        return false;
    }
    proof {
        lemma_ends(*network);
    }
    let edges = corridors(network);
    let (near, far) = edges[cluster.bridge];
    let before_near = ordered_neighbours(network, positions, near);
    let before_far = ordered_neighbours(network, positions, far);

    translate(positions, &cluster.members, offset);
    let ghost moved = positions@;
    proof {
        assert forall|s: int| 0 <= s < moved.len() implies bounded(#[trigger] moved[s]) by {
            assert(moved[s] == translated(pos, cluster.members@, offset)[s]);
            if cluster.members@.contains(s as usize) {
                let k = choose|k: int| 0 <= k < cluster.members@.len() && cluster.members@[k] == s as usize;
                assert(cluster.members@[k] < pos.len() && fits(pos[cluster.members@[k] as int], offset));
                assert(cluster.members@[k] as int == s);
                assert(moved[s] == shift(pos[s], offset));
            } else {
                assert(moved[s] == pos[s]);
                assert(bounded(pos[s]));
            }
        }
        assert(placed(*network, moved));
    }
    let after_near = ordered_neighbours(network, positions, near);
    let after_far = ordered_neighbours(network, positions, far);
    let preserved = is_rotation(before_near.as_slice(), after_near.as_slice()) && is_rotation(
        before_far.as_slice(),
        after_far.as_slice(),
    );
    let overlaps = bridge_overlaps(&edges, positions, cluster.bridge);

    let undo = back(offset);
    proof {
        assert forall|k: int| 0 <= k < cluster.members@.len() implies #[trigger] cluster.members@[k] < moved.len()
            && fits(moved[cluster.members@[k] as int], undo) by {
            let m = cluster.members@[k];
            assert(cluster.members@.contains(m));
            assert(bounded(pos[m as int]));
        }
    }
    translate(positions, &cluster.members, undo);
    proof {
        assert forall|s: int| 0 <= s < pos.len() implies #[trigger] positions@[s] == pos[s] by {
            assert(positions@[s] == translated(moved, cluster.members@, undo)[s]);
            assert(moved[s] == translated(pos, cluster.members@, offset)[s]);
            if cluster.members@.contains(s as usize) {
                let k = choose|k: int| 0 <= k < cluster.members@.len() && cluster.members@[k] == s as usize;
                assert(cluster.members@[k] < pos.len() && fits(pos[cluster.members@[k] as int], offset));
                assert(cluster.members@[k] as int == s);
            }
        }
        assert(positions@ =~= pos);
    }
    preserved && !overlaps
}

// ---------------------------------------------------------------------------
// Committing a move.
// ---------------------------------------------------------------------------

/// The occupancy holds every member exactly where `pos` puts it, and no
/// member anywhere else.
pub open spec fn holds_members(occ: Map<(i64, i64), usize>, pos: Seq<GridPoint>, members: Seq<usize>) -> bool {
    &&& forall|k: int|
        0 <= k < members.len() ==> occ.contains_key(key(pos[#[trigger] members[k] as int])) && occ[key(
            pos[members[k] as int],
        )] == members[k]
    &&& forall|c: (i64, i64)| #[trigger] occ.contains_key(c) && members.contains(occ[c]) ==> c == key(pos[occ[c] as int])
}

/// Some member of `done` moves onto cell `c`.
pub open spec fn arrives(pos: Seq<GridPoint>, done: Seq<usize>, d: (i64, i64), c: (i64, i64)) -> bool {
    exists|m: usize| done.contains(m) && #[trigger] key(shift(pos[m as int], d)) == c
}

/// Some member of `done` moves off cell `c`.
pub open spec fn leaves(pos: Seq<GridPoint>, done: Seq<usize>, c: (i64, i64)) -> bool {
    exists|m: usize| done.contains(m) && #[trigger] key(pos[m as int]) == c
}

/// `now` is `occ` after every member of `done` moved by `d`: each holds its
/// new cell, the cells they left and nobody entered are free, and every
/// other cell is as it was.
pub open spec fn after_moves(
    now: Map<(i64, i64), usize>,
    occ: Map<(i64, i64), usize>,
    pos: Seq<GridPoint>,
    done: Seq<usize>,
    d: (i64, i64),
) -> bool {
    &&& forall|m: usize| #[trigger] done.contains(m) ==> now.contains_key(key(shift(pos[m as int], d))) && now[key(
        shift(pos[m as int], d),
    )] == m
    &&& forall|c: (i64, i64)|
        #[trigger] now.contains_key(c) <==> arrives(pos, done, d, c) || (occ.contains_key(c) && !leaves(pos, done, c))
    &&& forall|c: (i64, i64)| #[trigger] now.contains_key(c) && !arrives(pos, done, d, c) ==> now[c] == occ[c]
}

proof fn lemma_along_shift(p: GridPoint, d: (i64, i64))
    requires
        fits(p, d),
    ensures
        along(shift(p, d), d) == along(p, d) + d.0 * d.0 + d.1 * d.1,
        d.0 != 0 || d.1 != 0 ==> d.0 * d.0 + d.1 * d.1 > 0,
{
    let q = shift(p, d);
    assert(q.i == p.i + d.0 && q.j == p.j + d.1);
    assert((p.i + d.0) * d.0 + (p.j + d.1) * d.1 == p.i * d.0 + p.j * d.1 + d.0 * d.0 + d.1 * d.1) by (nonlinear_arith);
    assert(d.0 != 0 || d.1 != 0 ==> d.0 * d.0 + d.1 * d.1 > 0) by (nonlinear_arith);
}

/// Commit an accepted translation to both the positions and the occupancy.
///
/// **The order is load-bearing.** Relocating members in arbitrary order would
/// move one onto a cell a sibling still holds. Members move in **decreasing
/// projection along the offset**: the front of the cluster goes first, into
/// cells already free, and each later member lands on a cell its predecessor
/// has just vacated — a member whose target a sibling holds is held by one
/// further along by `|offset|²`, which has already moved.
pub fn apply(positions: &mut Vec<GridPoint>, occupancy: &mut GridOccupancy, cluster: &Cluster, offset: (i64, i64))
    requires
        ascending(cluster.members@),
        movable(old(positions)@, cluster.members@, offset),
        forall|s: int| 0 <= s < old(positions)@.len() ==> bounded(#[trigger] old(positions)@[s]),
        holds_members(old(occupancy)@, old(positions)@, cluster.members@),
        targets_free(old(positions)@, old(occupancy)@, cluster.members@, offset),
    ensures
        final(positions)@ == translated(old(positions)@, cluster.members@, offset),
        after_moves(final(occupancy)@, old(occupancy)@, old(positions)@, cluster.members@, offset),
{
    let ghost pos = positions@;
    let ghost occ = occupancy@;
    let members = &cluster.members;
    let count = positions.len();

    // The members, front of the cluster first; ties keep ascending order.
    proof {
        assert forall|s: int| 0 <= s < pos.len() implies along(#[trigger] pos[s], offset) <= i128::MAX by {
            lemma_along_fits(pos[s], offset);
        }
    }
    let mut order: Vec<usize> = Vec::new();
    let mut k: usize = 0;
    while k < members.len()
        invariant
            pos == positions@,
            count == pos.len(),
            *members == cluster.members,
            ascending(members@),
            movable(pos, members@, offset),
            forall|s: int| 0 <= s < pos.len() ==> bounded(#[trigger] pos[s]),
            forall|s: int| 0 <= s < pos.len() ==> along(#[trigger] pos[s], offset) <= i128::MAX,
            k <= members@.len(),
            forall|x: usize| order@.contains(x) <==> members@.take(k as int).contains(x),
            forall|i: int| 0 <= i < order@.len() ==> #[trigger] order@[i] < pos.len(),
            forall|i: int, j: int| 0 <= i < j < order@.len() ==> #[trigger] order@[i] != #[trigger] order@[j],
            forall|i: int, j: int|
                0 <= i < j < order@.len() ==> along(pos[#[trigger] order@[i] as int], offset) >= along(
                    pos[#[trigger] order@[j] as int],
                    offset,
                ),
        decreases members@.len() - k,
    {
        let m = members[k];
        proof {
            assert(members@[k as int] < pos.len());
            assert(!order@.contains(m)) by {
                if order@.contains(m) {
                    assert(members@.take(k as int).contains(m));
                    let q = choose|q: int| 0 <= q < k && #[trigger] members@.take(k as int)[q] == m;
                    assert(members@[q] < members@[k as int]);
                }
            }
        }
        let key_m = projection(positions[m], offset);
        let mut p: usize = order.len();
        while p > 0 && projection(positions[order[p - 1]], offset) < key_m
            invariant
                pos == positions@,
                forall|s: int| 0 <= s < pos.len() ==> bounded(#[trigger] pos[s]),
                forall|s: int| 0 <= s < pos.len() ==> along(#[trigger] pos[s], offset) <= i128::MAX,
                forall|i: int| 0 <= i < order@.len() ==> #[trigger] order@[i] < pos.len(),
                m < pos.len(),
                key_m == along(pos[m as int], offset),
                p <= order@.len(),
                forall|i: int| p <= i < order@.len() ==> along(pos[#[trigger] order@[i] as int], offset) < key_m,
            decreases p,
        {
            p -= 1;
        }
        let ghost before = order@;
        order.insert(p, m);
        proof {
            assert(order@ == before.take(p as int).push(m).add(before.skip(p as int)));
            assert(members@.take(k + 1) == members@.take(k as int).push(m));
            assert forall|x: usize| order@.contains(x) <==> members@.take(k + 1).contains(x) by {
                if order@.contains(x) && x != m {
                    let i = choose|i: int| 0 <= i < order@.len() && order@[i] == x;
                    if i < p {
                        assert(before[i] == x);
                    } else {
                        assert(before[i - 1] == x);
                    }
                    assert(before.contains(x));
                    assert(members@.take(k as int).contains(x));
                    let q = choose|q: int| 0 <= q < k && #[trigger] members@.take(k as int)[q] == x;
                    assert(members@.take(k + 1)[q] == x);
                }
                if members@.take(k + 1).contains(x) && x != m {
                    let q = choose|q: int| 0 <= q < k + 1 && #[trigger] members@.take(k + 1)[q] == x;
                    assert(members@.take(k as int)[q] == x);
                    assert(before.contains(x));
                    let i = choose|i: int| 0 <= i < before.len() && before[i] == x;
                    if i < p {
                        assert(order@[i] == x);
                    } else {
                        assert(order@[i + 1] == x);
                    }
                }
                if x == m {
                    assert(order@[p as int] == m);
                    assert(members@.take(k + 1)[k as int] == m);
                }
            }
            assert forall|i: int| 0 <= i < order@.len() implies #[trigger] order@[i] < pos.len() by {
                if i < p {
                    assert(order@[i] == before[i]);
                } else if i > p {
                    assert(order@[i] == before[i - 1]);
                }
            }
            assert forall|i: int, j: int| 0 <= i < j < order@.len() implies #[trigger] order@[i] != #[trigger] order@[j] by {
                if i < p && j < p {
                    assert(order@[i] == before[i] && order@[j] == before[j]);
                } else if i < p && j == p {
                    assert(order@[i] == before[i]);
                    assert(before.contains(before[i]));
                } else if i < p {
                    assert(order@[i] == before[i] && order@[j] == before[j - 1]);
                } else if i == p {
                    assert(order@[j] == before[j - 1]);
                    assert(before.contains(before[j - 1]));
                } else {
                    assert(order@[i] == before[i - 1] && order@[j] == before[j - 1]);
                }
            }
            assert forall|i: int, j: int| 0 <= i < j < order@.len() implies along(pos[#[trigger] order@[i] as int], offset)
                >= along(pos[#[trigger] order@[j] as int], offset) by {
                if j < p {
                    assert(order@[i] == before[i] && order@[j] == before[j]);
                } else if j == p {
                    assert(order@[i] == before[i]);
                    if p > 0 {
                        assert(along(pos[before[p - 1] as int], offset) >= key_m);
                        if i < p - 1 {
                            assert(along(pos[before[i] as int], offset) >= along(pos[before[p - 1] as int], offset));
                        }
                    }
                } else if i == p {
                    assert(order@[j] == before[j - 1]);
                } else if i < p {
                    assert(order@[i] == before[i] && order@[j] == before[j - 1]);
                    assert(along(pos[before[j - 1] as int], offset) < key_m);
                    if p > 0 {
                        assert(along(pos[before[p - 1] as int], offset) >= key_m);
                        if i < p - 1 {
                            assert(along(pos[before[i] as int], offset) >= along(pos[before[p - 1] as int], offset));
                        }
                    }
                } else {
                    assert(order@[i] == before[i - 1] && order@[j] == before[j - 1]);
                }
            }
        }
        k += 1;
    }
    proof {
        assert(members@.take(members@.len() as int) =~= members@);
    }

    // Relocate, front first.
    let mut t: usize = 0;
    while t < order.len()
        invariant
            count == pos.len(),
            *members == cluster.members,
            ascending(members@),
            movable(pos, members@, offset),
            forall|s: int| 0 <= s < pos.len() ==> bounded(#[trigger] pos[s]),
            holds_members(occ, pos, members@),
            targets_free(pos, occ, members@, offset),
            forall|x: usize| order@.contains(x) <==> members@.contains(x),
            forall|i: int| 0 <= i < order@.len() ==> #[trigger] order@[i] < pos.len(),
            forall|i: int, j: int| 0 <= i < j < order@.len() ==> #[trigger] order@[i] != #[trigger] order@[j],
            forall|i: int, j: int|
                0 <= i < j < order@.len() ==> along(pos[#[trigger] order@[i] as int], offset) >= along(
                    pos[#[trigger] order@[j] as int],
                    offset,
                ),
            t <= order@.len(),
            positions@ == translated(pos, order@.take(t as int), offset),
            after_moves(occupancy@, occ, pos, order@.take(t as int), offset),
        decreases order@.len() - t,
    {
        let m = order[t];
        let ghost done = order@.take(t as int);
        let ghost now = occupancy@;
        proof {
            assert(order@.contains(m));
            let km = choose|km: int| 0 <= km < members@.len() && members@[km] == m;
            assert(members@[km] < pos.len() && fits(pos[m as int], offset));
            assert(!done.contains(m)) by {
                if done.contains(m) {
                    let i = choose|i: int| 0 <= i < t && #[trigger] done[i] == m;
                    assert(order@[i] == m);
                }
            }
            lemma_along_shift(pos[m as int], offset);
            // Nobody has moved onto m's cell: a member arriving there lies
            // further along by |offset|², and would come later.
            assert(!arrives(pos, done, offset, key(pos[m as int]))) by {
                if arrives(pos, done, offset, key(pos[m as int])) {
                    let m2 = choose|m2: usize| done.contains(m2) && #[trigger] key(shift(pos[m2 as int], offset)) == key(
                        pos[m as int],
                    );
                    let i = choose|i: int| 0 <= i < t && #[trigger] done[i] == m2;
                    assert(order@[i] == m2);
                    assert(members@.contains(m2));
                    let k2 = choose|k2: int| 0 <= k2 < members@.len() && members@[k2] == m2;
                    assert(members@[k2] < pos.len() && fits(pos[m2 as int], offset));
                    lemma_along_shift(pos[m2 as int], offset);
                    assert(shift(pos[m2 as int], offset) == pos[m as int]);
                    assert(along(pos[m2 as int], offset) >= along(pos[m as int], offset));
                    assert(offset.0 == 0 && offset.1 == 0);
                    assert(pos[m2 as int] == pos[m as int]);
                    let km2 = k2;
                    assert(occ[key(pos[members@[km2] as int])] == members@[km2]);
                    assert(occ[key(pos[members@[km] as int])] == members@[km]);
                }
            }
            assert(!leaves(pos, done, key(pos[m as int]))) by {
                if leaves(pos, done, key(pos[m as int])) {
                    let m2 = choose|m2: usize| done.contains(m2) && #[trigger] key(pos[m2 as int]) == key(pos[m as int]);
                    let i = choose|i: int| 0 <= i < t && #[trigger] done[i] == m2;
                    assert(order@[i] == m2);
                    assert(members@.contains(m2));
                    let k2 = choose|k2: int| 0 <= k2 < members@.len() && members@[k2] == m2;
                    assert(occ[key(pos[members@[k2] as int])] == members@[k2]);
                    assert(occ[key(pos[members@[km] as int])] == members@[km]);
                }
            }
            assert(occ.contains_key(key(pos[m as int])) && occ[key(pos[m as int])] == m);
            assert(now.contains_key(key(pos[m as int])));
            assert(now[key(pos[m as int])] == m);
            // The target is free unless it is m's own cell.
            let to = shift(pos[m as int], offset);
            if offset.0 != 0 || offset.1 != 0 {
                assert(!now.contains_key(key(to))) by {
                    if arrives(pos, done, offset, key(to)) {
                        let m2 = choose|m2: usize| done.contains(m2) && #[trigger] key(shift(pos[m2 as int], offset)) == key(to);
                        let i = choose|i: int| 0 <= i < t && #[trigger] done[i] == m2;
                        assert(order@[i] == m2);
                        assert(members@.contains(m2));
                        let k2 = choose|k2: int| 0 <= k2 < members@.len() && members@[k2] == m2;
                        assert(members@[k2] < pos.len() && fits(pos[m2 as int], offset));
                        assert(pos[m2 as int] == pos[m as int]);
                        assert(occ[key(pos[members@[k2] as int])] == members@[k2]);
                        assert(occ[key(pos[members@[km] as int])] == members@[km]);
                    }
                    if occ.contains_key(key(to)) && !leaves(pos, done, key(to)) {
                        let h = occ[key(to)];
                        assert(members@.contains(h)) by {
                            assert(targets_free(pos, occ, members@, offset));
                            assert(members@[km] == m);
                        }
                        assert(key(to) == key(pos[h as int]));
                        let kh = choose|kh: int| 0 <= kh < members@.len() && members@[kh] == h;
                        assert(members@[kh] < pos.len());
                        assert(along(pos[h as int], offset) > along(pos[m as int], offset));
                        assert(order@.contains(h));
                        let i = choose|i: int| 0 <= i < order@.len() && order@[i] == h;
                        if i >= t {
                            if i > t {
                                assert(along(pos[order@[t as int] as int], offset) >= along(pos[order@[i] as int], offset));
                            }
                        }
                        assert(i < t);
                        assert(done[i] == h);
                        assert(leaves(pos, done, key(to)));
                    }
                }
            }
        }
        let from = positions[m];
        proof {
            assert(positions@[m as int] == translated(pos, done, offset)[m as int]);
            assert(from == pos[m as int]);
        }
        let to = GridPoint { i: from.i + offset.0, j: from.j + offset.1 };
        occupancy.relocate(m, from, to);
        positions.set(m, to);
        proof {
            let done2 = order@.take(t + 1);
            assert(done2 == done.push(m));
            assert forall|x: usize| #[trigger] done2.contains(x) <==> done.contains(x) || x == m by {
                if done2.contains(x) && x != m {
                    let i = choose|i: int| 0 <= i < done2.len() && done2[i] == x;
                    assert(done[i] == x);
                }
                if done.contains(x) {
                    let i = choose|i: int| 0 <= i < done.len() && done[i] == x;
                    assert(done2[i] == x);
                }
                if x == m {
                    assert(done2[t as int] == m);
                }
            }
            assert(positions@ =~= translated(pos, done2, offset));
            let after = occupancy@;
            let to_s = shift(pos[m as int], offset);
            assert(to == to_s);
            assert forall|c: (i64, i64)| arrives(pos, done2, offset, c) <==> arrives(pos, done, offset, c) || c == key(to_s) by {
                if arrives(pos, done2, offset, c) {
                    let m2 = choose|m2: usize| done2.contains(m2) && #[trigger] key(shift(pos[m2 as int], offset)) == c;
                    if m2 != m {
                        assert(done.contains(m2));
                    }
                }
                if arrives(pos, done, offset, c) {
                    let m2 = choose|m2: usize| done.contains(m2) && #[trigger] key(shift(pos[m2 as int], offset)) == c;
                    assert(done2.contains(m2));
                }
                if c == key(to_s) {
                    assert(done2.contains(m));
                }
            }
            assert forall|c: (i64, i64)| leaves(pos, done2, c) <==> leaves(pos, done, c) || c == key(pos[m as int]) by {
                if leaves(pos, done2, c) {
                    let m2 = choose|m2: usize| done2.contains(m2) && #[trigger] key(pos[m2 as int]) == c;
                    if m2 != m {
                        assert(done.contains(m2));
                    }
                }
                if leaves(pos, done, c) {
                    let m2 = choose|m2: usize| done.contains(m2) && #[trigger] key(pos[m2 as int]) == c;
                    assert(done2.contains(m2));
                }
                if c == key(pos[m as int]) {
                    assert(done2.contains(m));
                }
            }
            assert forall|x: usize| #[trigger] done2.contains(x) implies after.contains_key(key(shift(pos[x as int], offset)))
                && after[key(shift(pos[x as int], offset))] == x by {
                if x != m {
                    assert(done.contains(x));
                    assert(now.contains_key(key(shift(pos[x as int], offset))));
                    // x's new cell is neither m's old cell nor m's new one.
                    let i = choose|i: int| 0 <= i < done.len() && done[i] == x;
                    assert(order@[i] == x);
                    assert(members@.contains(x));
                    let kx = choose|kx: int| 0 <= kx < members@.len() && members@[kx] == x;
                    assert(members@[kx] < pos.len() && fits(pos[x as int], offset));
                    if key(shift(pos[x as int], offset)) == key(to_s) {
                        assert(pos[x as int] == pos[m as int]);
                        let km = choose|km: int| 0 <= km < members@.len() && members@[km] == m;
                        assert(occ[key(pos[members@[kx] as int])] == members@[kx]);
                        assert(occ[key(pos[members@[km] as int])] == members@[km]);
                    }
                    assert(arrives(pos, done, offset, key(shift(pos[x as int], offset))));
                }
            }
            assert forall|c: (i64, i64)| #[trigger] after.contains_key(c) <==> arrives(pos, done2, offset, c) || (
            occ.contains_key(c) && !leaves(pos, done2, c)) by {}
            assert forall|c: (i64, i64)| #[trigger] after.contains_key(c) && !arrives(pos, done2, offset, c) implies after[c]
                == occ[c] by {}
        }
        t += 1;
    }
    proof {
        assert(order@.take(order@.len() as int) =~= order@);
        let all = order@;
        assert forall|x: usize| #[trigger] all.contains(x) <==> members@.contains(x) by {}
        assert(positions@ =~= translated(pos, members@, offset)) by {
            assert forall|s: int| 0 <= s < pos.len() implies positions@[s] == translated(pos, members@, offset)[s] by {
                assert(all.contains(s as usize) == members@.contains(s as usize));
            }
        }
        assert forall|c: (i64, i64)| arrives(pos, all, offset, c) <==> arrives(pos, members@, offset, c) by {
            if arrives(pos, all, offset, c) {
                let m2 = choose|m2: usize| all.contains(m2) && #[trigger] key(shift(pos[m2 as int], offset)) == c;
                assert(members@.contains(m2));
            }
            if arrives(pos, members@, offset, c) {
                let m2 = choose|m2: usize| members@.contains(m2) && #[trigger] key(shift(pos[m2 as int], offset)) == c;
                assert(all.contains(m2));
            }
        }
        assert forall|c: (i64, i64)| leaves(pos, all, c) <==> leaves(pos, members@, c) by {
            if leaves(pos, all, c) {
                let m2 = choose|m2: usize| all.contains(m2) && #[trigger] key(pos[m2 as int]) == c;
                assert(members@.contains(m2));
            }
            if leaves(pos, members@, c) {
                let m2 = choose|m2: usize| members@.contains(m2) && #[trigger] key(pos[m2 as int]) == c;
                assert(all.contains(m2));
            }
        }
    }
}

/// **Applying an accepted translation keeps the occupancy true to the
/// positions.** Where the occupancy held every station on its cell, it holds
/// the cluster's members (as [`apply`] requires), and after the members move
/// by `d` onto cells that are free or their own, the occupancy [`apply`]
/// leaves holds every station on its new cell and no cell held by anyone else.
pub proof fn lemma_apply_keeps_positions(
    occ: Map<(i64, i64), usize>,
    pos: Seq<GridPoint>,
    members: Seq<usize>,
    d: (i64, i64),
    now: Map<(i64, i64), usize>,
)
    requires
        holds_positions(occ, pos),
        movable(pos, members, d),
        targets_free(pos, occ, members, d),
        after_moves(now, occ, pos, members, d),
    ensures
        holds_members(occ, pos, members),
        holds_positions(now, translated(pos, members, d)),
{
    let moved = translated(pos, members, d);
    assert forall|k: int| 0 <= k < members.len() implies occ.contains_key(key(pos[#[trigger] members[k] as int]))
        && occ[key(pos[members[k] as int])] == members[k] by {
        assert(members[k] < pos.len());
    }
    assert forall|c: (i64, i64)| #[trigger] occ.contains_key(c) && members.contains(occ[c]) implies c == key(
        pos[occ[c] as int],
    ) by {}
    assert forall|s: int| 0 <= s < moved.len() implies now.contains_key(key(#[trigger] moved[s])) && now[key(moved[s])]
        == s by {
        if members.contains(s as usize) {
            assert(now.contains_key(key(shift(pos[s], d))));
        } else {
            let c = key(pos[s]);
            assert(occ.contains_key(c) && occ[c] == s);
            if leaves(pos, members, c) {
                let m = choose|m: usize| members.contains(m) && #[trigger] key(pos[m as int]) == c;
                let k = choose|k: int| 0 <= k < members.len() && members[k] == m;
                assert(m < pos.len());
                assert(occ[key(pos[m as int])] == m);
            }
            if arrives(pos, members, d, c) {
                let m = choose|m: usize| members.contains(m) && #[trigger] key(shift(pos[m as int], d)) == c;
                let k = choose|k: int| 0 <= k < members.len() && members[k] == m;
                assert(!occ.contains_key(c) || members.contains(occ[c]));
            }
            assert(now.contains_key(c));
        }
    }
    assert forall|c: (i64, i64)| #[trigger] now.contains_key(c) implies now[c] < moved.len() && key(
        moved[now[c] as int],
    ) == c by {
        if arrives(pos, members, d, c) {
            let m = choose|m: usize| members.contains(m) && #[trigger] key(shift(pos[m as int], d)) == c;
            let k = choose|k: int| 0 <= k < members.len() && members[k] == m;
            assert(m < pos.len());
            assert(now[key(shift(pos[m as int], d))] == m);
        } else {
            assert(occ.contains_key(c) && !leaves(pos, members, c));
            let s = occ[c];
            assert(s < pos.len() && key(pos[s as int]) == c);
            if members.contains(s) {
                assert(leaves(pos, members, c));
            }
        }
    }
}

} // verus!
