//! The structural side of the layout search: which moves are legal, which
//! groups of stations move together, and the crossing count, all exact on the
//! integer grid. The real-valued criteria and the search loop that weighs
//! them live with the caller.

use vstd::prelude::*;

use crate::geometry::bounded;
use crate::grid::GridPoint;
use crate::model::Network;

pub mod candidate;
pub mod cluster;
pub mod cost;

verus! {

/// The endpoints of every corridor, in edge-index order.
pub open spec fn ends(net: Network) -> Seq<(usize, usize)> {
    net.corridor_seq().map_values(|e: (usize, usize, Set<usize>)| (e.0, e.1))
}

/// `pos` gives every station of `net` a cell.
pub open spec fn sized(net: Network, pos: Seq<GridPoint>) -> bool {
    pos.len() == net.station_seq().len()
}

/// `pos` places every station of `net`, each on a [`bounded`] cell.
pub open spec fn placed(net: Network, pos: Seq<GridPoint>) -> bool {
    &&& sized(net, pos)
    &&& forall|s: int| 0 <= s < pos.len() ==> bounded(#[trigger] pos[s])
}

/// The facts about a validated network's corridors the layout relies on:
/// both ends are stations, no corridor is a loop, and no two corridors join
/// the same pair.
pub proof fn lemma_ends(net: Network)
    requires
        net.wf(),
    ensures
        ends(net).len() == net.corridor_seq().len(),
        ends(net).len() < u32::MAX,
        forall|e: int|
            0 <= e < ends(net).len() ==> (#[trigger] ends(net)[e]).0 < net.station_seq().len() && ends(net)[e].1
                < net.station_seq().len() && ends(net)[e].0 != ends(net)[e].1,
        forall|x: int, y: int|
            0 <= x < y < ends(net).len() ==> !((#[trigger] ends(net)[x] == #[trigger] ends(net)[y]) || (ends(net)[x].0
                == ends(net)[y].1 && ends(net)[x].1 == ends(net)[y].0)),
{
    net.lemma_wf();
    let edges = net.corridor_seq();
    assert forall|e: int| 0 <= e < ends(net).len() implies (#[trigger] ends(net)[e]).0 < net.station_seq().len()
        && ends(net)[e].1 < net.station_seq().len() && ends(net)[e].0 != ends(net)[e].1 by {
        assert(ends(net)[e] == (edges[e].0, edges[e].1));
    }
    assert forall|x: int, y: int| 0 <= x < y < ends(net).len() implies !((#[trigger] ends(net)[x]
        == #[trigger] ends(net)[y]) || (ends(net)[x].0 == ends(net)[y].1 && ends(net)[x].1 == ends(net)[y].0)) by {
        assert(ends(net)[x] == (edges[x].0, edges[x].1));
        assert(ends(net)[y] == (edges[y].0, edges[y].1));
        assert(!crate::graph::joins(edges[y], edges[x].0, edges[x].1));
    }
}

/// The corridors, as pairs of station indices, in edge-index order, each as
/// the graph stored it.
pub fn corridors(network: &Network) -> (r: Vec<(usize, usize)>)
    requires
        network.wf(),
    ensures
        r@ == ends(*network),
{
    let r = network.corridors();
    assert(r@ =~= ends(*network));
    r
}

/// Two sequences each strictly ordered by the same asymmetric relation, with
/// the same elements, are the same sequence.
pub proof fn lemma_sorted_unique<T>(a: Seq<T>, b: Seq<T>, before: spec_fn(T, T) -> bool)
    requires
        forall|x: T, y: T| #[trigger] before(x, y) ==> !before(y, x),
        forall|i: int, j: int| 0 <= i < j < a.len() ==> before(#[trigger] a[i], #[trigger] a[j]),
        forall|i: int, j: int| 0 <= i < j < b.len() ==> before(#[trigger] b[i], #[trigger] b[j]),
        forall|x: T| a.contains(x) <==> b.contains(x),
    ensures
        a == b,
    decreases a.len(),
{
    if a.len() == 0 {
        if b.len() > 0 {
            assert(b.contains(b[0]));
        }
        assert(a =~= b);
    } else {
        assert(a.contains(a[0]));
        assert(b.contains(b[0]));
        let ia = choose|i: int| 0 <= i < a.len() && a[i] == b[0];
        let ib = choose|i: int| 0 <= i < b.len() && b[i] == a[0];
        if ia > 0 && ib > 0 {
            assert(before(a[0], a[ia]));
            assert(before(b[0], b[ib]));
        }
        assert(a[0] == b[0]);
        let a1 = a.drop_first();
        let b1 = b.drop_first();
        assert forall|x: T| a1.contains(x) <==> b1.contains(x) by {
            if a1.contains(x) {
                let i = choose|i: int| 0 <= i < a1.len() && a1[i] == x;
                assert(a[i + 1] == x);
                assert(before(a[0], a[i + 1]));
                assert(b.contains(x));
                let j = choose|j: int| 0 <= j < b.len() && b[j] == x;
                assert(j != 0);
                assert(b1[j - 1] == x);
            }
            if b1.contains(x) {
                let i = choose|i: int| 0 <= i < b1.len() && b1[i] == x;
                assert(b[i + 1] == x);
                assert(before(b[0], b[i + 1]));
                assert(a.contains(x));
                let j = choose|j: int| 0 <= j < a.len() && a[j] == x;
                assert(j != 0);
                assert(a1[j - 1] == x);
            }
        }
        assert forall|i: int, j: int| 0 <= i < j < a1.len() implies before(#[trigger] a1[i], #[trigger] a1[j]) by {
            assert(a1[i] == a[i + 1] && a1[j] == a[j + 1]);
        }
        assert forall|i: int, j: int| 0 <= i < j < b1.len() implies before(#[trigger] b1[i], #[trigger] b1[j]) by {
            assert(b1[i] == b[i + 1] && b1[j] == b[j + 1]);
        }
        lemma_sorted_unique(a1, b1, before);
        assert(a.len() == b.len());
        assert forall|i: int| 0 <= i < a.len() implies a[i] == b[i] by {
            if i > 0 {
                assert(a[i] == a1[i - 1]);
                assert(b[i] == b1[i - 1]);
            }
        }
        assert(a =~= b);
    }
}

} // verus!
