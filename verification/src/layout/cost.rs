//! The crossing criterion, counted exactly.
//!
//! One point for every unordered pair of corridors that share no endpoint
//! station and whose closed segments intersect. Sharing no endpoint is what
//! makes a path graph score zero: consecutive edges of a path meet at their
//! common station by construction, which is not a crossing.

use vstd::prelude::*;

use crate::geometry::{closed_segments_meet, segments_intersect};
use crate::grid::GridPoint;
use crate::layout::{corridors, ends, lemma_ends, sized};
use crate::model::Network;

verus! {

/// Corridors `e` and `f` share no station and their segments meet.
pub open spec fn crosses(pos: Seq<GridPoint>, e: (usize, usize), f: (usize, usize)) -> bool {
    &&& !(e.0 == f.0 || e.0 == f.1 || e.1 == f.0 || e.1 == f.1)
    &&& closed_segments_meet(pos[e.0 as int], pos[e.1 as int], pos[f.0 as int], pos[f.1 as int])
}

/// The number of `edges[a + 1..n]` that `edges[a]` crosses.
pub open spec fn crossings_with(pos: Seq<GridPoint>, edges: Seq<(usize, usize)>, a: int, n: int) -> nat
    decreases n - a,
{
    if n <= a + 1 {
        0
    } else {
        crossings_with(pos, edges, a, n - 1) + if crosses(pos, edges[a], edges[n - 1]) {
            1nat
        } else {
            0nat
        }
    }
}

/// The number of crossing pairs whose first corridor is among `edges[..n]`.
pub open spec fn crossings_below(pos: Seq<GridPoint>, edges: Seq<(usize, usize)>, n: int) -> nat
    decreases n,
{
    if n <= 0 {
        0
    } else {
        crossings_below(pos, edges, n - 1) + crossings_with(pos, edges, n - 1, edges.len() as int)
    }
}

/// The number of unordered crossing pairs.
pub open spec fn crossing_count(pos: Seq<GridPoint>, edges: Seq<(usize, usize)>) -> nat {
    crossings_below(pos, edges, edges.len() as int)
}

proof fn lemma_crossings_with_bound(pos: Seq<GridPoint>, edges: Seq<(usize, usize)>, a: int, n: int)
    requires
        0 <= a,
        0 <= n,
    ensures
        crossings_with(pos, edges, a, n) <= n,
    decreases n - a,
{
    if n > a + 1 {
        lemma_crossings_with_bound(pos, edges, a, n - 1);
    }
}

/// `c1`, **edge crossings**: every unordered pair of corridors that share no
/// endpoint station and whose closed segments intersect, counted once.
///
/// The pair set is deliberately not the overlap rejection's, which includes
/// endpoint-sharing pairs: the fold-back it exists for is invisible here by
/// construction.
pub fn c1_crossings(network: &Network, positions: &[GridPoint]) -> (r: u64)
    requires
        network.wf(),
        sized(*network, positions@),
    ensures
        r == crossing_count(positions@, ends(*network)),
{
    proof {
        lemma_ends(*network);
    }
    let edges = corridors(network);
    let ghost pos = positions@;
    let n = edges.len();
    let mut crossings: u64 = 0;
    let mut a: usize = 0;
    while a < n
        invariant
            network.wf(),
            sized(*network, pos),
            pos == positions@,
            edges@ == ends(*network),
            n == edges@.len(),
            n < u32::MAX,
            a <= n,
            crossings == crossings_below(pos, edges@, a as int),
            crossings <= a * n,
        decreases n - a,
    {
        let mut count: u64 = 0;
        let mut b: usize = a + 1;
        while b < n
            invariant
                network.wf(),
                sized(*network, pos),
                pos == positions@,
                edges@ == ends(*network),
                n == edges@.len(),
                n < u32::MAX,
                a < n,
                a + 1 <= b <= n,
                count == crossings_with(pos, edges@, a as int, b as int),
                count <= b,
            decreases n - b,
        {
            let (a1, a2) = edges[a];
            let (b1, b2) = edges[b];
            proof {
                lemma_ends(*network);
                assert(edges@[a as int] == ends(*network)[a as int]);
                assert(edges@[b as int] == ends(*network)[b as int]);
            }
            let shares_endpoint = a1 == b1 || a1 == b2 || a2 == b1 || a2 == b2;
            if !shares_endpoint {
                if segments_intersect(positions[a1], positions[a2], positions[b1], positions[b2]) {
                    count += 1;
                }
            }
            b += 1;
        }
        proof {
            lemma_crossings_with_bound(pos, edges@, a as int, n as int);
            assert(crossings + count <= (a + 1) * n) by (nonlinear_arith)
                requires
                    crossings <= a * n,
                    count <= n,
            ;
            assert((a + 1) * n <= n * n) by (nonlinear_arith)
                requires
                    a < n,
            ;
            assert(n * n < 0x1_0000_0000_0000_0000) by (nonlinear_arith)
                requires
                    n < u32::MAX,
            ;
        }
        crossings += count;
        a += 1;
    }
    crossings
}

} // verus!
