//! The integer side of drawing: the document's cell envelope, and line
//! bundling's decomposition of the corridors into runs.
//!
//! **A collapse station is one where the line set changes, or where degree is
//! not 2.** At one, every offset is zero. **A run is a maximal path of
//! consecutive corridors carrying the same line set, broken at every collapse
//! station**; a line keeps one fixed perpendicular offset across a run, and
//! the side a positive offset lies on is a property of the run, not of any
//! line's traversal.
//!
//! Nothing here iterates a hash map: every structure is a `Vec` indexed by
//! station, corridor or line, so the result is a function of the input alone.

use vstd::prelude::*;

use crate::grid::GridPoint;
use crate::layout::{ends, lemma_ends};
use crate::model::{Line, Network};

verus! {

// ---------------------------------------------------------------------------
// The envelope.
// ---------------------------------------------------------------------------

/// `r` is the smallest and largest `i` and `j` over `cells`, or all zero when
/// there are none.
pub open spec fn is_bounds(cells: Seq<GridPoint>, r: (i64, i64, i64, i64)) -> bool {
    if cells.len() == 0 {
        r == (0i64, 0i64, 0i64, 0i64)
    } else {
        &&& forall|k: int| 0 <= k < cells.len() ==> r.0 <= (#[trigger] cells[k]).i <= r.1 && r.2 <= cells[k].j <= r.3
        &&& exists|k: int| 0 <= k < cells.len() && (#[trigger] cells[k]).i == r.0
        &&& exists|k: int| 0 <= k < cells.len() && (#[trigger] cells[k]).i == r.1
        &&& exists|k: int| 0 <= k < cells.len() && (#[trigger] cells[k]).j == r.2
        &&& exists|k: int| 0 <= k < cells.len() && (#[trigger] cells[k]).j == r.3
    }
}

/// The cell envelope of a layout: `(i_min, i_max, j_min, j_max)`. An empty
/// layout takes the origin, leaving a document that is margin on every side.
pub fn bounds(positions: &[GridPoint]) -> (r: (i64, i64, i64, i64))
    ensures
        is_bounds(positions@, r),
{
    if positions.len() == 0 {
        return (0, 0, 0, 0);
    }
    let first = positions[0];
    let (mut i_min, mut i_max, mut j_min, mut j_max) = (first.i, first.i, first.j, first.j);
    let mut k: usize = 1;
    while k < positions.len()
        invariant
            1 <= k <= positions@.len(),
            forall|q: int| 0 <= q < k ==> i_min <= (#[trigger] positions@[q]).i <= i_max && j_min <= positions@[q].j <= j_max,
            exists|q: int| 0 <= q < k && (#[trigger] positions@[q]).i == i_min,
            exists|q: int| 0 <= q < k && (#[trigger] positions@[q]).i == i_max,
            exists|q: int| 0 <= q < k && (#[trigger] positions@[q]).j == j_min,
            exists|q: int| 0 <= q < k && (#[trigger] positions@[q]).j == j_max,
        decreases positions@.len() - k,
    {
        let cell = positions[k];
        if cell.i < i_min {
            i_min = cell.i;
        }
        if cell.i > i_max {
            i_max = cell.i;
        }
        if cell.j < j_min {
            j_min = cell.j;
        }
        if cell.j > j_max {
            j_max = cell.j;
        }
        k += 1;
    }
    (i_min, i_max, j_min, j_max)
}

// ---------------------------------------------------------------------------
// Directing a closed run.
// ---------------------------------------------------------------------------

/// The first position of the smallest station in `c`.
pub open spec fn first_min(c: Seq<usize>) -> int
    decreases c.len(),
{
    if c.len() <= 1 {
        0
    } else {
        let m = first_min(c.drop_last());
        if c.last() < c[m] {
            c.len() - 1
        } else {
            m
        }
    }
}

/// `c` read from position `s` round the cycle.
pub open spec fn rotated(c: Seq<usize>, s: int) -> Seq<usize> {
    Seq::new(c.len(), |k: int| c[(s + k) % (c.len() as int)])
}

/// A closed run — first station repeated as last — directed from its lowest
/// station towards whichever run-neighbour of it has the lower index, still
/// in closed form.
pub open spec fn closed_direction(path: Seq<usize>) -> Seq<usize> {
    let c = path.drop_last();
    let r = rotated(c, first_min(c));
    let n = c.len() as int;
    let d = if r[n - 1] < r[1] {
        seq![r[0]] + r.subrange(1, n).reverse()
    } else {
        r
    };
    d.push(d[0])
}

proof fn lemma_first_min(c: Seq<usize>)
    requires
        c.len() >= 1,
    ensures
        0 <= first_min(c) < c.len(),
        forall|k: int| 0 <= k < c.len() ==> c[first_min(c)] <= #[trigger] c[k],
        forall|k: int| 0 <= k < first_min(c) ==> c[first_min(c)] < #[trigger] c[k],
    decreases c.len(),
{
    if c.len() > 1 {
        let d = c.drop_last();
        lemma_first_min(d);
        let m = first_min(d);
        assert forall|k: int| 0 <= k < c.len() implies c[first_min(c)] <= #[trigger] c[k] by {
            if k < c.len() - 1 {
                assert(c[k] == d[k]);
            }
            assert(c[m] == d[m]);
        }
        assert forall|k: int| 0 <= k < first_min(c) implies c[first_min(c)] < #[trigger] c[k] by {
            assert(c[k] == d[k]);
            assert(c[m] == d[m]);
        }
    }
}

/// A run with no endpoints, or two that are the same station, still needs a
/// direction. **Direct it from its lowest-indexed station towards whichever
/// neighbour along the run has the lower index.** Either choice draws a valid
/// mirror of the other; what matters is that one of them is named.
///
/// Takes and returns the closed form — first station repeated as last.
pub fn direct_closed_run(path: Vec<usize>) -> (r: Vec<usize>)
    requires
        path@.len() >= 3,
    ensures
        r@ == closed_direction(path@),
{
    let n = path.len() - 1;
    let ghost c = path@.drop_last();
    let mut start: usize = 0;
    let mut k: usize = 1;
    while k < n
        invariant
            n == c.len(),
            n + 1 == path@.len(),
            c == path@.drop_last(),
            1 <= k <= n,
            start == first_min(c.take(k as int)),
        decreases n - k,
    {
        proof {
            assert(c.take(k + 1).drop_last() =~= c.take(k as int));
            lemma_first_min(c.take(k as int));
        }
        if path[k] < path[start] {
            start = k;
        }
        k += 1;
    }
    proof {
        assert(c.take(n as int) =~= c);
        lemma_first_min(c);
    }
    let mut turned: Vec<usize> = Vec::new();
    let mut k: usize = 0;
    while k < n
        invariant
            n == c.len(),
            n + 1 == path@.len(),
            c == path@.drop_last(),
            start < n,
            k <= n,
            turned@ == rotated(c, start as int).take(k as int),
        decreases n - k,
    {
        let at = if k >= n - start {
            k - (n - start)
        } else {
            start + k
        };
        assert(at as int == (start + k) % (n as int)) by {
            vstd::arithmetic::div_mod::lemma_fundamental_div_mod_converse(
                (start + k) as int,
                n as int,
                if k >= n - start {
                    1int
                } else {
                    0int
                },
                at as int,
            );
        }
        turned.push(path[at]);
        proof {
            assert(path@[at as int] == c[at as int]);
            assert(turned@ =~= rotated(c, start as int).take(k + 1));
        }
        k += 1;
    }
    proof {
        assert(rotated(c, start as int).take(n as int) =~= rotated(c, start as int));
    }
    let ghost rot = turned@;
    let mut directed: Vec<usize>;
    if turned[n - 1] < turned[1] {
        // The lower-indexed neighbour lies the other way round the cycle.
        directed = Vec::new();
        directed.push(turned[0]);
        let mut k: usize = n - 1;
        while k >= 1
            invariant
                n == rot.len(),
                rot == turned@,
                n >= 2,
                0 <= k <= n - 1,
                directed@ == seq![rot[0]] + rot.subrange(k + 1, n as int).reverse(),
            decreases k,
        {
            directed.push(turned[k]);
            proof {
                assert(rot.subrange(k as int, n as int).reverse() =~= rot.subrange(k + 1, n as int).reverse().push(rot[k as int]));
            }
            k -= 1;
        }
        proof {
            assert(rot.subrange(1, n as int) == rot.subrange(k + 1, n as int));
        }
    } else {
        directed = turned;
    }
    let first = directed[0];
    directed.push(first);
    directed
}

/// **A closed run is directed from its lowest station towards its lower
/// neighbour.** The directed run is closed and as long as the run, starts at
/// a station no other station of the run is below, and of that station's two
/// neighbours round the cycle takes the lower-indexed first.
pub proof fn lemma_closed_direction(path: Seq<usize>)
    requires
        path.len() >= 3,
    ensures
        ({
            let d = closed_direction(path);
            let n = path.len() - 1;
            &&& d.len() == path.len()
            &&& d[0] == d[n]
            &&& forall|k: int| 0 <= k < n ==> d[0] <= #[trigger] path[k]
            &&& d[1] <= d[n - 1]
        }),
{
    let c = path.drop_last();
    let n = c.len() as int;
    lemma_first_min(c);
    let s = first_min(c);
    let r = rotated(c, s);
    assert(r[0] == c[s]) by {
        vstd::arithmetic::div_mod::lemma_small_mod(s as nat, n as nat);
    }
    assert forall|k: int| 0 <= k < n implies r[0] <= #[trigger] path[k] by {
        assert(path[k] == c[k]);
    }
    if r[n - 1] < r[1] {
        let d = seq![r[0]] + r.subrange(1, n).reverse();
        assert(d.len() == n);
        assert(d[0] == r[0]);
        assert(d[1] == r[n - 1]);
        assert(d[n - 1] == r[1]);
    }
}

// ---------------------------------------------------------------------------
// Corridors and their adjacency.
// ---------------------------------------------------------------------------

/// A corridor's ends, the lower first.
pub open spec fn normalized(e: (usize, usize)) -> (usize, usize) {
    if e.0 <= e.1 {
        e
    } else {
        (e.1, e.0)
    }
}

/// The corridors, as pairs of station indices with the lower first, in
/// edge-index order. The graph reports each as it stored it.
pub fn run_corridors(network: &Network) -> (r: Vec<(usize, usize)>)
    requires
        network.wf(),
    ensures
        r@ == ends(*network).map_values(|e: (usize, usize)| normalized(e)),
{
    let stored = crate::layout::corridors(network);
    let mut r: Vec<(usize, usize)> = Vec::new();
    let mut e: usize = 0;
    while e < stored.len()
        invariant
            e <= stored@.len(),
            r@ == stored@.take(e as int).map_values(|e: (usize, usize)| normalized(e)),
        decreases stored@.len() - e,
    {
        let (a, b) = stored[e];
        if a <= b {
            r.push((a, b));
        } else {
            r.push((b, a));
        }
        proof {
            assert(stored@.take(e + 1) == stored@.take(e as int).push(stored@[e as int]));
            assert(r@ =~= stored@.take(e + 1).map_values(|e: (usize, usize)| normalized(e)));
        }
        e += 1;
    }
    proof {
        assert(stored@.take(stored@.len() as int) =~= stored@);
    }
    r
}

/// Pairs in lexicographic order.
pub open spec fn pair_before(a: (usize, usize), b: (usize, usize)) -> bool {
    a.0 < b.0 || (a.0 == b.0 && a.1 < b.1)
}

/// `row` is exactly station `s`'s `(neighbour, corridor)` pairs over
/// `corridors`, ascending.
pub open spec fn is_adjacency_row(corridors: Seq<(usize, usize)>, s: usize, row: Seq<(usize, usize)>) -> bool {
    &&& forall|x: (usize, usize)|
        row.contains(x) <==> (x.1 < corridors.len() && ((corridors[x.1 as int].0 == s && corridors[x.1 as int].1 == x.0)
            || (corridors[x.1 as int].1 == s && corridors[x.1 as int].0 == x.0)))
    &&& forall|i: int, j: int| 0 <= i < j < row.len() ==> pair_before(#[trigger] row[i], #[trigger] row[j])
}

/// Each station's `(neighbour, corridor)` pairs, sorted by neighbour.
pub fn adjacency(stations: usize, corridors: &Vec<(usize, usize)>) -> (r: Vec<Vec<(usize, usize)>>)
    ensures
        r@.len() == stations,
        forall|s: int| 0 <= s < stations ==> is_adjacency_row(corridors@, s as usize, #[trigger] r@[s]@),
{
    let mut rows: Vec<Vec<(usize, usize)>> = Vec::new();
    let mut s: usize = 0;
    while s < stations
        invariant
            s <= stations,
            rows@.len() == s,
            forall|t: int| 0 <= t < s ==> is_adjacency_row(corridors@, t as usize, #[trigger] rows@[t]@),
        decreases stations - s,
    {
        let mut row: Vec<(usize, usize)> = Vec::new();
        let mut c: usize = 0;
        while c < corridors.len()
            invariant
                c <= corridors@.len(),
                forall|x: (usize, usize)|
                    row@.contains(x) <==> (x.1 < c && ((corridors@[x.1 as int].0 == s && corridors@[x.1 as int].1 == x.0) || (
                    corridors@[x.1 as int].1 == s && corridors@[x.1 as int].0 == x.0))),
                forall|i: int, j: int| 0 <= i < j < row@.len() ==> pair_before(#[trigger] row@[i], #[trigger] row@[j]),
            decreases corridors@.len() - c,
        {
            let (a, b) = corridors[c];
            let entry: Option<(usize, usize)> = if a == s {
                Some((b, c))
            } else if b == s {
                Some((a, c))
            } else {
                None
            };
            let ghost before = row@;
            if let Some(x) = entry {
                let mut p: usize = row.len();
                while p > 0 && (x.0 < row[p - 1].0 || (x.0 == row[p - 1].0 && x.1 < row[p - 1].1))
                    invariant
                        p <= row@.len(),
                        row@ == before,
                        forall|i: int| p <= i < row@.len() ==> pair_before(x, #[trigger] row@[i]),
                    decreases p,
                {
                    p -= 1;
                }
                row.insert(p, x);
                proof {
                    assert(row@ == before.take(p as int).push(x).add(before.skip(p as int)));
                    assert(!before.contains(x)) by {
                        if before.contains(x) {
                            assert(x.1 < c);
                        }
                    }
                    assert forall|i: int, j: int| 0 <= i < j < row@.len() implies pair_before(
                        #[trigger] row@[i],
                        #[trigger] row@[j],
                    ) by {
                        if j < p {
                            assert(row@[i] == before[i] && row@[j] == before[j]);
                        } else if j == p {
                            assert(row@[i] == before[i]);
                            if p > 0 {
                                assert(!pair_before(x, before[p - 1]));
                                assert(before[p - 1] != x) by {
                                    assert(before.contains(before[p - 1]));
                                }
                                if i < p - 1 {
                                    assert(pair_before(before[i], before[p - 1]));
                                }
                            }
                        } else if i == p {
                            assert(row@[j] == before[j - 1]);
                        } else if i < p {
                            assert(row@[i] == before[i] && row@[j] == before[j - 1]);
                            assert(pair_before(x, before[j - 1]));
                            if p > 0 {
                                assert(!pair_before(x, before[p - 1]));
                                assert(before[p - 1] != x) by {
                                    assert(before.contains(before[p - 1]));
                                }
                                if i < p - 1 {
                                    assert(pair_before(before[i], before[p - 1]));
                                }
                            }
                        } else {
                            assert(row@[i] == before[i - 1] && row@[j] == before[j - 1]);
                        }
                    }
                    assert forall|y: (usize, usize)| row@.contains(y) <==> before.contains(y) || y == x by {
                        if row@.contains(y) && y != x {
                            let i = choose|i: int| 0 <= i < row@.len() && row@[i] == y;
                            if i < p {
                                assert(before[i] == y);
                            } else {
                                assert(before[i - 1] == y);
                            }
                        }
                        if before.contains(y) {
                            let i = choose|i: int| 0 <= i < before.len() && before[i] == y;
                            if i < p {
                                assert(row@[i] == y);
                            } else {
                                assert(row@[i + 1] == y);
                            }
                        }
                        if y == x {
                            assert(row@[p as int] == x);
                        }
                    }
                }
            }
            proof {
                assert forall|y: (usize, usize)|
                    row@.contains(y) <==> (y.1 < c + 1 && ((corridors@[y.1 as int].0 == s && corridors@[y.1 as int].1 == y.0)
                        || (corridors@[y.1 as int].1 == s && corridors@[y.1 as int].0 == y.0))) by {
                    assert(corridors@[c as int] == (a, b));
                    if entry is None {
                        assert(row@ == before);
                    } else {
                        let x = entry.unwrap();
                        assert(row@.contains(y) <==> before.contains(y) || y == x);
                        if y.1 == c && ((a == s && b == y.0) || (b == s && a == y.0)) {
                            assert(y == x);
                        }
                    }
                }
            }
            c += 1;
        }
        rows.push(row);
        proof {
            assert forall|t: int| 0 <= t < s + 1 implies is_adjacency_row(corridors@, t as usize, #[trigger] rows@[t]@) by {
                if t < s {
                    assert(rows@[t] == rows@.take(s as int)[t]);
                }
            }
        }
        s += 1;
    }
    rows
}

// ---------------------------------------------------------------------------
// Collapse stations.
// ---------------------------------------------------------------------------

/// The corridors, lower end first.
pub open spec fn run_ends(net: Network) -> Seq<(usize, usize)> {
    ends(net).map_values(|e: (usize, usize)| normalized(e))
}

/// The rows of an adjacency, by value.
pub open spec fn rows_of(adjacency: Seq<Vec<(usize, usize)>>) -> Seq<Seq<(usize, usize)>> {
    adjacency.map_values(|row: Vec<(usize, usize)>| row@)
}

/// The adjacency of `net`'s corridors: each station's `(neighbour, corridor)`
/// pairs, ascending.
pub open spec fn run_adjacency(net: Network) -> Seq<Seq<(usize, usize)>> {
    Seq::new(
        net.station_seq().len(),
        |s: int| choose|row: Seq<(usize, usize)>| #[trigger] is_adjacency_row(run_ends(net), s as usize, row),
    )
}

/// `adj` is the adjacency of `net`'s corridors, one row per station.
pub open spec fn is_run_adjacency(net: Network, adj: Seq<Seq<(usize, usize)>>) -> bool {
    &&& adj.len() == net.station_seq().len()
    &&& forall|s: int| 0 <= s < adj.len() ==> is_adjacency_row(run_ends(net), s as usize, #[trigger] adj[s])
}

/// Station `s` collapses every offset to zero: its degree is not 2, or the
/// line set changes across it.
///
/// **Not 2 rather than above 2**: a terminus shared by two lines is degree 1,
/// and a bundle running to the end of the track without converging would draw
/// two separate stub ends at one stop.
pub open spec fn collapse(net: Network, adj: Seq<Seq<(usize, usize)>>, s: int) -> bool {
    let row = adj[s];
    row.len() != 2 || net.corridor_seq()[row[0].1 as int].2 != net.corridor_seq()[row[1].1 as int].2
}

proof fn lemma_row_corridors(net: Network, adj: Seq<Seq<(usize, usize)>>, s: int)
    requires
        net.wf(),
        is_run_adjacency(net, adj),
        0 <= s < adj.len(),
    ensures
        forall|k: int| 0 <= k < adj[s].len() ==> (#[trigger] adj[s][k]).1 < net.corridor_seq().len() && adj[s][k].0
            < net.station_seq().len(),
{
    lemma_ends(net);
    assert forall|k: int| 0 <= k < adj[s].len() implies (#[trigger] adj[s][k]).1 < net.corridor_seq().len()
        && adj[s][k].0 < net.station_seq().len() by {
        assert(adj[s].contains(adj[s][k]));
        assert(is_adjacency_row(run_ends(net), s as usize, adj[s]));
        let c = adj[s][k].1 as int;
        assert(run_ends(net)[c] == normalized(ends(net)[c]));
    }
}

/// Whether `station` is a collapse station.
pub fn is_collapse(network: &Network, station: usize, adjacency: &Vec<Vec<(usize, usize)>>) -> (r: bool)
    requires
        network.wf(),
        is_run_adjacency(*network, rows_of(adjacency@)),
        station < rows_of(adjacency@).len(),
    ensures
        r == collapse(*network, rows_of(adjacency@), station as int),
{
    let row = &adjacency[station];
    assert(row@ == rows_of(adjacency@)[station as int]);
    if row.len() != 2 {
        return true;
    }
    proof {
        lemma_row_corridors(*network, rows_of(adjacency@), station as int);
        network.lemma_wf();
    }
    let first = network.corridor_lines(row[0].1);
    let second = network.corridor_lines(row[1].1);
    let count = network.lines().len();
    let ghost edges = network.corridor_seq();
    let ghost e1 = row@[0].1 as int;
    let ghost e2 = row@[1].1 as int;
    let mut l: usize = 0;
    while l < count
        invariant
            network.wf(),
            edges == network.corridor_seq(),
            0 <= e1 < edges.len(),
            0 <= e2 < edges.len(),
            first@ == edges[e1].2,
            second@ == edges[e2].2,
            station < rows_of(adjacency@).len(),
            rows_of(adjacency@)[station as int].len() == 2,
            e1 == rows_of(adjacency@)[station as int][0].1 as int,
            e2 == rows_of(adjacency@)[station as int][1].1 as int,
            count == network.line_seq().len(),
            l <= count,
            forall|x: usize| x < l ==> (first@.contains(x) <==> second@.contains(x)),
        decreases count - l,
    {
        if first.contains(&l) != second.contains(&l) {
            assert(first@ != second@) by {
                assert(first@.contains(l) != second@.contains(l));
            }
            return true;
        }
        l += 1;
    }
    proof {
        network.lemma_wf();
        assert forall|x: usize| first@.contains(x) <==> second@.contains(x) by {
            if x >= count {
                assert(!edges[e1].2.contains(x));
                assert(!edges[e2].2.contains(x));
            }
        }
        assert(first@ =~= second@);
    }
    false
}

// ---------------------------------------------------------------------------
// Growing a run.
// ---------------------------------------------------------------------------

/// The number of corridors not yet claimed.
pub open spec fn count_unclaimed(claimed: Seq<bool>) -> nat
    decreases claimed.len(),
{
    if claimed.len() == 0 {
        0
    } else {
        count_unclaimed(claimed.drop_last()) + if claimed.last() {
            0nat
        } else {
            1nat
        }
    }
}

pub proof fn lemma_claim(claimed: Seq<bool>, c: int)
    requires
        0 <= c < claimed.len(),
        !claimed[c],
    ensures
        count_unclaimed(claimed.update(c, true)) + 1 == count_unclaimed(claimed),
    decreases claimed.len(),
{
    if c < claimed.len() - 1 {
        assert(claimed.update(c, true).drop_last() =~= claimed.drop_last().update(c, true));
        lemma_claim(claimed.drop_last(), c);
    } else {
        assert(claimed.update(c, true).drop_last() =~= claimed.drop_last());
    }
}

/// The first entry of `row[..n]` over an unclaimed corridor, or `-1`.
pub open spec fn first_free(row: Seq<(usize, usize)>, claimed: Seq<bool>, n: int) -> int
    decreases n,
{
    if n <= 0 {
        -1
    } else {
        let f = first_free(row, claimed, n - 1);
        if f >= 0 {
            f
        } else if row[n - 1].1 < claimed.len() && !claimed[row[n - 1].1 as int] {
            n - 1
        } else {
            -1
        }
    }
}

pub proof fn lemma_first_free(row: Seq<(usize, usize)>, claimed: Seq<bool>, n: int)
    requires
        0 <= n <= row.len(),
    ensures
        -1 <= first_free(row, claimed, n) < n,
        first_free(row, claimed, n) >= 0 ==> row[first_free(row, claimed, n)].1 < claimed.len() && !claimed[row[first_free(
            row,
            claimed,
            n,
        )].1 as int],
        first_free(row, claimed, n) < 0 ==> forall|k: int|
            0 <= k < n ==> !(row[k].1 < claimed.len() && !claimed[#[trigger] row[k].1 as int]),
    decreases n,
{
    if n > 0 {
        lemma_first_free(row, claimed, n - 1);
    }
}

/// The path has come back to where it started.
pub open spec fn closed(path: Seq<usize>) -> bool {
    path.len() > 1 && path.last() == path[0]
}

/// `path` grown from its tail while the tail is not a collapse station and
/// the run has not closed, each step along the first unclaimed corridor in
/// the tail's adjacency, which it claims.
pub open spec fn extension(
    net: Network,
    adj: Seq<Seq<(usize, usize)>>,
    claimed: Seq<bool>,
    path: Seq<usize>,
) -> (Seq<bool>, Seq<usize>)
    decreases count_unclaimed(claimed),
{
    if path.len() == 0 || closed(path) || path.last() >= adj.len() || collapse(net, adj, path.last() as int) {
        (claimed, path)
    } else {
        let row = adj[path.last() as int];
        let k = first_free(row, claimed, row.len() as int);
        if k < 0 {
            (claimed, path)
        } else {
            proof {
                lemma_first_free(row, claimed, row.len() as int);
                lemma_claim(claimed, row[k].1 as int);
            }
            extension(net, adj, claimed.update(row[k].1 as int, true), path.push(row[k].0))
        }
    }
}

/// Growing keeps what was there.
proof fn lemma_extension(net: Network, adj: Seq<Seq<(usize, usize)>>, claimed: Seq<bool>, path: Seq<usize>)
    requires
        net.wf(),
        is_run_adjacency(net, adj),
        path.len() >= 1,
        forall|i: int| 0 <= i < path.len() ==> #[trigger] path[i] < net.station_seq().len(),
    ensures
        extension(net, adj, claimed, path).1.len() >= path.len(),
        extension(net, adj, claimed, path).1.take(path.len() as int) == path,
        extension(net, adj, claimed, path).0.len() == claimed.len(),
        forall|i: int|
            0 <= i < extension(net, adj, claimed, path).1.len() ==> #[trigger] extension(net, adj, claimed, path).1[i]
                < net.station_seq().len(),
    decreases count_unclaimed(claimed),
{
    if path.len() == 0 || closed(path) || path.last() >= adj.len() || collapse(net, adj, path.last() as int) {
        assert(path.take(path.len() as int) =~= path);
    } else {
        let row = adj[path.last() as int];
        let k = first_free(row, claimed, row.len() as int);
        if k < 0 {
            assert(path.take(path.len() as int) =~= path);
        } else {
            lemma_first_free(row, claimed, row.len() as int);
            lemma_claim(claimed, row[k].1 as int);
            lemma_row_corridors(net, adj, path.last() as int);
            let next = path.push(row[k].0);
            lemma_extension(net, adj, claimed.update(row[k].1 as int, true), next);
            let r = extension(net, adj, claimed.update(row[k].1 as int, true), next).1;
            assert(r.take(next.len() as int).take(path.len() as int) =~= r.take(path.len() as int));
            assert(next.take(path.len() as int) =~= path);
        }
    }
}

/// Grow a path from its tail while the tail is not a collapse station.
pub fn extend(
    network: &Network,
    adjacency: &Vec<Vec<(usize, usize)>>,
    claimed: &mut Vec<bool>,
    path: &mut Vec<usize>,
)
    requires
        network.wf(),
        is_run_adjacency(*network, rows_of(adjacency@)),
        old(path)@.len() >= 1,
        forall|i: int| 0 <= i < old(path)@.len() ==> #[trigger] old(path)@[i] < network.station_seq().len(),
    ensures
        (final(claimed)@, final(path)@) == extension(*network, rows_of(adjacency@), old(claimed)@, old(path)@),
{
    let ghost target = extension(*network, rows_of(adjacency@), claimed@, path@);
    loop
        invariant
            network.wf(),
            is_run_adjacency(*network, rows_of(adjacency@)),
            path@.len() >= 1,
            forall|i: int| 0 <= i < path@.len() ==> #[trigger] path@[i] < network.station_seq().len(),
            extension(*network, rows_of(adjacency@), claimed@, path@) == target,
            target == extension(*network, rows_of(adjacency@), old(claimed)@, old(path)@),
        ensures
            (claimed@, path@) == target,
        decreases count_unclaimed(claimed@),
    {
        let tail = path[path.len() - 1];
        if tail == path[0] && path.len() > 1 {
            // The walk came back to where it started: the run has closed.
            return;
        }
        if is_collapse(network, tail, adjacency) {
            return;
        }
        // Degree 2, and the corridor we arrived on is already claimed, so the
        // unclaimed one is the way onward.
        let row = &adjacency[tail];
        assert(row@ == rows_of(adjacency@)[tail as int]);
        proof {
            lemma_row_corridors(*network, rows_of(adjacency@), tail as int);
        }
        let mut k: usize = 0;
        while k < row.len() && !(row[k].1 < claimed.len() && !claimed[row[k].1])
            invariant
                row@ == rows_of(adjacency@)[tail as int],
                k <= row@.len(),
                first_free(row@, claimed@, k as int) < 0,
            decreases row@.len() - k,
        {
            k += 1;
        }
        proof {
            lemma_first_free(row@, claimed@, row@.len() as int);
            if k < row@.len() {
                assert(first_free(row@, claimed@, k + 1) == k);
                lemma_first_free_stays(row@, claimed@, k + 1, row@.len() as int);
            }
        }
        if k == row.len() {
            return;
        }
        let (next, corridor) = row[k];
        proof {
            lemma_claim(claimed@, corridor as int);
        }
        claimed.set(corridor, true);
        path.push(next);
    }
}

proof fn lemma_first_free_stays(row: Seq<(usize, usize)>, claimed: Seq<bool>, n: int, p: int)
    requires
        0 <= n <= p,
        first_free(row, claimed, n) >= 0,
    ensures
        first_free(row, claimed, p) == first_free(row, claimed, n),
    decreases p - n,
{
    if p > n {
        lemma_first_free_stays(row, claimed, n, p - 1);
    }
}

// ---------------------------------------------------------------------------
// One run.
// ---------------------------------------------------------------------------

/// The run seeded at corridor `seed`, and the claims after it: grown from the
/// seed's tail, then — unless it closed — from its other end; a closed run is
/// directed by [`closed_direction`], an open one from its lower-indexed end.
pub open spec fn run_from(
    net: Network,
    adj: Seq<Seq<(usize, usize)>>,
    claimed: Seq<bool>,
    seed: int,
) -> (Seq<bool>, Seq<usize>) {
    let (a, b) = run_ends(net)[seed];
    let (c2, p2) = extension(net, adj, claimed.update(seed, true), seq![a, b]);
    let (c3, p3) = if p2[0] != p2.last() {
        extension(net, adj, c2, p2.reverse())
    } else {
        (c2, p2)
    };
    if p3[0] == p3.last() {
        (c3, closed_direction(p3))
    } else if p3[0] > p3.last() {
        (c3, p3.reverse())
    } else {
        (c3, p3)
    }
}

proof fn lemma_run_ends(net: Network)
    requires
        net.wf(),
    ensures
        forall|e: int|
            0 <= e < run_ends(net).len() ==> (#[trigger] run_ends(net)[e]).0 < run_ends(net)[e].1 && run_ends(net)[e].1
                < net.station_seq().len(),
        run_ends(net).len() == ends(net).len(),
{
    lemma_ends(net);
    assert forall|e: int| 0 <= e < run_ends(net).len() implies (#[trigger] run_ends(net)[e]).0 < run_ends(net)[e].1
        && run_ends(net)[e].1 < net.station_seq().len() by {
        assert(run_ends(net)[e] == normalized(ends(net)[e]));
    }
}

/// One run's stations, in the run's own direction. A closed run repeats its
/// first station as its last, so `windows(3)` reaches every one of its
/// stations exactly once.
///
/// A run can close on either extension, and which one depends on where the
/// seed sat in it, so the test is made after each.
pub fn walk_run(
    network: &Network,
    corridors: &Vec<(usize, usize)>,
    adjacency: &Vec<Vec<(usize, usize)>>,
    claimed: &mut Vec<bool>,
    seed: usize,
) -> (r: Vec<usize>)
    requires
        network.wf(),
        is_run_adjacency(*network, rows_of(adjacency@)),
        corridors@ == run_ends(*network),
        seed < corridors@.len(),
        old(claimed)@.len() == corridors@.len(),
    ensures
        (final(claimed)@, r@) == run_from(*network, rows_of(adjacency@), old(claimed)@, seed as int),
        r@.len() >= 2,
        final(claimed)@.len() == old(claimed)@.len(),
        forall|i: int| 0 <= i < r@.len() ==> #[trigger] r@[i] < network.station_seq().len(),
{
    proof {
        lemma_run_ends(*network);
    }
    let ghost c0 = claimed@;
    let (a, b) = corridors[seed];
    claimed.set(seed, true);
    let mut path: Vec<usize> = Vec::new();
    path.push(a);
    path.push(b);
    proof {
        assert(path@ == seq![a, b]);
        lemma_extension(*network, rows_of(adjacency@), claimed@, path@);
    }
    extend(network, adjacency, claimed, &mut path);
    let ghost p2 = path@;
    let ghost c2 = claimed@;
    proof {
        assert(p2.take(2) == seq![a, b]);
        assert(p2[0] == a && p2[1] == b);
    }
    if path[0] != path[path.len() - 1] {
        path = reversed(&path);
        proof {
            lemma_extension(*network, rows_of(adjacency@), claimed@, path@);
        }
        extend(network, adjacency, claimed, &mut path);
        proof {
            let q = p2.reverse();
            assert(path@.take(q.len() as int) == q);
            assert(path@[0] == q[0]);
        }
    }
    let ghost p3 = path@;
    proof {
        // A closed run has at least three stations: its first two are the
        // ends of one corridor, which are distinct.
        if p3[0] == p3.last() {
            if p2[0] != p2.last() {
                let q = p2.reverse();
                assert(p3.take(q.len() as int) == q);
                assert(q[q.len() - 1] == a && q[q.len() - 2] == b);
                if p3.len() == q.len() {
                    assert(p3[0] == p2.last());
                    assert(p3.last() == a);
                }
            } else {
                assert(p3 == p2);
            }
            assert(p3.len() >= 3);
        }
    }
    let n = path.len();
    if path[0] == path[n - 1] {
        return direct_closed_run(path);
    }
    // Direct the run from its lower-indexed endpoint station to the other.
    if path[0] > path[n - 1] {
        path = reversed(&path);
    }
    path
}

/// A path read backwards.
fn reversed(v: &Vec<usize>) -> (r: Vec<usize>)
    ensures
        r@ == v@.reverse(),
{
    let mut r: Vec<usize> = Vec::new();
    let mut k: usize = v.len();
    while k > 0
        invariant
            k <= v@.len(),
            r@ == v@.subrange(k as int, v@.len() as int).reverse(),
        decreases k,
    {
        r.push(v[k - 1]);
        proof {
            assert(v@.subrange(k - 1, v@.len() as int).reverse() =~= v@.subrange(k as int, v@.len() as int).reverse().push(
                v@[k - 1],
            ));
        }
        k -= 1;
    }
    assert(v@.subrange(0, v@.len() as int) =~= v@);
    r
}

// ---------------------------------------------------------------------------
// Lines in id order.
// ---------------------------------------------------------------------------

/// Byte strings in lexicographic order, as `String` compares.
pub open spec fn bytes_before(x: Seq<u8>, y: Seq<u8>) -> bool
    decreases x.len(),
{
    if x.len() == 0 {
        y.len() > 0
    } else if y.len() == 0 {
        false
    } else if x[0] != y[0] {
        x[0] < y[0]
    } else {
        bytes_before(x.drop_first(), y.drop_first())
    }
}

proof fn lemma_bytes_pair(x: Seq<u8>, y: Seq<u8>)
    ensures
        bytes_before(x, y) ==> !bytes_before(y, x),
        x != y ==> bytes_before(x, y) || bytes_before(y, x),
    decreases x.len(),
{
    if x.len() > 0 && y.len() > 0 && x[0] == y[0] {
        lemma_bytes_pair(x.drop_first(), y.drop_first());
        if x.drop_first() == y.drop_first() {
            assert(x =~= seq![x[0]] + x.drop_first());
            assert(y =~= seq![y[0]] + y.drop_first());
        }
    }
    if x.len() == 0 && y.len() == 0 {
        assert(x =~= y);
    }
}

proof fn lemma_bytes_trans(x: Seq<u8>, y: Seq<u8>, z: Seq<u8>)
    ensures
        bytes_before(x, y) && bytes_before(y, z) ==> bytes_before(x, z),
    decreases x.len(),
{
    if x.len() > 0 && y.len() > 0 && z.len() > 0 {
        lemma_bytes_trans(x.drop_first(), y.drop_first(), z.drop_first());
    }
}

proof fn lemma_bytes_order(x: Seq<u8>, y: Seq<u8>, z: Seq<u8>)
    ensures
        bytes_before(x, y) ==> !bytes_before(y, x),
        bytes_before(x, y) && bytes_before(y, z) ==> bytes_before(x, z),
        x != y ==> bytes_before(x, y) || bytes_before(y, x),
{
    lemma_bytes_pair(x, y);
    lemma_bytes_trans(x, y, z);
}

/// The bytes of a line's id.
pub open spec fn id_bytes(line: Line) -> Seq<u8> {
    vstd::utf8::encode_utf8(line.id@)
}

/// Line `a` sorts before line `b` by id.
pub open spec fn id_before(lines: Seq<Line>, a: usize, b: usize) -> bool {
    bytes_before(id_bytes(lines[a as int]), id_bytes(lines[b as int]))
}

/// `r` is the lines of `set`, sorted by id.
pub open spec fn is_by_id(lines: Seq<Line>, set: Set<usize>, r: Seq<usize>) -> bool {
    &&& forall|l: usize| r.contains(l) <==> set.contains(l)
    &&& forall|i: int, j: int| 0 <= i < j < r.len() ==> id_before(lines, #[trigger] r[i], #[trigger] r[j])
}

/// The lines of `set`, sorted by id.
pub open spec fn by_id(lines: Seq<Line>, set: Set<usize>) -> Seq<usize> {
    choose|r: Seq<usize>| is_by_id(lines, set, r)
}

fn bytes_less(x: &[u8], y: &[u8]) -> (r: bool)
    ensures
        r == bytes_before(x@, y@),
{
    let mut i: usize = 0;
    assert(x@.skip(0) =~= x@ && y@.skip(0) =~= y@);
    while i < x.len() && i < y.len() && x[i] == y[i]
        invariant
            i <= x@.len(),
            i <= y@.len(),
            bytes_before(x@, y@) == bytes_before(x@.skip(i as int), y@.skip(i as int)),
        decreases x@.len() - i,
    {
        proof {
            assert(x@.skip(i + 1) =~= x@.skip(i as int).drop_first());
            assert(y@.skip(i + 1) =~= y@.skip(i as int).drop_first());
        }
        i += 1;
    }
    if i == x.len() {
        i < y.len()
    } else if i == y.len() {
        false
    } else {
        x[i] < y[i]
    }
}

fn line_before(lines: &[Line], a: usize, b: usize) -> (r: bool)
    requires
        a < lines@.len(),
        b < lines@.len(),
    ensures
        r == id_before(lines@, a, b),
{
    bytes_less(lines[a].id.as_str().as_bytes(), lines[b].id.as_str().as_bytes())
}

proof fn lemma_id_order(lines: Seq<Line>, a: usize, b: usize, c: usize)
    requires
        a < lines.len(),
        b < lines.len(),
        distinct_ids(lines),
    ensures
        id_before(lines, a, b) ==> !id_before(lines, b, a),
        a != b ==> id_before(lines, a, b) || id_before(lines, b, a),
        id_before(lines, a, b) && id_before(lines, b, c) ==> id_before(lines, a, c),
{
    broadcast use vstd::utf8::encode_utf8_decode_utf8;

    let (x, y, z) = (id_bytes(lines[a as int]), id_bytes(lines[b as int]), id_bytes(lines[c as int]));
    if a != b {
        if a < b {
            assert(lines[a as int].id@ != lines[b as int].id@);
        } else {
            assert(lines[b as int].id@ != lines[a as int].id@);
        }
    }
    if x == y && a != b {
        assert(vstd::utf8::decode_utf8(x) == lines[a as int].id@);
        assert(vstd::utf8::decode_utf8(y) == lines[b as int].id@);
    }
    lemma_bytes_order(x, y, z);
}

proof fn lemma_id_asymmetric(lines: Seq<Line>)
    ensures
        forall|a: usize, b: usize| #[trigger] id_before(lines, a, b) ==> !id_before(lines, b, a),
{
    assert forall|a: usize, b: usize| #[trigger] id_before(lines, a, b) implies !id_before(lines, b, a) by {
        lemma_bytes_order(id_bytes(lines[a as int]), id_bytes(lines[b as int]), id_bytes(lines[a as int]));
    }
}

/// Line ids are distinct.
pub open spec fn distinct_ids(lines: Seq<Line>) -> bool {
    forall|i: int, j: int| 0 <= i < j < lines.len() ==> #[trigger] lines[i].id@ != #[trigger] lines[j].id@
}

/// The lines of a corridor's line set, sorted by line **id**.
///
/// Deliberately not input order, which is the rule everywhere else: the
/// structure in hand, the line set, is a set of line *indices* and yields
/// the other order.
pub fn lines_by_id(lines: &[Line], set: &crate::graph::LineSet) -> (r: Vec<usize>)
    requires
        distinct_ids(lines@),
        forall|l: usize| set@.contains(l) ==> l < lines@.len(),
    ensures
        is_by_id(lines@, set@, r@),
        r@ == by_id(lines@, set@),
{
    let mut r: Vec<usize> = Vec::new();
    let mut l: usize = 0;
    while l < lines.len()
        invariant
            distinct_ids(lines@),
            forall|x: usize| set@.contains(x) ==> x < lines@.len(),
            l <= lines@.len(),
            forall|x: usize| r@.contains(x) <==> (set@.contains(x) && x < l),
            forall|i: int| 0 <= i < r@.len() ==> #[trigger] r@[i] < l,
            forall|i: int, j: int| 0 <= i < j < r@.len() ==> id_before(lines@, #[trigger] r@[i], #[trigger] r@[j]),
        decreases lines@.len() - l,
    {
        if set.contains(&l) {
            let ghost before = r@;
            let mut p: usize = r.len();
            while p > 0 && line_before(lines, l, r[p - 1])
                invariant
                    r@ == before,
                    l < lines@.len(),
                    forall|i: int| 0 <= i < r@.len() ==> #[trigger] r@[i] < l,
                    p <= r@.len(),
                    forall|i: int| p <= i < r@.len() ==> id_before(lines@, l, #[trigger] r@[i]),
                decreases p,
            {
                p -= 1;
            }
            r.insert(p, l);
            proof {
                assert(r@ == before.take(p as int).push(l).add(before.skip(p as int)));
                if p > 0 {
                    assert(before[p - 1] < l);
                    lemma_id_order(lines@, l, before[p - 1], l);
                }
                assert forall|i: int, j: int| 0 <= i < j < r@.len() implies id_before(
                    lines@,
                    #[trigger] r@[i],
                    #[trigger] r@[j],
                ) by {
                    if j < p {
                        assert(r@[i] == before[i] && r@[j] == before[j]);
                    } else if j == p {
                        assert(r@[i] == before[i]);
                        if i < p - 1 {
                            assert(before[i] < l);
                            lemma_id_order(lines@, before[i], before[p - 1], l);
                        }
                    } else if i == p {
                        assert(r@[j] == before[j - 1]);
                    } else if i < p {
                        assert(r@[i] == before[i] && r@[j] == before[j - 1]);
                        assert(before[i] < l);
                        if p > 0 && i < p - 1 {
                            lemma_id_order(lines@, before[i], before[p - 1], l);
                        }
                        lemma_id_order(lines@, before[i], l, before[j - 1]);
                    } else {
                        assert(r@[i] == before[i - 1] && r@[j] == before[j - 1]);
                    }
                }
                assert forall|i: int| 0 <= i < r@.len() implies #[trigger] r@[i] < l + 1 by {
                    if i < p {
                        assert(r@[i] == before[i]);
                    } else if i > p {
                        assert(r@[i] == before[i - 1]);
                    }
                }
                assert forall|x: usize| r@.contains(x) <==> (set@.contains(x) && x < l + 1) by {
                    if r@.contains(x) && x != l {
                        let i = choose|i: int| 0 <= i < r@.len() && r@[i] == x;
                        if i < p {
                            assert(before[i] == x);
                        } else {
                            assert(before[i - 1] == x);
                        }
                        assert(before.contains(x));
                    }
                    if set@.contains(x) && x < l {
                        assert(before.contains(x));
                        let i = choose|i: int| 0 <= i < before.len() && before[i] == x;
                        if i < p {
                            assert(r@[i] == x);
                        } else {
                            assert(r@[i + 1] == x);
                        }
                    }
                    if x == l {
                        assert(r@[p as int] == l);
                    }
                }
            }
        }
        l += 1;
    }
    proof {
        assert forall|x: usize| r@.contains(x) <==> set@.contains(x) by {}
        let c = by_id(lines@, set@);
        assert(is_by_id(lines@, set@, r@));
        assert(is_by_id(lines@, set@, c));
        lemma_id_asymmetric(lines@);
        let before = |a: usize, b: usize| id_before(lines@, a, b);
        assert forall|x: usize, y: usize| #[trigger] before(x, y) implies !before(y, x) by {}
        assert forall|i: int, j: int| 0 <= i < j < c.len() implies before(#[trigger] c[i], #[trigger] c[j]) by {
            assert(id_before(lines@, c[i], c[j]));
        }
        assert forall|i: int, j: int| 0 <= i < j < r@.len() implies before(#[trigger] r@[i], #[trigger] r@[j]) by {
            assert(id_before(lines@, r@[i], r@[j]));
        }
        crate::layout::lemma_sorted_unique(c, r@, before);
    }
    r
}

// ---------------------------------------------------------------------------
// Every station's frame.
// ---------------------------------------------------------------------------

/// Where a station's offsets are taken from: the stations before and after it
/// along its run, in the run's direction, and the run's lines sorted by id.
///
/// Held per station: a station carrying a frame is a non-collapse station, so
/// its degree is 2 and it belongs to exactly one run.
#[derive(Debug, Clone)]
pub struct RunFrame {
    pub previous: usize,
    pub next: usize,
    pub lines_by_id: Vec<usize>,
}

/// A frame by its values.
pub open spec fn frame_view(f: Option<RunFrame>) -> Option<(usize, usize, Seq<usize>)> {
    match f {
        Some(f) => Some((f.previous, f.next, f.lines_by_id@)),
        None => None,
    }
}

/// Some corridor joins `a` and `b`.
pub open spec fn linked(net: Network, a: usize, b: usize) -> bool {
    exists|e: int| 0 <= e < net.corridor_seq().len() && crate::graph::joins(#[trigger] net.corridor_seq()[e], a, b)
}

/// The lines of the run whose first corridor joins `a` and `b`, sorted by
/// id: the line set read off that corridor, or none when no corridor joins
/// them.
pub open spec fn run_lines(net: Network, a: usize, b: usize) -> Seq<usize> {
    if linked(net, a, b) {
        let e = choose|e: int| 0 <= e < net.corridor_seq().len() && crate::graph::joins(#[trigger] net.corridor_seq()[e], a, b);
        by_id(net.line_seq(), net.corridor_seq()[e].2)
    } else {
        Seq::empty()
    }
}

/// `frames` with the first `w` windows of `walk` marked: the middle station
/// of each window, unless it is a collapse station, takes the window's two
/// outer stations and `lines`.
pub open spec fn mark(
    net: Network,
    adj: Seq<Seq<(usize, usize)>>,
    frames: Seq<Option<(usize, usize, Seq<usize>)>>,
    walk: Seq<usize>,
    lines: Seq<usize>,
    w: int,
) -> Seq<Option<(usize, usize, Seq<usize>)>>
    decreases w,
{
    if w <= 0 {
        frames
    } else {
        let f = mark(net, adj, frames, walk, lines, w - 1);
        let s = walk[w];
        if collapse(net, adj, s as int) {
            f
        } else {
            f.update(s as int, Some((walk[w - 1], walk[w + 1], lines)))
        }
    }
}

/// A run as its windows are read: a closed run wraps round to its second
/// station, so its first station is a middle too.
pub open spec fn framed_walk(path: Seq<usize>) -> Seq<usize> {
    if path[0] == path.last() {
        path.push(path[1])
    } else {
        path
    }
}

/// The claims and frames after the runs seeded at the first `n` corridors,
/// in corridor order; a corridor already claimed seeds nothing.
pub open spec fn runs_after(net: Network, adj: Seq<Seq<(usize, usize)>>, n: int) -> (
    Seq<bool>,
    Seq<Option<(usize, usize, Seq<usize>)>>,
)
    decreases n,
{
    if n <= 0 {
        (
            Seq::new(net.corridor_seq().len(), |e: int| false),
            Seq::new(net.station_seq().len(), |s: int| None::<(usize, usize, Seq<usize>)>),
        )
    } else {
        let (claimed, frames) = runs_after(net, adj, n - 1);
        if claimed[n - 1] {
            (claimed, frames)
        } else {
            let (c2, path) = run_from(net, adj, claimed, n - 1);
            let lines = run_lines(net, path[0], path[1]);
            let walk = framed_walk(path);
            (c2, mark(net, adj, frames, walk, lines, walk.len() - 2))
        }
    }
}

proof fn lemma_runs_after_len(net: Network, adj: Seq<Seq<(usize, usize)>>, n: int)
    requires
        net.wf(),
        is_run_adjacency(net, adj),
        0 <= n <= net.corridor_seq().len(),
    ensures
        runs_after(net, adj, n).0.len() == net.corridor_seq().len(),
        runs_after(net, adj, n).1.len() == net.station_seq().len(),
        forall|t: int|
            0 <= t < net.station_seq().len() && collapse(net, adj, t) ==> #[trigger] runs_after(net, adj, n).1[t]
                is None,
    decreases n,
{
    if n > 0 {
        lemma_runs_after_len(net, adj, n - 1);
        let (claimed, frames) = runs_after(net, adj, n - 1);
        if !claimed[n - 1] {
            lemma_run_ends(net);
            let (a, b) = run_ends(net)[n - 1];
            lemma_extension(net, adj, claimed.update(n - 1, true), seq![a, b]);
            let (c2, p2) = extension(net, adj, claimed.update(n - 1, true), seq![a, b]);
            if p2[0] != p2.last() {
                assert forall|i: int| 0 <= i < p2.reverse().len() implies #[trigger] p2.reverse()[i]
                    < net.station_seq().len() by {
                    assert(p2.reverse()[i] == p2[p2.len() - 1 - i]);
                }
                lemma_extension(net, adj, c2, p2.reverse());
            }
            let (c3, path) = run_from(net, adj, claimed, n - 1);
            let walk = framed_walk(path);
            lemma_mark_len(net, adj, frames, walk, run_lines(net, path[0], path[1]), walk.len() - 2);
        }
    }
}

proof fn lemma_mark_len(
    net: Network,
    adj: Seq<Seq<(usize, usize)>>,
    frames: Seq<Option<(usize, usize, Seq<usize>)>>,
    walk: Seq<usize>,
    lines: Seq<usize>,
    w: int,
)
    requires
        forall|i: int| 0 <= i < walk.len() ==> #[trigger] walk[i] < frames.len(),
        w < walk.len(),
    ensures
        mark(net, adj, frames, walk, lines, w).len() == frames.len(),
        forall|t: int|
            0 <= t < frames.len() && collapse(net, adj, t) ==> #[trigger] mark(net, adj, frames, walk, lines, w)[t]
                == frames[t],
    decreases w,
{
    if w > 0 {
        lemma_mark_len(net, adj, frames, walk, lines, w - 1);
    }
}

/// **A collapse station carries no frame.** Wherever the degree is not two
/// or the line set changes across a station, every line through it is drawn
/// at offset zero: the bundle converges there, and only a station inside a
/// run keeps its lines apart.
pub proof fn lemma_collapse_has_no_frame(net: Network, adj: Seq<Seq<(usize, usize)>>, s: int)
    requires
        net.wf(),
        is_run_adjacency(net, adj),
        0 <= s < net.station_seq().len(),
        collapse(net, adj, s),
    ensures
        adj == run_adjacency(net),
        runs_after(net, run_adjacency(net), net.corridor_seq().len() as int).1[s] is None,
{
    lemma_adjacency_unique(net, adj);
    lemma_runs_after_len(net, adj, net.corridor_seq().len() as int);
}

/// Every station's frame, or `None` where it is a collapse station or on no
/// run.
///
/// Runs are found seed by seed in corridor order; within a run, each window
/// of three stations gives its middle station the window's outer two, unless
/// the middle is a collapse station — an endpoint of an open run always is.
/// The run's line set is read off its first corridor: the lines of a run are
/// one set by construction.
pub fn station_runs(network: &Network) -> (r: Vec<Option<RunFrame>>)
    requires
        network.wf(),
    ensures
        r@.len() == network.station_seq().len(),
        forall|s: int|
            0 <= s < r@.len() ==> frame_view(#[trigger] r@[s]) == runs_after(
                *network,
                run_adjacency(*network),
                network.corridor_seq().len() as int,
            ).1[s],
{
    proof {
        lemma_run_ends(*network);
        network.lemma_wf();
        crate::model::lemma_duplicate_line(network.line_seq());
    }
    let corridors = run_corridors(network);
    let stations = network.stations().len();
    let adjacency = adjacency(stations, &corridors);
    let ghost adj = rows_of(adjacency@);
    proof {
        assert(corridors@ == run_ends(*network));
        assert(is_run_adjacency(*network, adj));
        lemma_adjacency_unique(*network, adj);
    }
    let mut frames: Vec<Option<RunFrame>> = Vec::new();
    let mut s: usize = 0;
    while s < stations
        invariant
            s <= stations,
            frames@.len() == s,
            forall|t: int| 0 <= t < s ==> frame_view(#[trigger] frames@[t]) is None,
        decreases stations - s,
    {
        frames.push(None);
        s += 1;
    }
    let mut claimed: Vec<bool> = Vec::new();
    let mut e: usize = 0;
    while e < corridors.len()
        invariant
            e <= corridors@.len(),
            claimed@.len() == e,
            forall|q: int| 0 <= q < e ==> !#[trigger] claimed@[q],
        decreases corridors@.len() - e,
    {
        claimed.push(false);
        e += 1;
    }
    proof {
        let init = runs_after(*network, adj, 0);
        assert(claimed@ =~= init.0);
        assert forall|t: int| 0 <= t < frames@.len() implies frame_view(#[trigger] frames@[t]) == init.1[t] by {}
    }

    let mut seed: usize = 0;
    while seed < corridors.len()
        invariant
            network.wf(),
            corridors@ == run_ends(*network),
            corridors@.len() == network.corridor_seq().len(),
            adj == rows_of(adjacency@),
            is_run_adjacency(*network, adj),
            distinct_ids(network.line_seq()),
            stations == network.station_seq().len(),
            seed <= corridors@.len(),
            claimed@ == runs_after(*network, adj, seed as int).0,
            frames@.len() == stations,
            forall|t: int| 0 <= t < frames@.len() ==> frame_view(#[trigger] frames@[t]) == runs_after(
                *network,
                adj,
                seed as int,
            ).1[t],
        decreases corridors@.len() - seed,
    {
        proof {
            lemma_runs_after_len(*network, adj, seed as int);
        }
        if claimed[seed] {
            seed += 1;
            continue;
        }
        let ghost before = frames@;
        let ghost c0 = claimed@;
        let path = walk_run(network, &corridors, &adjacency, &mut claimed, seed);
        let lines: Vec<usize> = match network.lines_between(path[0], path[1]) {
            Some(set) => {
                proof {
                    network.lemma_wf();
                    assert forall|l: usize| set@.contains(l) implies l < network.line_seq().len() by {
                        let e = choose|e: int|
                            0 <= e < network.corridor_seq().len() && crate::graph::joins(
                                #[trigger] network.corridor_seq()[e],
                                path@[0],
                                path@[1],
                            ) && set@ == network.corridor_seq()[e].2;
                        assert(network.corridor_seq()[e].2.contains(l));
                    }
                }
                let sorted = lines_by_id(network.lines(), set);
                proof {
                    // The line set is the same whichever corridor joins the pair.
                    let e = choose|e: int|
                        0 <= e < network.corridor_seq().len() && crate::graph::joins(
                            #[trigger] network.corridor_seq()[e],
                            path@[0],
                            path@[1],
                        ) && set@ == network.corridor_seq()[e].2;
                    assert(linked(*network, path@[0], path@[1]));
                    let f = choose|f: int|
                        0 <= f < network.corridor_seq().len() && crate::graph::joins(#[trigger] network.corridor_seq()[f], path@[0], path@[1]);
                    lemma_ends(*network);
                    if e < f {
                        assert(!crate::graph::joins(network.corridor_seq()[f], network.corridor_seq()[e].0, network.corridor_seq()[e].1));
                    }
                    if f < e {
                        assert(!crate::graph::joins(network.corridor_seq()[e], network.corridor_seq()[f].0, network.corridor_seq()[f].1));
                    }
                    assert(e == f);
                }
                sorted
            },
            None => Vec::new(),
        };
        proof {
            assert(lines@ == run_lines(*network, path@[0], path@[1]));
        }
        let mut walk: Vec<usize> = path.clone();
        let n = path.len();
        if path[0] == path[n - 1] {
            walk.push(path[1]);
        }
        proof {
            assert(walk@ == framed_walk(path@));
        }
        let total = walk.len();
        let windows = total - 2;
        let mut w: usize = 0;
        while w < windows
            invariant
                network.wf(),
                is_run_adjacency(*network, adj),
                adj == rows_of(adjacency@),
                frames@.len() == stations,
                stations == network.station_seq().len(),
                forall|i: int| 0 <= i < walk@.len() ==> #[trigger] walk@[i] < stations,
                w <= windows,
                windows + 2 == walk@.len(),
                total == walk@.len(),
                forall|t: int| 0 <= t < frames@.len() ==> frame_view(#[trigger] frames@[t]) == mark(
                    *network,
                    adj,
                    runs_after(*network, adj, seed as int).1,
                    walk@,
                    lines@,
                    w as int,
                )[t],
                runs_after(*network, adj, seed as int).1.len() == stations,
            decreases walk@.len() - w,
        {
            let previous = walk[w];
            let station = walk[w + 1];
            let next = walk[w + 2];
            let ghost f0 = frames@;
            if !is_collapse(network, station, &adjacency) {
                frames.set(station, Some(RunFrame { previous, next, lines_by_id: lines.clone() }));
            }
            proof {
                lemma_mark_len(*network, adj, runs_after(*network, adj, seed as int).1, walk@, lines@, w as int);
                let m1 = mark(*network, adj, runs_after(*network, adj, seed as int).1, walk@, lines@, w + 1);
                assert forall|t: int| 0 <= t < frames@.len() implies frame_view(#[trigger] frames@[t]) == m1[t] by {
                    if t != station as int {
                        assert(frames@[t] == f0[t]);
                    }
                }
            }
            w += 1;
        }
        proof {
            assert(w == walk@.len() - 2);
            assert(runs_after(*network, adj, seed + 1).0 == claimed@);
        }
        seed += 1;
    }
    frames
}

/// The adjacency rows are determined by the corridors.
proof fn lemma_adjacency_unique(net: Network, adj: Seq<Seq<(usize, usize)>>)
    requires
        is_run_adjacency(net, adj),
    ensures
        adj == run_adjacency(net),
{
    let before = |a: (usize, usize), b: (usize, usize)| pair_before(a, b);
    assert forall|x: (usize, usize), y: (usize, usize)| #[trigger] before(x, y) implies !before(y, x) by {}
    assert forall|s: int| 0 <= s < adj.len() implies #[trigger] adj[s] == run_adjacency(net)[s] by {
        let c = run_adjacency(net)[s];
        assert(is_adjacency_row(run_ends(net), s as usize, adj[s]));
        assert(is_adjacency_row(run_ends(net), s as usize, c));
        assert forall|i: int, j: int| 0 <= i < j < c.len() implies before(#[trigger] c[i], #[trigger] c[j]) by {
            assert(pair_before(c[i], c[j]));
        }
        assert forall|i: int, j: int| 0 <= i < j < adj[s].len() implies before(#[trigger] adj[s][i], #[trigger] adj[s][j]) by {
            assert(pair_before(adj[s][i], adj[s][j]));
        }
        crate::layout::lemma_sorted_unique(c, adj[s], before);
    }
    assert(adj =~= run_adjacency(net));
}

impl RunFrame {
    /// Where `line` stands in the run's id order, which is its slot in the
    /// bundle; `None` when the line is not in the run.
    pub fn rank(&self, line: usize) -> (r: Option<usize>)
        ensures
            r is None <==> !self.lines_by_id@.contains(line),
            r matches Some(k) ==> k < self.lines_by_id@.len() && self.lines_by_id@[k as int] == line && forall|j: int|
                0 <= j < k ==> self.lines_by_id@[j] != line,
    {
        let mut k: usize = 0;
        while k < self.lines_by_id.len()
            invariant
                k <= self.lines_by_id@.len(),
                forall|j: int| 0 <= j < k ==> self.lines_by_id@[j] != line,
            decreases self.lines_by_id@.len() - k,
        {
            if self.lines_by_id[k] == line {
                return Some(k);
            }
            k += 1;
        }
        None
    }
}

// ---------------------------------------------------------------------------
// What a frame says.
// ---------------------------------------------------------------------------

/// A corridor over which the lines are `set` joins `x` to `y`: `y` is a
/// neighbour in `x`'s adjacency row.
pub open spec fn step(net: Network, adj: Seq<Seq<(usize, usize)>>, x: usize, y: usize, set: Set<usize>) -> bool {
    &&& x < adj.len()
    &&& exists|k: int|
        0 <= k < adj[x as int].len() && #[trigger] adj[x as int][k].0 == y && net.corridor_seq()[adj[x as int][k].1 as int].2 == set
}

/// Every two consecutive stations of `path` are joined by a corridor
/// carrying `set`.
pub open spec fn steps_over(net: Network, adj: Seq<Seq<(usize, usize)>>, path: Seq<usize>, set: Set<usize>) -> bool {
    forall|i: int| 0 <= i < path.len() - 1 ==> #[trigger] step(net, adj, path[i], path[i + 1], set)
}

/// Station `t` has a frame `(previous, next, lines)` that sits inside its
/// run: `t` is no collapse station, so it has two corridors carrying one line
/// set; `previous` and `next` are neighbours of it over those corridors; and
/// `lines` is that line set sorted by id.
pub open spec fn frame_inside_run(
    net: Network,
    adj: Seq<Seq<(usize, usize)>>,
    t: int,
    frame: (usize, usize, Seq<usize>),
) -> bool {
    let set = net.corridor_seq()[adj[t][0].1 as int].2;
    &&& !collapse(net, adj, t)
    &&& adj[t].len() == 2
    &&& (frame.0 == adj[t][0].0 || frame.0 == adj[t][1].0)
    &&& (frame.1 == adj[t][0].0 || frame.1 == adj[t][1].0)
    &&& frame.2 == by_id(net.line_seq(), set)
}

/// Every frame of `frames` sits inside its run.
pub open spec fn frames_inside_runs(
    net: Network,
    adj: Seq<Seq<(usize, usize)>>,
    frames: Seq<Option<(usize, usize, Seq<usize>)>>,
) -> bool {
    forall|t: int| 0 <= t < frames.len() && (#[trigger] frames[t]) is Some ==> frame_inside_run(net, adj, t, frames[t].unwrap())
}

proof fn lemma_step_back(net: Network, adj: Seq<Seq<(usize, usize)>>, x: usize, y: usize, set: Set<usize>)
    requires
        net.wf(),
        is_run_adjacency(net, adj),
        step(net, adj, x, y, set),
        y < adj.len(),
    ensures
        step(net, adj, y, x, set),
{
    let k = choose|k: int|
        0 <= k < adj[x as int].len() && #[trigger] adj[x as int][k].0 == y && net.corridor_seq()[adj[x as int][k].1 as int].2
            == set;
    let c = adj[x as int][k].1;
    assert(adj[x as int].contains(adj[x as int][k]));
    assert(is_adjacency_row(run_ends(net), x, adj[x as int]));
    assert(is_adjacency_row(run_ends(net), y, adj[y as int]));
    assert(adj[y as int].contains((x, c)));
    let k2 = choose|k2: int| 0 <= k2 < adj[y as int].len() && adj[y as int][k2] == (x, c);
    assert(adj[y as int][k2].0 == x);
}

proof fn lemma_steps_reverse(net: Network, adj: Seq<Seq<(usize, usize)>>, path: Seq<usize>, set: Set<usize>)
    requires
        net.wf(),
        is_run_adjacency(net, adj),
        steps_over(net, adj, path, set),
        forall|i: int| 0 <= i < path.len() ==> #[trigger] path[i] < adj.len(),
    ensures
        steps_over(net, adj, path.reverse(), set),
{
    let r = path.reverse();
    assert forall|i: int| 0 <= i < r.len() - 1 implies #[trigger] step(net, adj, r[i], r[i + 1], set) by {
        let j = path.len() - 2 - i;
        assert(r[i] == path[j + 1] && r[i + 1] == path[j]);
        assert(step(net, adj, path[j], path[j + 1], set));
        lemma_step_back(net, adj, path[j], path[j + 1], set);
    }
}

/// Through a station that is no collapse station, a run leaves over a
/// corridor carrying the lines it arrived over.
proof fn lemma_steps_extension(
    net: Network,
    adj: Seq<Seq<(usize, usize)>>,
    claimed: Seq<bool>,
    path: Seq<usize>,
    set: Set<usize>,
)
    requires
        net.wf(),
        is_run_adjacency(net, adj),
        path.len() >= 2,
        forall|i: int| 0 <= i < path.len() ==> #[trigger] path[i] < net.station_seq().len(),
        steps_over(net, adj, path, set),
    ensures
        steps_over(net, adj, extension(net, adj, claimed, path).1, set),
    decreases count_unclaimed(claimed),
{
    if path.len() == 0 || closed(path) || path.last() >= adj.len() || collapse(net, adj, path.last() as int) {
    } else {
        let t = path.last();
        let row = adj[t as int];
        let k = first_free(row, claimed, row.len() as int);
        if k >= 0 {
            lemma_first_free(row, claimed, row.len() as int);
            lemma_claim(claimed, row[k].1 as int);
            lemma_row_corridors(net, adj, t as int);
            let n = path.len() as int;
            let i = n - 2;
            assert(step(net, adj, path[i], path[i + 1], set));
            assert(path[i + 1] == t);
            lemma_step_back(net, adj, path[n - 2], t, set);
            let k2 = choose|k2: int|
                0 <= k2 < adj[t as int].len() && #[trigger] adj[t as int][k2].0 == path[n - 2] && net.corridor_seq()[adj[t as int][k2].1 as int].2 == set;
            assert(net.corridor_seq()[row[k].1 as int].2 == set);
            assert(step(net, adj, t, row[k].0, set));
            let next = path.push(row[k].0);
            assert forall|i: int| 0 <= i < next.len() - 1 implies #[trigger] step(net, adj, next[i], next[i + 1], set) by {
                if i < n - 1 {
                    assert(next[i] == path[i] && next[i + 1] == path[i + 1]);
                }
            }
            assert forall|i: int| 0 <= i < next.len() implies #[trigger] next[i] < net.station_seq().len() by {
                if i < n {
                    assert(next[i] == path[i]);
                }
            }
            lemma_steps_extension(net, adj, claimed.update(row[k].1 as int, true), next, set);
        }
    }
}

proof fn lemma_wrap(x: int, n: int)
    requires
        0 < n,
        0 <= x < 2 * n,
    ensures
        x % n == if x < n {
            x
        } else {
            x - n
        },
{
    vstd::arithmetic::div_mod::lemma_fundamental_div_mod_converse(
        x,
        n,
        if x < n {
            0int
        } else {
            1int
        },
        if x < n {
            x
        } else {
            x - n
        },
    );
}

/// Directing a closed run walks the same cycle.
proof fn lemma_steps_closed_direction(net: Network, adj: Seq<Seq<(usize, usize)>>, path: Seq<usize>, set: Set<usize>)
    requires
        net.wf(),
        is_run_adjacency(net, adj),
        path.len() >= 3,
        path[0] == path.last(),
        forall|i: int| 0 <= i < path.len() ==> #[trigger] path[i] < adj.len(),
        steps_over(net, adj, path, set),
    ensures
        steps_over(net, adj, closed_direction(path), set),
        forall|i: int|
            0 <= i < closed_direction(path).len() ==> #[trigger] closed_direction(path)[i] < adj.len(),
{
    let c = path.drop_last();
    let n = c.len() as int;
    lemma_first_min(c);
    let s = first_min(c);
    let r = rotated(c, s);
    let rr = r.push(r[0]);
    assert forall|j: int| 0 <= j < n implies #[trigger] step(net, adj, c[j], c[(j + 1) % n], set) by {
        lemma_wrap(j + 1, n);
        assert(step(net, adj, path[j], path[j + 1], set));
        if j == n - 1 {
            assert(path[j + 1] == path[0]);
        }
    }
    assert forall|k: int| 0 <= k < rr.len() - 1 implies #[trigger] step(net, adj, rr[k], rr[k + 1], set) by {
        lemma_wrap(s + k, n);
        lemma_wrap((s + k) % n + 1, n);
        lemma_wrap(s, n);
        if k < n - 1 {
            lemma_wrap(s + k + 1, n);
            assert(rr[k] == c[(s + k) % n] && rr[k + 1] == c[(s + k + 1) % n]);
            assert(((s + k) % n + 1) % n == (s + k + 1) % n);
        } else {
            assert(rr[k] == c[(s + k) % n] && rr[k + 1] == c[s % n]);
            assert(((s + k) % n + 1) % n == s % n);
        }
        assert(step(net, adj, c[(s + k) % n], c[((s + k) % n + 1) % n], set));
    }
    assert forall|i: int| 0 <= i < rr.len() implies #[trigger] rr[i] < adj.len() by {
        if i < n {
            lemma_wrap(s + i, n);
            assert(rr[i] == c[(s + i) % n]);
        } else {
            lemma_wrap(s, n);
            assert(rr[i] == c[s % n]);
        }
        assert(c[(s + i) % n] == path[(s + i) % n] || i >= n);
    }
    if r[n - 1] < r[1] {
        let d = seq![r[0]] + r.subrange(1, n).reverse();
        assert(d.push(d[0]) =~= rr.reverse());
        lemma_steps_reverse(net, adj, rr, set);
    } else {
        assert(closed_direction(path) == rr);
    }
}

/// A run walks corridors carrying the lines of its seed corridor.
proof fn lemma_run_from_steps(net: Network, adj: Seq<Seq<(usize, usize)>>, claimed: Seq<bool>, seed: int)
    requires
        net.wf(),
        is_run_adjacency(net, adj),
        0 <= seed < net.corridor_seq().len(),
        claimed.len() == net.corridor_seq().len(),
    ensures
        run_from(net, adj, claimed, seed).1.len() >= 2,
        forall|i: int|
            0 <= i < run_from(net, adj, claimed, seed).1.len() ==> #[trigger] run_from(net, adj, claimed, seed).1[i]
                < net.station_seq().len(),
        steps_over(net, adj, run_from(net, adj, claimed, seed).1, net.corridor_seq()[seed].2),
{
    lemma_run_ends(net);
    lemma_ends(net);
    let set = net.corridor_seq()[seed].2;
    let (a, b) = run_ends(net)[seed];
    assert(seed as usize as int == seed);
    assert(is_adjacency_row(run_ends(net), a, adj[a as int]));
    assert(adj[a as int].contains((b, seed as usize)));
    let k = choose|k: int| 0 <= k < adj[a as int].len() && adj[a as int][k] == (b, seed as usize);
    assert(step(net, adj, a, b, set));
    let p0 = seq![a, b];
    assert forall|i: int| 0 <= i < p0.len() - 1 implies #[trigger] step(net, adj, p0[i], p0[i + 1], set) by {}
    let c1 = claimed.update(seed, true);
    lemma_extension(net, adj, c1, p0);
    lemma_steps_extension(net, adj, c1, p0, set);
    let (c2, p2) = extension(net, adj, c1, p0);
    if p2[0] != p2.last() {
        lemma_steps_reverse(net, adj, p2, set);
        assert forall|i: int| 0 <= i < p2.reverse().len() implies #[trigger] p2.reverse()[i] < net.station_seq().len() by {
            assert(p2.reverse()[i] == p2[p2.len() - 1 - i]);
        }
        lemma_extension(net, adj, c2, p2.reverse());
        lemma_steps_extension(net, adj, c2, p2.reverse(), set);
    }
    let p3 = if p2[0] != p2.last() {
        extension(net, adj, c2, p2.reverse()).1
    } else {
        p2
    };
    if p3[0] == p3.last() {
        if p3.len() >= 3 {
            lemma_steps_closed_direction(net, adj, p3, set);
            lemma_closed_direction(p3);
        } else {
            assert(p3[0] == p3[1]);
            assert(step(net, adj, p3[0], p3[1], set));
            let kk = choose|kk: int|
                0 <= kk < adj[p3[0] as int].len() && #[trigger] adj[p3[0] as int][kk].0 == p3[1] && net.corridor_seq()[adj[p3[0] as int][kk].1 as int].2 == set;
            lemma_row_corridors(net, adj, p3[0] as int);
            assert(adj[p3[0] as int].contains(adj[p3[0] as int][kk]));
            assert(is_adjacency_row(run_ends(net), p3[0], adj[p3[0] as int]));
            let cc = adj[p3[0] as int][kk].1 as int;
            assert(run_ends(net)[cc].0 < run_ends(net)[cc].1);
        }
    } else if p3[0] > p3.last() {
        lemma_steps_reverse(net, adj, p3, set);
        assert forall|i: int| 0 <= i < p3.reverse().len() implies #[trigger] p3.reverse()[i] < net.station_seq().len() by {
            assert(p3.reverse()[i] == p3[p3.len() - 1 - i]);
        }
    }
}

/// The lines a run takes from its first corridor are the lines of any
/// corridor joining its first two stations.
proof fn lemma_run_lines_of_step(net: Network, adj: Seq<Seq<(usize, usize)>>, x: usize, y: usize, set: Set<usize>)
    requires
        net.wf(),
        is_run_adjacency(net, adj),
        step(net, adj, x, y, set),
    ensures
        run_lines(net, x, y) == by_id(net.line_seq(), set),
{
    lemma_ends(net);
    net.lemma_wf();
    let cs = net.corridor_seq();
    let k = choose|k: int|
        0 <= k < adj[x as int].len() && #[trigger] adj[x as int][k].0 == y && cs[adj[x as int][k].1 as int].2 == set;
    let c = adj[x as int][k].1 as int;
    assert(adj[x as int].contains(adj[x as int][k]));
    assert(is_adjacency_row(run_ends(net), x, adj[x as int]));
    assert(run_ends(net)[c] == normalized(ends(net)[c]));
    assert(ends(net)[c] == (cs[c].0, cs[c].1));
    assert(crate::graph::joins(cs[c], x, y));
    assert(linked(net, x, y));
    let e = choose|e: int| 0 <= e < cs.len() && crate::graph::joins(#[trigger] cs[e], x, y);
    if e < c {
        assert(!crate::graph::joins(cs[c], cs[e].0, cs[e].1));
    } else if c < e {
        assert(!crate::graph::joins(cs[e], cs[c].0, cs[c].1));
    }
    assert(e == c);
}

proof fn lemma_mark_inside_runs(
    net: Network,
    adj: Seq<Seq<(usize, usize)>>,
    frames: Seq<Option<(usize, usize, Seq<usize>)>>,
    walk: Seq<usize>,
    lines: Seq<usize>,
    set: Set<usize>,
    w: int,
)
    requires
        net.wf(),
        is_run_adjacency(net, adj),
        frames.len() == adj.len(),
        frames_inside_runs(net, adj, frames),
        forall|i: int| 0 <= i < walk.len() ==> #[trigger] walk[i] < adj.len(),
        steps_over(net, adj, walk, set),
        lines == by_id(net.line_seq(), set),
        w < walk.len() - 1,
    ensures
        mark(net, adj, frames, walk, lines, w).len() == frames.len(),
        frames_inside_runs(net, adj, mark(net, adj, frames, walk, lines, w)),
    decreases w,
{
    if w > 0 {
        lemma_mark_inside_runs(net, adj, frames, walk, lines, set, w - 1);
        let f = mark(net, adj, frames, walk, lines, w - 1);
        let t = walk[w];
        if !collapse(net, adj, t as int) {
            let g = f.update(t as int, Some((walk[w - 1], walk[w + 1], lines)));
            assert(step(net, adj, walk[w], walk[w + 1], set));
            let i = w - 1;
            assert(step(net, adj, walk[i], walk[i + 1], set));
            lemma_step_back(net, adj, walk[w - 1], t, set);
            let cs = net.corridor_seq();
            let kn = choose|k: int|
                0 <= k < adj[t as int].len() && #[trigger] adj[t as int][k].0 == walk[w + 1] && cs[adj[t as int][k].1 as int].2
                    == set;
            let kp = choose|k: int|
                0 <= k < adj[t as int].len() && #[trigger] adj[t as int][k].0 == walk[w - 1] && cs[adj[t as int][k].1 as int].2
                    == set;
            assert(adj[t as int].len() == 2);
            assert(cs[adj[t as int][0].1 as int].2 == set);
            assert(frame_inside_run(net, adj, t as int, (walk[w - 1], walk[w + 1], lines)));
            assert forall|u: int| 0 <= u < g.len() && (#[trigger] g[u]) is Some implies frame_inside_run(
                net,
                adj,
                u,
                g[u].unwrap(),
            ) by {
                if u != t as int {
                    assert(g[u] == f[u]);
                }
            }
        }
    }
}

proof fn lemma_runs_inside(net: Network, adj: Seq<Seq<(usize, usize)>>, n: int)
    requires
        net.wf(),
        is_run_adjacency(net, adj),
        0 <= n <= net.corridor_seq().len(),
    ensures
        frames_inside_runs(net, adj, runs_after(net, adj, n).1),
    decreases n,
{
    if n > 0 {
        lemma_runs_inside(net, adj, n - 1);
        lemma_runs_after_len(net, adj, n - 1);
        let (claimed, frames) = runs_after(net, adj, n - 1);
        if !claimed[n - 1] {
            lemma_run_from_steps(net, adj, claimed, n - 1);
            let set = net.corridor_seq()[n - 1].2;
            let (c2, path) = run_from(net, adj, claimed, n - 1);
            let i = 0int;
            assert(step(net, adj, path[i], path[i + 1], set));
            lemma_run_lines_of_step(net, adj, path[0], path[1], set);
            let lines = run_lines(net, path[0], path[1]);
            let walk = framed_walk(path);
            if path[0] == path.last() {
                assert forall|j: int| 0 <= j < walk.len() - 1 implies #[trigger] step(net, adj, walk[j], walk[j + 1], set) by {
                    if j < path.len() - 1 {
                        assert(walk[j] == path[j] && walk[j + 1] == path[j + 1]);
                    } else {
                        assert(walk[j] == path[0] && walk[j + 1] == path[1]);
                    }
                }
            }
            assert forall|j: int| 0 <= j < walk.len() implies #[trigger] walk[j] < adj.len() by {
                if j < path.len() {
                    assert(walk[j] == path[j]);
                } else {
                    assert(walk[j] == path[1]);
                }
            }
            lemma_mark_inside_runs(net, adj, frames, walk, lines, set, walk.len() - 2);
        }
    }
}

/// **A framed station sits inside its run.** A station that carries a frame
/// is no collapse station: it has exactly two corridors, both carrying one
/// line set. The frame's `previous` and `next` are neighbours of it over
/// those corridors, and its lines are that line set sorted by id.
pub proof fn lemma_frame_sits_inside_its_run(net: Network, adj: Seq<Seq<(usize, usize)>>, s: int)
    requires
        net.wf(),
        is_run_adjacency(net, adj),
        0 <= s < net.station_seq().len(),
        runs_after(net, run_adjacency(net), net.corridor_seq().len() as int).1[s] is Some,
    ensures
        adj == run_adjacency(net),
        frame_inside_run(net, adj, s, runs_after(net, adj, net.corridor_seq().len() as int).1[s].unwrap()),
{
    lemma_adjacency_unique(net, adj);
    lemma_runs_after_len(net, adj, net.corridor_seq().len() as int);
    lemma_runs_inside(net, adj, net.corridor_seq().len() as int);
}

} // verus!
