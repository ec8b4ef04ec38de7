//! Where a station may move, and which of those moves are legal.
//!
//! [`spiral_offsets`] enumerates the cells the search tries, in the one order
//! that makes "the earlier cell wins" a rule rather than an accident.
//! [`is_valid_move`] applies the hard rejections, which exist to keep the
//! network from tearing: a taken cell, a flipped fan at the station, and an
//! edge folded back along another. **Ordinary crossings are not rejected
//! here**; they are left to the crossing penalty.

use vstd::prelude::*;

use crate::geometry::{difference_sign, lies_along, segments_overlap};
use crate::grid::{angle_before, key, ring, ring_cell, upper_half, wide, GridOccupancy, GridPoint};
use crate::layout::{corridors, ends, lemma_ends, lemma_sorted_unique, sized};
use crate::model::Network;

verus! {

// ---------------------------------------------------------------------------
// The candidate cells.
// ---------------------------------------------------------------------------

/// The cells within `radius` rings of the origin, as offsets, in spiral
/// order: increasing ring, and within a ring increasing angle from due east.
pub open spec fn spiral(radius: int) -> Seq<(int, int)>
    decreases radius,
{
    if radius <= 0 {
        Seq::empty()
    } else {
        spiral(radius - 1) + Seq::new((8 * radius) as nat, |t: int| ring_cell(radius, t))
    }
}

/// Exec offsets, widened.
pub open spec fn widen(s: Seq<(i64, i64)>) -> Seq<(int, int)> {
    s.map_values(|d: (i64, i64)| wide(d))
}

proof fn lemma_spiral_len(radius: int)
    requires
        radius >= 0,
    ensures
        spiral(radius).len() == 4 * radius * (radius + 1),
    decreases radius,
{
    if radius > 0 {
        let p = radius - 1;
        lemma_spiral_len(p);
        assert(spiral(radius).len() == spiral(p).len() + 8 * radius);
        assert(4 * p * (p + 1) + 8 * radius == 4 * radius * (radius + 1)) by (nonlinear_arith)
            requires
                p == radius - 1,
        ;
    } else {
        assert(4 * radius * (radius + 1) == 0) by (nonlinear_arith)
            requires
                radius == 0,
        ;
    }
}

/// Every cell within `radius` rings of the origin, as offsets, in spiral
/// order. The station's own cell is not among them, so a move is always a
/// move; a radius below 1 offers nothing.
///
/// This *is* the order the snap's tie-break uses, which is what makes "when
/// two candidates lower the cost by the same amount, the earlier one wins"
/// well defined.
pub fn spiral_offsets(radius: u32) -> (r: Vec<(i64, i64)>)
    ensures
        widen(r@) == spiral(radius as int),
        r@.len() == 4 * radius * (radius + 1),
        forall|t: int| 0 <= t < r@.len() ==> #[trigger] r@[t] != (0i64, 0i64),
{
    let mut r: Vec<(i64, i64)> = Vec::new();
    let mut k: u32 = 0;
    while k < radius
        invariant
            k <= radius,
            widen(r@) == spiral(k as int),
            forall|t: int| 0 <= t < r@.len() ==> #[trigger] r@[t] != (0i64, 0i64),
        decreases radius - k,
    {
        let ring_index: i64 = k as i64 + 1;
        let cells = ring(ring_index);
        let mut t: usize = 0;
        let ghost base = r@;
        while t < cells.len()
            invariant
                ring_index == k + 1,
                cells@.len() == 8 * ring_index,
                forall|q: int| 0 <= q < cells@.len() ==> wide(#[trigger] cells@[q]) == ring_cell(ring_index as int, q),
                forall|q: int| 0 <= q < cells@.len() ==> crate::grid::chebyshev(wide(#[trigger] cells@[q])) == ring_index,
                t <= cells@.len(),
                r@ == base + cells@.take(t as int),
                forall|q: int| 0 <= q < r@.len() ==> #[trigger] r@[q] != (0i64, 0i64),
            decreases cells@.len() - t,
        {
            r.push(cells[t]);
            proof {
                assert(crate::grid::chebyshev(wide(cells@[t as int])) == ring_index);
                assert(cells@.take(t + 1) == cells@.take(t as int).push(cells@[t as int]));
            }
            t += 1;
        }
        proof {
            assert(cells@.take(cells@.len() as int) =~= cells@);
            assert(widen(r@) =~= spiral(k as int) + Seq::new(
                (8 * ring_index) as nat,
                |q: int| ring_cell(ring_index as int, q),
            )) by {
                assert forall|q: int| 0 <= q < r@.len() implies #[trigger] widen(r@)[q] == (spiral(
                    k as int,
                ) + Seq::new((8 * ring_index) as nat, |q: int| ring_cell(ring_index as int, q)))[q] by {
                    if q < base.len() {
                        assert(r@[q] == base[q]);
                        assert(widen(base)[q] == wide(base[q]));
                    } else {
                        assert(r@[q] == cells@[q - base.len()]);
                    }
                }
            }
        }
        k += 1;
    }
    proof {
        lemma_spiral_len(radius as int);
        assert(r@.len() == widen(r@).len());
    }
    r
}

// ---------------------------------------------------------------------------
// The angular order of a station's edges.
// ---------------------------------------------------------------------------

/// The direction an offset is drawn in. A zero offset — two stations on one
/// cell, which the occupancy rules out after the snap — reads as due east.
pub open spec fn heading(d: (int, int)) -> (int, int) {
    if d.0 == 0 && d.1 == 0 {
        (1, 0)
    } else {
        d
    }
}

/// The offset from station `s` to station `x`.
pub open spec fn offset_to(pos: Seq<GridPoint>, s: int, x: int) -> (int, int) {
    (pos[x].i - pos[s].i, pos[x].j - pos[s].j)
}

/// Whether neighbour `a` comes before neighbour `b` around station `s`:
/// ascending direction from due east, ties broken by station index.
pub open spec fn fan_before(pos: Seq<GridPoint>, s: usize, a: usize, b: usize) -> bool {
    let u = heading(offset_to(pos, s as int, a as int));
    let v = heading(offset_to(pos, s as int, b as int));
    angle_before(u, v) || (!angle_before(v, u) && a < b)
}

/// Whether a corridor joins station `s` to station `x`.
pub open spec fn neighbour(edges: Seq<(usize, usize)>, s: usize, x: usize) -> bool {
    exists|e: int|
        0 <= e < edges.len() && ((#[trigger] edges[e].0 == s && edges[e].1 == x) || (edges[e].1 == s && edges[e].0 == x))
}

/// `r` is the neighbours of `s`, in fan order.
pub open spec fn is_fan(edges: Seq<(usize, usize)>, pos: Seq<GridPoint>, s: usize, r: Seq<usize>) -> bool {
    &&& forall|x: usize| r.contains(x) <==> neighbour(edges, s, x)
    &&& forall|i: int, j: int| 0 <= i < j < r.len() ==> fan_before(pos, s, #[trigger] r[i], #[trigger] r[j])
}

/// The neighbours of `s` in fan order.
pub open spec fn fan(edges: Seq<(usize, usize)>, pos: Seq<GridPoint>, s: usize) -> Seq<usize> {
    choose|r: Seq<usize>| is_fan(edges, pos, s, r)
}

/// A non-zero offset: a direction.
pub open spec fn nonzero(d: (int, int)) -> bool {
    d.0 != 0 || d.1 != 0
}

/// The cross product of two offsets.
pub open spec fn det(u: (int, int), v: (int, int)) -> int {
    u.0 * v.1 - u.1 * v.0
}

/// Two directions on one ray.
pub open spec fn same_ray(u: (int, int), v: (int, int)) -> bool {
    !angle_before(u, v) && !angle_before(v, u)
}

/// The vector identity `det(u,v)·w + det(v,w)·u + det(w,u)·v = 0`.
proof fn lemma_det_identity(u: (int, int), v: (int, int), w: (int, int))
    ensures
        det(u, v) * w.0 + det(v, w) * u.0 + det(w, u) * v.0 == 0,
        det(u, v) * w.1 + det(v, w) * u.1 + det(w, u) * v.1 == 0,
        det(v, u) == -det(u, v),
{
    assert(det(u, v) * w.0 + det(v, w) * u.0 + det(w, u) * v.0 == 0) by (nonlinear_arith);
    assert(det(u, v) * w.1 + det(v, w) * u.1 + det(w, u) * v.1 == 0) by (nonlinear_arith);
    assert(det(v, u) == -det(u, v)) by (nonlinear_arith);
}

/// The flipped direction.
pub open spec fn neg(u: (int, int)) -> (int, int) {
    (-u.0, -u.1)
}

/// Within the upper half-turn, a positive cross product is a strict order.
proof fn lemma_upper_transitive(u: (int, int), v: (int, int), w: (int, int))
    requires
        upper_half(u),
        upper_half(v),
        upper_half(w),
        det(u, v) > 0,
        det(v, w) > 0,
    ensures
        det(u, w) > 0,
{
    lemma_det_identity(u, v, w);
    let a = det(u, v);
    let b = det(v, w);
    let c = det(w, u);
    assert(c < 0) by (nonlinear_arith)
        requires
            a > 0,
            b > 0,
            a * w.0 + b * u.0 + c * v.0 == 0,
            a * w.1 + b * u.1 + c * v.1 == 0,
            u.1 > 0 || (u.1 == 0 && u.0 > 0),
            v.1 > 0 || (v.1 == 0 && v.0 > 0),
            w.1 > 0 || (w.1 == 0 && w.0 > 0),
            c == w.0 * u.1 - w.1 * u.0,
    ;
    assert(det(u, w) == -c) by (nonlinear_arith)
        requires
            c == w.0 * u.1 - w.1 * u.0,
    ;
}

/// Within one half-turn, a direction on the ray of another compares as it.
proof fn lemma_upper_ray(u: (int, int), v: (int, int), w: (int, int))
    requires
        upper_half(u),
        upper_half(v),
        det(u, v) == 0,
        det(v, w) > 0,
    ensures
        det(u, w) > 0,
{
    lemma_det_identity(u, v, w);
    let b = det(v, w);
    let c = det(w, u);
    assert(c < 0) by (nonlinear_arith)
        requires
            b > 0,
            b * u.0 + c * v.0 == 0,
            b * u.1 + c * v.1 == 0,
            u.1 > 0 || (u.1 == 0 && u.0 > 0),
            v.1 > 0 || (v.1 == 0 && v.0 > 0),
    ;
    assert(det(u, w) == -c) by (nonlinear_arith)
        requires
            c == w.0 * u.1 - w.1 * u.0,
    ;
}

/// The same, with the ray on the right.
proof fn lemma_upper_ray_right(u: (int, int), v: (int, int), w: (int, int))
    requires
        upper_half(v),
        upper_half(w),
        det(u, v) > 0,
        det(v, w) == 0,
    ensures
        det(u, w) > 0,
{
    lemma_det_identity(u, v, w);
    let a = det(u, v);
    let c = det(w, u);
    assert(c < 0) by (nonlinear_arith)
        requires
            a > 0,
            a * w.0 + c * v.0 == 0,
            a * w.1 + c * v.1 == 0,
            w.1 > 0 || (w.1 == 0 && w.0 > 0),
            v.1 > 0 || (v.1 == 0 && v.0 > 0),
    ;
    assert(det(u, w) == -c) by (nonlinear_arith)
        requires
            c == w.0 * u.1 - w.1 * u.0,
    ;
}

/// On one ray is transitive within a half-turn.
proof fn lemma_upper_ray_ray(u: (int, int), v: (int, int), w: (int, int))
    requires
        upper_half(u),
        upper_half(v),
        upper_half(w),
        det(u, v) == 0,
        det(v, w) == 0,
    ensures
        det(u, w) == 0,
{
    lemma_det_identity(u, v, w);
    let c = det(w, u);
    assert(c * v.0 == 0 && c * v.1 == 0);
    assert(c == 0) by (nonlinear_arith)
        requires
            c * v.0 == 0,
            c * v.1 == 0,
            v.1 > 0 || (v.1 == 0 && v.0 > 0),
    ;
    assert(det(u, w) == -c) by (nonlinear_arith)
        requires
            c == w.0 * u.1 - w.1 * u.0,
    ;
}

/// The lower half-turn is the upper one flipped, and a flip keeps every
/// cross product.
proof fn lemma_flip(u: (int, int), v: (int, int))
    requires
        nonzero(u),
    ensures
        !upper_half(u) ==> upper_half(neg(u)),
        det(neg(u), neg(v)) == det(u, v),
{
    assert(det(neg(u), neg(v)) == det(u, v)) by (nonlinear_arith);
}

/// The angular order is a strict order on directions.
pub proof fn lemma_angle_order(u: (int, int), v: (int, int), w: (int, int))
    requires
        nonzero(u),
        nonzero(v),
        nonzero(w),
    ensures
        angle_before(u, v) ==> !angle_before(v, u),
        angle_before(u, v) && angle_before(v, w) ==> angle_before(u, w),
        same_ray(u, v) && angle_before(v, w) ==> angle_before(u, w),
        angle_before(u, v) && same_ray(v, w) ==> angle_before(u, w),
        same_ray(u, v) && same_ray(v, w) ==> same_ray(u, w),
{
    lemma_det_identity(u, v, w);
    lemma_det_identity(v, w, u);
    lemma_det_identity(u, w, v);
    lemma_flip(u, v);
    lemma_flip(v, w);
    lemma_flip(w, u);
    lemma_flip(u, w);
    lemma_flip(v, u);
    lemma_flip(w, v);
    let (nu, nv, nw) = (neg(u), neg(v), neg(w));
    if upper_half(u) && upper_half(v) && upper_half(w) {
        if det(u, v) > 0 && det(v, w) > 0 {
            lemma_upper_transitive(u, v, w);
        }
        if det(u, v) == 0 && det(v, w) > 0 {
            lemma_upper_ray(u, v, w);
        }
        if det(u, v) > 0 && det(v, w) == 0 {
            lemma_upper_ray_right(u, v, w);
        }
        if det(u, v) == 0 && det(v, w) == 0 {
            lemma_upper_ray_ray(u, v, w);
        }
    }
    if !upper_half(u) && !upper_half(v) && !upper_half(w) {
        if det(u, v) > 0 && det(v, w) > 0 {
            lemma_upper_transitive(nu, nv, nw);
        }
        if det(u, v) == 0 && det(v, w) > 0 {
            lemma_upper_ray(nu, nv, nw);
        }
        if det(u, v) > 0 && det(v, w) == 0 {
            lemma_upper_ray_right(nu, nv, nw);
        }
        if det(u, v) == 0 && det(v, w) == 0 {
            lemma_upper_ray_ray(nu, nv, nw);
        }
    }
}

proof fn lemma_heading_nonzero(d: (int, int))
    ensures
        nonzero(heading(d)),
{
}

/// The fan order is a strict order, total on distinct stations.
proof fn lemma_fan_order(pos: Seq<GridPoint>, s: usize, a: usize, b: usize, c: usize)
    ensures
        fan_before(pos, s, a, b) ==> !fan_before(pos, s, b, a),
        fan_before(pos, s, a, b) && fan_before(pos, s, b, c) ==> fan_before(pos, s, a, c),
        a != b ==> fan_before(pos, s, a, b) || fan_before(pos, s, b, a),
{
    let u = heading(offset_to(pos, s as int, a as int));
    let v = heading(offset_to(pos, s as int, b as int));
    let w = heading(offset_to(pos, s as int, c as int));
    lemma_heading_nonzero(offset_to(pos, s as int, a as int));
    lemma_heading_nonzero(offset_to(pos, s as int, b as int));
    lemma_heading_nonzero(offset_to(pos, s as int, c as int));
    lemma_angle_order(u, v, w);
    lemma_angle_order(v, u, w);
    lemma_angle_order(u, w, v);
}

proof fn lemma_fan_asymmetric(pos: Seq<GridPoint>, s: usize)
    ensures
        forall|a: usize, b: usize| #[trigger] fan_before(pos, s, a, b) ==> !fan_before(pos, s, b, a),
{
    assert forall|a: usize, b: usize| #[trigger] fan_before(pos, s, a, b) implies !fan_before(pos, s, b, a) by {
        lemma_fan_order(pos, s, a, b, a);
    }
}

/// A fan, once found, is the fan.
proof fn lemma_fan_unique(edges: Seq<(usize, usize)>, pos: Seq<GridPoint>, s: usize, r: Seq<usize>)
    requires
        is_fan(edges, pos, s, r),
    ensures
        fan(edges, pos, s) == r,
{
    let c = fan(edges, pos, s);
    assert(is_fan(edges, pos, s, c));
    lemma_fan_asymmetric(pos, s);
    let before = |a: usize, b: usize| fan_before(pos, s, a, b);
    assert forall|x: usize, y: usize| #[trigger] before(x, y) implies !before(y, x) by {
        lemma_fan_order(pos, s, x, y, x);
    }
    assert forall|i: int, j: int| 0 <= i < j < c.len() implies before(#[trigger] c[i], #[trigger] c[j]) by {
        assert(fan_before(pos, s, c[i], c[j]));
    }
    assert forall|i: int, j: int| 0 <= i < j < r.len() implies before(#[trigger] r[i], #[trigger] r[j]) by {
        assert(fan_before(pos, s, r[i], r[j]));
    }
    lemma_sorted_unique(c, r, before);
}

/// Whether `a` comes before `b` around `s`, computed exactly.
fn fan_before_exec(positions: &Vec<GridPoint>, s: usize, a: usize, b: usize) -> (r: bool)
    requires
        s < positions@.len(),
        a < positions@.len(),
        b < positions@.len(),
    ensures
        r == fan_before(positions@, s, a, b),
{
    let o = positions[s];
    let p = positions[a];
    let q = positions[b];
    let (mut ux, mut uy) = (p.i as i128 - o.i as i128, p.j as i128 - o.j as i128);
    let (mut vx, mut vy) = (q.i as i128 - o.i as i128, q.j as i128 - o.j as i128);
    if ux == 0 && uy == 0 {
        ux = 1;
    }
    if vx == 0 && vy == 0 {
        vx = 1;
    }
    let ghost u = (ux as int, uy as int);
    let ghost v = (vx as int, vy as int);
    assert(u == heading(offset_to(positions@, s as int, a as int)));
    assert(v == heading(offset_to(positions@, s as int, b as int)));
    let upper_u = uy > 0 || (uy == 0 && ux > 0);
    let upper_v = vy > 0 || (vy == 0 && vx > 0);
    let turn = difference_sign(ux, vy, uy, vx);
    proof {
        assert(v.0 * u.1 - v.1 * u.0 == -(u.0 * v.1 - u.1 * v.0)) by (nonlinear_arith);
    }
    let before_uv = (upper_u && !upper_v) || (upper_u == upper_v && turn == 1);
    let before_vu = (upper_v && !upper_u) || (upper_u == upper_v && turn == -1);
    before_uv || (!before_vu && a < b)
}

/// A station's neighbours in fan order: ascending direction from due east,
/// which is counter-clockwise since `j` increases north, ties broken by
/// station index.
///
/// Two lines over one consecutive pair share a single corridor, so no
/// neighbour appears twice.
pub fn ordered_neighbours(network: &Network, positions: &Vec<GridPoint>, station: usize) -> (r: Vec<usize>)
    requires
        network.wf(),
        sized(*network, positions@),
        station < positions@.len(),
    ensures
        is_fan(ends(*network), positions@, station, r@),
        r@ == fan(ends(*network), positions@, station),
{
    proof {
        lemma_ends(*network);
    }
    let edges = corridors(network);
    let ghost pos = positions@;
    let ghost ed = edges@;
    let mut r: Vec<usize> = Vec::new();
    let mut e: usize = 0;
    while e < edges.len()
        invariant
            network.wf(),
            sized(*network, pos),
            pos == positions@,
            ed == edges@,
            ed == ends(*network),
            station < pos.len(),
            e <= ed.len(),
            forall|i: int| 0 <= i < r@.len() ==> #[trigger] r@[i] < pos.len(),
            forall|x: usize| r@.contains(x) <==> neighbour(ed.take(e as int), station, x),
            forall|i: int, j: int| 0 <= i < j < r@.len() ==> fan_before(pos, station, #[trigger] r@[i], #[trigger] r@[j]),
        decreases ed.len() - e,
    {
        proof {
            lemma_ends(*network);
        }
        let (a, b) = edges[e];
        let ghost before = r@;
        let other: Option<usize> = if a == station {
            Some(b)
        } else if b == station {
            Some(a)
        } else {
            None
        };
        proof {
            assert(ed.take(e + 1).drop_last() =~= ed.take(e as int));
            assert forall|x: usize| neighbour(ed.take(e + 1), station, x) <==> (neighbour(ed.take(e as int), station, x)
                || other == Some(x)) by {
                if neighbour(ed.take(e + 1), station, x) {
                    let f = choose|f: int| 0 <= f < ed.take(e + 1).len() && ((#[trigger] ed.take(e + 1)[f].0 == station
                        && ed.take(e + 1)[f].1 == x) || (ed.take(e + 1)[f].1 == station && ed.take(e + 1)[f].0 == x));
                    if f < e {
                        assert(ed.take(e as int)[f] == ed.take(e + 1)[f]);
                    }
                }
                if neighbour(ed.take(e as int), station, x) {
                    let f = choose|f: int| 0 <= f < ed.take(e as int).len() && ((#[trigger] ed.take(e as int)[f].0 == station
                        && ed.take(e as int)[f].1 == x) || (ed.take(e as int)[f].1 == station && ed.take(e as int)[f].0 == x));
                    assert(ed.take(e + 1)[f] == ed.take(e as int)[f]);
                }
                if other == Some(x) {
                    assert(ed.take(e + 1)[e as int] == ed[e as int]);
                }
            }
        }
        if let Some(x) = other {
            proof {
                // The new neighbour is not yet in the fan: no earlier corridor
                // joins the same pair.
                if r@.contains(x) {
                    assert(neighbour(ed.take(e as int), station, x));
                    let f = choose|f: int| 0 <= f < ed.take(e as int).len() && ((#[trigger] ed.take(e as int)[f].0 == station
                        && ed.take(e as int)[f].1 == x) || (ed.take(e as int)[f].1 == station && ed.take(e as int)[f].0 == x));
                    assert(ed[f] == ed.take(e as int)[f]);
                    assert(ed[f] == ed[e as int] || (ed[f].0 == ed[e as int].1 && ed[f].1 == ed[e as int].0));
                    assert(false);
                }
            }
            let mut p: usize = r.len();
            while p > 0 && fan_before_exec(positions, station, x, r[p - 1])
                invariant
                    pos == positions@,
                    sized(*network, pos),
                    station < pos.len(),
                    x < pos.len(),
                    p <= r@.len(),
                    forall|i: int| 0 <= i < r@.len() ==> #[trigger] r@[i] < pos.len(),
                    forall|i: int| p <= i < r@.len() ==> fan_before(pos, station, x, #[trigger] r@[i]),
                decreases p,
            {
                p -= 1;
            }
            r.insert(p, x);
            proof {
                assert(r@ == before.take(p as int).push(x).add(before.skip(p as int)));
                if p > 0 {
                    assert(!fan_before(pos, station, x, before[p - 1]));
                    assert(before[p - 1] != x);
                    lemma_fan_order(pos, station, x, before[p - 1], x);
                    assert(fan_before(pos, station, before[p - 1], x));
                }
                assert forall|i: int, j: int| 0 <= i < j < r@.len() implies fan_before(
                    pos,
                    station,
                    #[trigger] r@[i],
                    #[trigger] r@[j],
                ) by {
                    if j < p {
                        assert(r@[i] == before[i] && r@[j] == before[j]);
                    } else if j == p {
                        assert(r@[i] == before[i]);
                        if i < p - 1 {
                            assert(fan_before(pos, station, before[i], before[p - 1]));
                            lemma_fan_order(pos, station, before[i], before[p - 1], x);
                        }
                    } else if i == p {
                        assert(r@[j] == before[j - 1]);
                    } else if i < p {
                        assert(r@[i] == before[i] && r@[j] == before[j - 1]);
                        assert(fan_before(pos, station, x, before[j - 1]));
                        if p > 0 {
                            lemma_fan_order(pos, station, before[i], before[p - 1], x);
                        }
                        lemma_fan_order(pos, station, before[i], x, before[j - 1]);
                    } else {
                        assert(r@[i] == before[i - 1] && r@[j] == before[j - 1]);
                    }
                }
                assert forall|i: int| 0 <= i < r@.len() implies #[trigger] r@[i] < pos.len() by {
                    if i < p {
                        assert(r@[i] == before[i]);
                    } else if i > p {
                        assert(r@[i] == before[i - 1]);
                    }
                }
                assert forall|y: usize| r@.contains(y) <==> neighbour(ed.take(e + 1), station, y) by {
                    if r@.contains(y) && y != x {
                        let i = choose|i: int| 0 <= i < r@.len() && r@[i] == y;
                        if i < p {
                            assert(before[i] == y);
                        } else {
                            assert(before[i - 1] == y);
                        }
                        assert(before.contains(y));
                    }
                    if before.contains(y) {
                        let i = choose|i: int| 0 <= i < before.len() && before[i] == y;
                        if i < p {
                            assert(r@[i] == y);
                        } else {
                            assert(r@[i + 1] == y);
                        }
                    }
                    if y == x {
                        assert(r@[p as int] == x);
                    }
                }
            }
        }
        e += 1;
    }
    proof {
        assert(ed.take(ed.len() as int) =~= ed);
        lemma_fan_unique(ed, pos, station, r@);
    }
    r
}

// ---------------------------------------------------------------------------
// The three rejections.
// ---------------------------------------------------------------------------

/// Whether `after` is `before` rotated to start where `before` first holds
/// `after`'s first element.
pub open spec fn rotation_of(before: Seq<usize>, after: Seq<usize>) -> bool {
    &&& before.len() == after.len()
    &&& after.len() == 0 || ({
        let shift = before.index_of_first(after[0]);
        &&& shift is Some
        &&& forall|k: int|
            0 <= k < before.len() ==> before[(shift.unwrap() + k) % (before.len() as int)] == #[trigger] after[k]
    })
}

/// Whether `after` is a cyclic rotation of `before`.
///
/// **Cyclic and not positional, deliberately.** A station whose whole fan
/// rotates by one position has not torn anything: its edges still meet in
/// the same rotational order. It follows that the rule is vacuous below
/// degree 3 — one neighbour has no order, and with two, every sequence is a
/// rotation of every other.
pub fn is_rotation(before: &[usize], after: &[usize]) -> (r: bool)
    ensures
        r == rotation_of(before@, after@),
{
    let n = before.len();
    if n != after.len() {
        return false;
    }
    if n == 0 {
        return true;
    }
    let first = after[0];
    let mut shift: usize = 0;
    while shift < n && before[shift] != first
        invariant
            n == before@.len(),
            shift <= n,
            forall|i: int| 0 <= i < shift ==> before@[i] != first,
        decreases n - shift,
    {
        shift += 1;
    }
    proof {
        before@.index_of_first_ensures(first);
    }
    if shift == n {
        assert(!before@.contains(first));
        return false;
    }
    proof {
        assert(before@.contains(first));
        let f = before@.index_of_first(first).unwrap();
        assert(f == shift as int) by {
            if f < shift {
                assert(before@[f] == first);
            }
            if f > shift {
                assert(before@[shift as int] == first);
            }
        }
    }
    let mut k: usize = 0;
    while k < n
        invariant
            n == before@.len() == after@.len(),
            shift < n,
            before@.index_of_first(after@[0]) == Some(shift as int),
            k <= n,
            forall|q: int| 0 <= q < k ==> before@[(shift + q) % (n as int)] == #[trigger] after@[q],
        decreases n - k,
    {
        let at = if k >= n - shift {
            k - (n - shift)
        } else {
            shift + k
        };
        assert(at as int == (shift + k) % (n as int)) by {
            vstd::arithmetic::div_mod::lemma_fundamental_div_mod_converse(
                (shift + k) as int,
                n as int,
                if k >= n - shift {
                    1int
                } else {
                    0int
                },
                at as int,
            );
        }
        if before[at] != after[k] {
            return false;
        }
        k += 1;
    }
    true
}
/// A fan names each neighbour once.
proof fn lemma_fan_distinct(edges: Seq<(usize, usize)>, pos: Seq<GridPoint>, s: usize, r: Seq<usize>)
    requires
        is_fan(edges, pos, s, r),
    ensures
        forall|i: int, j: int| 0 <= i < j < r.len() ==> #[trigger] r[i] != #[trigger] r[j],
{
    assert forall|i: int, j: int| 0 <= i < j < r.len() implies #[trigger] r[i] != #[trigger] r[j] by {
        assert(fan_before(pos, s, r[i], r[j]));
        lemma_fan_order(pos, s, r[i], r[j], r[i]);
    }
}

/// **The order rule is vacuous below degree three.** One neighbour has no
/// order, and with two every order is a rotation of every other: wherever a
/// station of degree two or less and its neighbours stand before and after a
/// move, its fan after is a rotation of its fan before.
pub proof fn lemma_order_rule_vacuous_below_degree_three(
    edges: Seq<(usize, usize)>,
    pos: Seq<GridPoint>,
    moved: Seq<GridPoint>,
    s: usize,
    before: Seq<usize>,
    after: Seq<usize>,
)
    requires
        is_fan(edges, pos, s, before),
        is_fan(edges, moved, s, after),
        before.len() <= 2,
    ensures
        rotation_of(before, after),
{
    lemma_fan_distinct(edges, pos, s, before);
    lemma_fan_distinct(edges, moved, s, after);
    assert forall|k: int| 0 <= k < after.len() implies before.contains(#[trigger] after[k]) by {
        assert(after.contains(after[k]));
    }
    assert forall|i: int| 0 <= i < before.len() implies after.contains(#[trigger] before[i]) by {
        assert(before.contains(before[i]));
    }
    if before.len() == 0 {
        if after.len() > 0 {
            assert(before.contains(after[0]));
        }
    } else if before.len() == 1 {
        assert(after.contains(before[0]));
        if after.len() >= 2 {
            assert(before.contains(after[0]) && before.contains(after[1]));
            assert(after[0] == before[0] && after[1] == before[0]);
        }
        assert(after.len() == 1);
        assert(before.contains(after[0]));
        assert(after[0] == before[0]);
        before.index_of_first_ensures(after[0]);
    } else {
        assert(before[0] != before[1]);
        assert(after.contains(before[0]) && after.contains(before[1]));
        if after.len() >= 3 {
            assert(before.contains(after[0]) && before.contains(after[1]) && before.contains(after[2]));
            assert(after[0] != after[1] && after[0] != after[2] && after[1] != after[2]);
        }
        if after.len() == 1 {
            let x = choose|k: int| 0 <= k < after.len() && after[k] == before[0];
            let y = choose|k: int| 0 <= k < after.len() && after[k] == before[1];
            assert(x == 0 && y == 0);
        }
        assert(after.len() == 2);
        assert(before.contains(after[0]) && before.contains(after[1]));
        before.index_of_first_ensures(after[0]);
        if after[0] == before[0] {
            assert(after[1] == before[1]);
            assert(before.index_of_first(after[0]) == Some(0int));
        } else {
            assert(after[0] == before[1] && after[1] == before[0]);
            assert(before.index_of_first(after[0]) == Some(1int));
            assert((1int + 1) % 2 == 0);
        }
    }
}


/// Whether a segment lies along another: the exact pair test, over cells.
pub open spec fn folds(pos: Seq<GridPoint>, e: (usize, usize), f: (usize, usize)) -> bool {
    lies_along(pos[e.0 as int], pos[e.1 as int], pos[f.0 as int], pos[f.1 as int])
}

/// Some corridor at `station` lies along another corridor.
pub open spec fn overlaps_at(edges: Seq<(usize, usize)>, pos: Seq<GridPoint>, station: usize) -> bool {
    exists|n: int, m: int|
        0 <= n < edges.len() && 0 <= m < edges.len() && n != m && (edges[n].0 == station || edges[n].1 == station)
            && folds(pos, #[trigger] edges[n], #[trigger] edges[m])
}

/// Whether any edge at `station` lies **along** another edge — collinear and
/// sharing more than a single point.
///
/// Every edge at the station is tested against every *other* edge, including
/// ones sharing an endpoint with it: a line folding back so that one edge lies
/// along its own neighbour is invisible to the crossing count by
/// construction, and that is the case this rule exists for. Identity is by
/// position in the corridor list: an edge is trivially collinear with itself.
pub fn overlaps_another_edge(network: &Network, positions: &Vec<GridPoint>, station: usize) -> (r: bool)
    requires
        network.wf(),
        sized(*network, positions@),
    ensures
        r == overlaps_at(ends(*network), positions@, station),
{
    proof {
        lemma_ends(*network);
    }
    let edges = corridors(network);
    let ghost pos = positions@;
    let ghost ed = edges@;
    let n = edges.len();
    let mut a: usize = 0;
    while a < n
        invariant
            network.wf(),
            sized(*network, pos),
            pos == positions@,
            ed == edges@,
            ed == ends(*network),
            n == ed.len(),
            a <= n,
            forall|x: int, y: int|
                0 <= x < a && 0 <= y < n && x != y && (ed[x].0 == station || ed[x].1 == station) ==> !folds(
                    pos,
                    #[trigger] ed[x],
                    #[trigger] ed[y],
                ),
        decreases n - a,
    {
        proof {
            lemma_ends(*network);
        }
        let (a1, a2) = edges[a];
        if a1 == station || a2 == station {
            let mut b: usize = 0;
            while b < n
                invariant
                    network.wf(),
                    sized(*network, pos),
                    pos == positions@,
                    ed == edges@,
                    ed == ends(*network),
                    n == ed.len(),
                    a < n,
                    (a1, a2) == ed[a as int],
                    a1 == station || a2 == station,
                    b <= n,
                    forall|y: int| 0 <= y < b && a != y ==> !folds(pos, ed[a as int], #[trigger] ed[y]),
                decreases n - b,
            {
                proof {
                    lemma_ends(*network);
                }
                let (b1, b2) = edges[b];
                if b != a && segments_overlap(positions[a1], positions[a2], positions[b1], positions[b2]) {
                    assert(folds(pos, ed[a as int], ed[b as int]));
                    assert(overlaps_at(ed, pos, station)) by {
                        assert(0 <= a < ed.len() && 0 <= b < ed.len() && a != b && (ed[a as int].0 == station
                            || ed[a as int].1 == station) && folds(pos, ed[a as int], ed[b as int]));
                    }
                    return true;
                }
                b += 1;
            }
        }
        a += 1;
    }
    false
}

/// Whether `station` may move from its current cell to `to`: the cell is
/// free, the move keeps the cyclic order of the station's edges, and no edge
/// at the station comes to lie along another.
///
/// **Takes `positions` mutably and restores it**: two of the three rules are
/// properties of the map after the move, and cloning the position list once
/// per candidate would allocate tens of thousands of times on a small
/// network. The list is unchanged on return.
pub fn is_valid_move(
    network: &Network,
    positions: &mut Vec<GridPoint>,
    occupancy: &GridOccupancy,
    station: usize,
    to: GridPoint,
) -> (r: bool)
    requires
        network.wf(),
        sized(*network, old(positions)@),
        station < old(positions)@.len(),
    ensures
        final(positions)@ == old(positions)@,
        r == ({
            let pos = old(positions)@;
            let moved = pos.update(station as int, to);
            &&& !occupancy@.contains_key(key(to))
            &&& rotation_of(fan(ends(*network), pos, station), fan(ends(*network), moved, station))
            &&& !overlaps_at(ends(*network), moved, station)
        }),
{
    let ghost pos = positions@;
    if !occupancy.is_free(to) {
        return false;
    }
    let from = positions[station];
    let before = ordered_neighbours(network, positions, station);
    positions.set(station, to);
    proof {
        assert(sized(*network, positions@));
    }
    let after = ordered_neighbours(network, positions, station);
    let preserved = is_rotation(before.as_slice(), after.as_slice());
    let overlaps = overlaps_another_edge(network, positions, station);
    positions.set(station, from);
    assert(positions@ =~= pos);
    preserved && !overlaps
}

} // verus!
