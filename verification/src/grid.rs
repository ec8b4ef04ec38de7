//! The integer grid: cells, rings around a cell, and which station holds
//! which cell.

use std::collections::BTreeMap;

use vstd::prelude::*;

use crate::geometry::bounded;

verus! {

/// A cell of the integer grid. `j` increases **north**, like the projected
/// plane and unlike SVG.
#[derive(Debug, Clone, Copy, PartialEq, Eq, Hash, PartialOrd, Ord, Structural)]
pub struct GridPoint {
    pub i: i64,
    pub j: i64,
}

impl GridPoint {
    pub fn new(i: i64, j: i64) -> (p: GridPoint)
        ensures
            p.i == i,
            p.j == j,
    {
        GridPoint { i, j }
    }

    /// The cell offset by `(di, dj)`.
    pub fn offset(self, di: i64, dj: i64) -> (p: GridPoint)
        requires
            i64::MIN <= self.i + di <= i64::MAX,
            i64::MIN <= self.j + dj <= i64::MAX,
        ensures
            p.i == self.i + di,
            p.j == self.j + dj,
    {
        GridPoint { i: self.i + di, j: self.j + dj }
    }
}

} // verus!

verus! {

/// The Chebyshev norm of a cell offset.
pub open spec fn chebyshev(d: (int, int)) -> int {
    let a = if d.0 >= 0 { d.0 } else { -d.0 };
    let b = if d.1 >= 0 { d.1 } else { -d.1 };
    if a >= b { a } else { b }
}

/// Whether a non-zero offset points into the half-turn `[0, π)` measured
/// counter-clockwise from due east.
pub open spec fn upper_half(d: (int, int)) -> bool {
    d.1 > 0 || (d.1 == 0 && d.0 > 0)
}

/// Whether offset `u` comes strictly before offset `v` in increasing angle
/// from due east, the angle normalised into `[0, 2π)`.
///
/// Exact: the half-turn each lies in, then the sign of their cross product.
pub open spec fn angle_before(u: (int, int), v: (int, int)) -> bool {
    ||| (upper_half(u) && !upper_half(v))
    ||| (upper_half(u) == upper_half(v) && u.0 * v.1 - u.1 * v.0 > 0)
}

/// The `t`-th cell of ring `k`: the square's perimeter walked
/// counter-clockwise, starting due east.
pub open spec fn ring_cell(k: int, t: int) -> (int, int) {
    if t <= k {
        (k, t)
    } else if t <= 3 * k {
        (2 * k - t, k)
    } else if t <= 5 * k {
        (-k, 4 * k - t)
    } else if t <= 7 * k {
        (t - 6 * k, -k)
    } else {
        (k, t - 8 * k)
    }
}

/// Where a cell of Chebyshev norm `k` stands in [`ring_cell`]'s walk.
pub open spec fn ring_position(k: int, d: (int, int)) -> int {
    if d.0 == k && d.1 >= 0 {
        d.1
    } else if d.1 == k {
        2 * k - d.0
    } else if d.0 == -k {
        4 * k - d.1
    } else if d.1 == -k {
        d.0 + 6 * k
    } else {
        d.1 + 8 * k
    }
}

/// The widened form of an exec offset.
pub open spec fn wide(d: (i64, i64)) -> (int, int) {
    (d.0 as int, d.1 as int)
}

proof fn lemma_ring_cell_norm(k: int, t: int)
    requires
        k >= 1,
        0 <= t < 8 * k,
    ensures
        chebyshev(ring_cell(k, t)) == k,
        ring_position(k, ring_cell(k, t)) == t,
{
}

proof fn lemma_ring_position_inverts(k: int, d: (int, int))
    requires
        k >= 1,
        chebyshev(d) == k,
    ensures
        0 <= ring_position(k, d) < 8 * k,
        ring_cell(k, ring_position(k, d)) == d,
{
}

proof fn lemma_ring_ordered(k: int, t1: int, t2: int)
    requires
        k >= 1,
        0 <= t1 < t2 < 8 * k,
    ensures
        angle_before(ring_cell(k, t1), ring_cell(k, t2)),
{
    let u = ring_cell(k, t1);
    let v = ring_cell(k, t2);
    assert(upper_half(u) <==> t1 < 4 * k);
    assert(upper_half(v) <==> t2 < 4 * k);
    if t2 < 4 * k || t1 >= 4 * k {
        lemma_cross_positive(k, t1, t2);
    }
}

proof fn lemma_cross_positive(k: int, t1: int, t2: int)
    requires
        k >= 1,
        0 <= t1 < t2 < 8 * k,
        t2 < 4 * k || t1 >= 4 * k,
    ensures
        ring_cell(k, t1).0 * ring_cell(k, t2).1 - ring_cell(k, t1).1 * ring_cell(k, t2).0 > 0,
{
    let (a, b) = ring_cell(k, t1);
    let (c, d) = ring_cell(k, t2);
    if t1 <= k {
        if t2 <= k {
            assert(a * d - b * c > 0) by (nonlinear_arith)
                requires k >= 1, a == k, b == t1, c == k, d == t2, t2 > t1;
        } else if t2 <= 3 * k {
            assert(a * d - b * c > 0) by (nonlinear_arith)
                requires k >= 1, a == k, b == t1, 0 <= t1 <= k, c == 2 * k - t2, d == k, k < t2 <= 3 * k;
        } else {
            assert(a * d - b * c > 0) by (nonlinear_arith)
                requires k >= 1, a == k, b == t1, 0 <= t1 <= k, c == -k, d == 4 * k - t2, 3 * k < t2 < 4 * k;
        }
    } else if t1 <= 3 * k {
        if t2 <= 3 * k {
            assert(a * d - b * c > 0) by (nonlinear_arith)
                requires k >= 1, a == 2 * k - t1, b == k, c == 2 * k - t2, d == k, t2 > t1;
        } else {
            assert(a * d - b * c > 0) by (nonlinear_arith)
                requires k >= 1, a == 2 * k - t1, b == k, k < t1 <= 3 * k, c == -k, d == 4 * k - t2, 3 * k < t2 < 4 * k;
        }
    } else if t1 <= 5 * k {
        if t2 <= 5 * k {
            assert(a * d - b * c > 0) by (nonlinear_arith)
                requires k >= 1, a == -k, b == 4 * k - t1, c == -k, d == 4 * k - t2, t2 > t1;
        } else if t2 <= 7 * k {
            assert(a * d - b * c > 0) by (nonlinear_arith)
                requires k >= 1, a == -k, b == 4 * k - t1, 4 * k <= t1 <= 5 * k, c == t2 - 6 * k, d == -k, 5 * k < t2 <= 7 * k;
        } else {
            assert(a * d - b * c > 0) by (nonlinear_arith)
                requires k >= 1, a == -k, b == 4 * k - t1, 4 * k <= t1 <= 5 * k, c == k, d == t2 - 8 * k, 7 * k < t2 < 8 * k;
        }
    } else if t1 <= 7 * k {
        if t2 <= 7 * k {
            assert(a * d - b * c > 0) by (nonlinear_arith)
                requires k >= 1, a == t1 - 6 * k, b == -k, c == t2 - 6 * k, d == -k, t2 > t1;
        } else {
            assert(a * d - b * c > 0) by (nonlinear_arith)
                requires k >= 1, a == t1 - 6 * k, b == -k, 5 * k < t1 <= 7 * k, c == k, d == t2 - 8 * k, 7 * k < t2 < 8 * k;
        }
    } else {
        assert(a * d - b * c > 0) by (nonlinear_arith)
            requires k >= 1, a == k, b == t1 - 8 * k, c == k, d == t2 - 8 * k, t2 > t1;
    }
}

/// The cells at Chebyshev distance exactly `k` from the origin, ordered by
/// increasing angle from due east.
///
/// No two cells of one ring lie on the same ray, so the angle is a total order
/// on them and the ring needs no further tie rule.
pub fn ring(k: i64) -> (cells: Vec<(i64, i64)>)
    requires
        k < 0x2000_0000_0000_0000,
    ensures
        k <= 0 ==> cells@.len() == 0,
        k > 0 ==> cells@.len() == 8 * k,
        forall|t: int| 0 <= t < cells@.len() ==> wide(#[trigger] cells@[t]) == ring_cell(k as int, t),
        forall|t: int| 0 <= t < cells@.len() ==> chebyshev(wide(#[trigger] cells@[t])) == k,
        forall|t1: int, t2: int|
            0 <= t1 < t2 < cells@.len() ==> angle_before(
                wide(#[trigger] cells@[t1]),
                wide(#[trigger] cells@[t2]),
            ),
        forall|d: (i64, i64)| chebyshev(wide(d)) == k && k > 0 ==> #[trigger] cells@.contains(d),
{
    let mut cells: Vec<(i64, i64)> = Vec::new();
    if k <= 0 {
        return cells;
    }
    let ghost kk = k as int;
    // Due east, then north up the east side.
    let mut dj: i64 = 0;
    while dj <= k
        invariant
            0 < k < 0x2000_0000_0000_0000,
            kk == k as int,
            0 <= dj <= k + 1,
            cells@.len() == dj,
            forall|t: int| 0 <= t < cells@.len() ==> wide(#[trigger] cells@[t]) == ring_cell(kk, t),
        decreases k + 1 - dj,
    {
        cells.push((k, dj));
        dj += 1;
    }
    // West along the north side.
    let mut di: i64 = k - 1;
    while di >= -k
        invariant
            0 < k < 0x2000_0000_0000_0000,
            kk == k as int,
            -k - 1 <= di <= k - 1,
            cells@.len() == 2 * k - di,
            forall|t: int| 0 <= t < cells@.len() ==> wide(#[trigger] cells@[t]) == ring_cell(kk, t),
        decreases di + k + 1,
    {
        cells.push((di, k));
        di -= 1;
    }
    // South down the west side.
    let mut dj: i64 = k - 1;
    while dj >= -k
        invariant
            0 < k < 0x2000_0000_0000_0000,
            kk == k as int,
            -k - 1 <= dj <= k - 1,
            cells@.len() == 4 * k - dj,
            forall|t: int| 0 <= t < cells@.len() ==> wide(#[trigger] cells@[t]) == ring_cell(kk, t),
        decreases dj + k + 1,
    {
        cells.push((-k, dj));
        dj -= 1;
    }
    // East along the south side.
    let mut di: i64 = -k + 1;
    while di <= k
        invariant
            0 < k < 0x2000_0000_0000_0000,
            kk == k as int,
            -k + 1 <= di <= k + 1,
            cells@.len() == 6 * k + di,
            forall|t: int| 0 <= t < cells@.len() ==> wide(#[trigger] cells@[t]) == ring_cell(kk, t),
        decreases k + 1 - di,
    {
        cells.push((di, -k));
        di += 1;
    }
    // North up the east side, stopping short of due east.
    let mut dj: i64 = -k + 1;
    while dj <= -1
        invariant
            0 < k < 0x2000_0000_0000_0000,
            kk == k as int,
            -k + 1 <= dj <= 0,
            cells@.len() == 8 * k + dj,
            forall|t: int| 0 <= t < cells@.len() ==> wide(#[trigger] cells@[t]) == ring_cell(kk, t),
        decreases 0 - dj,
    {
        cells.push((k, dj));
        dj += 1;
    }
    proof {
        assert forall|t: int| 0 <= t < cells@.len() implies chebyshev(wide(#[trigger] cells@[t])) == k by {
            lemma_ring_cell_norm(kk, t);
        }
        assert forall|t1: int, t2: int| 0 <= t1 < t2 < cells@.len() implies angle_before(
            wide(#[trigger] cells@[t1]),
            wide(#[trigger] cells@[t2]),
        ) by {
            lemma_ring_ordered(kk, t1, t2);
        }
        assert forall|d: (i64, i64)| chebyshev(wide(d)) == k && k > 0 implies #[trigger] cells@.contains(d) by {
            lemma_ring_position_inverts(kk, wide(d));
            let t = ring_position(kk, wide(d));
            assert(wide(cells@[t]) == wide(d));
            assert(cells@[t] == d);
        }
    }
    cells
}

} // verus!

verus! {

broadcast use vstd::laws_cmp::group_laws_cmp, vstd::std_specs::btree::group_btree_axioms;

/// The map key of the cell `p` shifted by `d`.
pub open spec fn shifted_key(p: GridPoint, d: (int, int)) -> (i64, i64) {
    ((p.i + d.0) as i64, (p.j + d.1) as i64)
}

/// The map key of a cell.
pub open spec fn key(p: GridPoint) -> (i64, i64) {
    (p.i, p.j)
}

/// Whether the `s`-th cell of ring `k` comes before the `s2`-th cell of ring
/// `k2` around a cell: spiral order.
pub open spec fn spiral_before(k2: int, s2: int, k: int, s: int) -> bool {
    k2 < k || (k2 == k && s2 < s)
}

/// Whether `cell` is the first cell around `p`, in spiral order, that `held`
/// does not hold.
pub open spec fn first_free_around(held: Map<(i64, i64), usize>, p: GridPoint, cell: GridPoint) -> bool {
    exists|k: int, s: int|
        #![trigger ring_cell(k, s)]
        {
            &&& 1 <= k
            &&& 0 <= s < 8 * k
            &&& cell.i == p.i + ring_cell(k, s).0
            &&& cell.j == p.j + ring_cell(k, s).1
            &&& forall|k2: int, s2: int|
                1 <= k2 && 0 <= s2 < 8 * k2 && spiral_before(k2, s2, k, s) ==> held.contains_key(
                    #[trigger] shifted_key(p, ring_cell(k2, s2)),
                )
        }
}

/// Every cell within `m` rings of `p` is a cell: no coordinate leaves `i64`.
pub open spec fn room_around(p: GridPoint, m: int) -> bool {
    i64::MIN + m <= p.i <= i64::MAX - m && i64::MIN + m <= p.j <= i64::MAX - m
}

proof fn lemma_full_ring_fits(held: Map<(i64, i64), usize>, p: GridPoint, m: int)
    requires
        room_around(p, m),
        1 <= m < 0x2000_0000_0000_0000,
        held.dom().finite(),
        forall|t: int| 0 <= t < 8 * m ==> held.contains_key(#[trigger] shifted_key(p, ring_cell(m, t))),
    ensures
        8 * m <= held.len(),
{
    let s = Seq::new((8 * m) as nat, |t: int| shifted_key(p, ring_cell(m, t)));
    assert forall|a: int, b: int| 0 <= a < s.len() && 0 <= b < s.len() && a != b implies s[a] != s[b] by {
        lemma_ring_cell_norm(m, a);
        lemma_ring_cell_norm(m, b);
    }
    assert(s.no_duplicates());
    s.unique_seq_to_set();
    assert forall|x| s.to_set().contains(x) implies held.dom().contains(x) by {
        let t = choose|t: int| 0 <= t < s.len() && s[t] == x;
        assert(held.contains_key(shifted_key(p, ring_cell(m, t))));
    }
    vstd::set_lib::lemma_len_subset(s.to_set(), held.dom());
}

/// Which station holds which cell.
///
/// At most one station per cell, by construction: the holder of a cell is a
/// map entry keyed by that cell.
#[derive(Debug, Clone)]
pub struct GridOccupancy {
    by_cell: BTreeMap<(i64, i64), usize>,
}

impl View for GridOccupancy {
    type V = Map<(i64, i64), usize>;

    closed spec fn view(&self) -> Map<(i64, i64), usize> {
        self.by_cell@
    }
}

impl GridOccupancy {
    /// An occupancy holds finitely many cells.
    pub proof fn lemma_finite(&self)
        ensures
            self@.dom().finite(),
    {
    }

    pub fn new() -> (o: GridOccupancy)
        ensures
            o@ == Map::<(i64, i64), usize>::empty(),
            o@.dom().finite(),
    {
        GridOccupancy { by_cell: BTreeMap::new() }
    }

    pub fn is_free(&self, cell: GridPoint) -> (r: bool)
        ensures
            r == !self@.contains_key(key(cell)),
    {
        !self.by_cell.contains_key(&(cell.i, cell.j))
    }

    pub fn station_at(&self, cell: GridPoint) -> (r: Option<usize>)
        ensures
            r == (if self@.contains_key(key(cell)) {
                Some(self@[key(cell)])
            } else {
                None::<usize>
            }),
    {
        match self.by_cell.get(&(cell.i, cell.j)) {
            Some(station) => Some(*station),
            None => None,
        }
    }

    pub fn len(&self) -> (n: usize)
        ensures
            n == self@.len(),
    {
        self.by_cell.len()
    }

    pub fn is_empty(&self) -> (r: bool)
        ensures
            r == (self@.len() == 0),
    {
        self.by_cell.len() == 0
    }

    /// Move `station` from one cell to another, which is what the layout
    /// search does on every accepted move.
    pub fn relocate(&mut self, station: usize, from: GridPoint, to: GridPoint)
        requires
            old(self)@.contains_key(key(from)),
            old(self)@[key(from)] == station,
            to == from || !old(self)@.contains_key(key(to)),
        ensures
            final(self)@ == old(self)@.remove(key(from)).insert(key(to), station),
            final(self)@.dom().finite(),
            final(self)@.len() == old(self)@.len(),
    {
        self.by_cell.remove(&(from.i, from.j));
        self.by_cell.insert((to.i, to.j), station);
        proof {
            let before = old(self)@;
            let gone = before.remove(key(from));
            assert(gone.len() + 1 == before.len());
            assert(!gone.contains_key(key(to)));
        }
    }

    /// Claim `preferred` for `station`, or the first free cell in spiral order
    /// around it. Returns the cell actually claimed.
    ///
    /// Terminates: ring `k` holds `8k` distinct cells and the occupancy holds
    /// `n` cells, so a free one turns up within ring `n`; a taken preferred
    /// cell needs that much room around it.
    pub fn claim(&mut self, station: usize, preferred: GridPoint) -> (cell: GridPoint)
        requires
            old(self)@.len() < 0x1000_0000_0000_0000,
            old(self)@.contains_key(key(preferred)) ==> room_around(preferred, old(self)@.len() as int),
        ensures
            !old(self)@.contains_key(key(cell)),
            final(self)@ == old(self)@.insert(key(cell), station),
            !old(self)@.contains_key(key(preferred)) ==> cell == preferred,
            old(self)@.contains_key(key(preferred)) ==> first_free_around(old(self)@, preferred, cell),
            old(self)@.contains_key(key(preferred)) ==> chebyshev((cell.i - preferred.i, cell.j - preferred.j))
                <= old(self)@.len(),
            final(self)@.dom().finite(),
            final(self)@.len() == old(self)@.len() + 1,
    {
        if self.is_free(preferred) {
            self.by_cell.insert((preferred.i, preferred.j), station);
            return preferred;
        }
        let ghost held = self@;
        let mut k: i64 = 1;
        loop
            invariant
                room_around(preferred, held.len() as int),
                self@ == held,
                held.dom().finite(),
                held.contains_key(key(preferred)),
                1 <= k,
                8 * (k - 1) <= held.len(),
                held == old(self)@,
                held.len() < 0x1000_0000_0000_0000,
                forall|k2: int, s2: int|
                    1 <= k2 < k && 0 <= s2 < 8 * k2 ==> held.contains_key(
                        #[trigger] shifted_key(preferred, ring_cell(k2, s2)),
                    ),
            decreases held.len() - 8 * (k - 1),
        {
            let cells = ring(k);
            let mut idx: usize = 0;
            while idx < cells.len()
                invariant
                    room_around(preferred, held.len() as int),
                    k <= held.len(),
                    self@ == held,
                    held.dom().finite(),
                    1 <= k,
                    8 * (k - 1) <= held.len(),
                    held == old(self)@,
                    held.contains_key(key(preferred)),
                    held.len() < 0x1000_0000_0000_0000,
                    cells@.len() == 8 * k,
                    0 <= idx <= cells@.len(),
                    forall|t: int| 0 <= t < cells@.len() ==> wide(#[trigger] cells@[t]) == ring_cell(k as int, t),
                    forall|k2: int, s2: int|
                        1 <= k2 < k && 0 <= s2 < 8 * k2 ==> held.contains_key(
                            #[trigger] shifted_key(preferred, ring_cell(k2, s2)),
                        ),
                    forall|s2: int|
                        0 <= s2 < idx ==> held.contains_key(
                            #[trigger] shifted_key(preferred, ring_cell(k as int, s2)),
                        ),
                decreases cells@.len() - idx,
            {
                let (di, dj) = cells[idx];
                proof {
                    assert(wide(cells@[idx as int]) == ring_cell(k as int, idx as int));
                    lemma_ring_cell_norm(k as int, idx as int);
                }
                let candidate = preferred.offset(di, dj);
                if self.is_free(candidate) {
                    self.by_cell.insert((candidate.i, candidate.j), station);
                    proof {
                        let kk = k as int;
                        let ss = idx as int;
                        assert(key(candidate) == shifted_key(preferred, ring_cell(kk, ss)));
                        assert forall|k2: int, s2: int|
                            1 <= k2 && 0 <= s2 < 8 * k2 && spiral_before(k2, s2, kk, ss) implies held.contains_key(
                                #[trigger] shifted_key(preferred, ring_cell(k2, s2)),
                            ) by {
                        }
                        assert(first_free_around(held, preferred, candidate));
                    }
                    return candidate;
                }
                proof {
                    assert(key(candidate) == shifted_key(preferred, ring_cell(k as int, idx as int)));
                }
                idx += 1;
            }
            proof {
                assert(room_around(preferred, k as int));
                lemma_full_ring_fits(held, preferred, k as int);
            }
            k += 1;
        }
    }
}

/// `occ` holds every station on the cell the positions give it, and nothing
/// else: what the layout search keeps true between moves.
pub open spec fn holds_positions(occ: Map<(i64, i64), usize>, pos: Seq<GridPoint>) -> bool {
    &&& forall|s: int| 0 <= s < pos.len() ==> occ.contains_key(key(#[trigger] pos[s])) && occ[key(pos[s])] == s
    &&& forall|c: (i64, i64)| #[trigger] occ.contains_key(c) ==> occ[c] < pos.len() && key(pos[occ[c] as int]) == c
}

/// **Relocating keeps the occupancy true to the positions.** Moving one
/// station onto a free cell, or onto its own, and relocating it in the
/// occupancy as [`GridOccupancy::relocate`] does leaves every station held
/// where the positions say it is, and no cell held by anyone else.
pub proof fn lemma_relocate_keeps_positions(
    occ: Map<(i64, i64), usize>,
    pos: Seq<GridPoint>,
    station: usize,
    to: GridPoint,
)
    requires
        holds_positions(occ, pos),
        station < pos.len(),
        to == pos[station as int] || !occ.contains_key(key(to)),
    ensures
        occ.contains_key(key(pos[station as int])) && occ[key(pos[station as int])] == station,
        holds_positions(
            occ.remove(key(pos[station as int])).insert(key(to), station),
            pos.update(station as int, to),
        ),
{
    let from = pos[station as int];
    let now = occ.remove(key(from)).insert(key(to), station);
    let moved = pos.update(station as int, to);
    assert(occ.contains_key(key(from)) && occ[key(from)] == station);
    assert forall|s: int| 0 <= s < moved.len() implies now.contains_key(key(#[trigger] moved[s])) && now[key(moved[s])]
        == s by {
        if s != station {
            assert(occ.contains_key(key(pos[s])) && occ[key(pos[s])] == s);
            assert(key(pos[s]) != key(from));
        }
    }
    assert forall|c: (i64, i64)| #[trigger] now.contains_key(c) implies now[c] < moved.len() && key(
        moved[now[c] as int],
    ) == c by {
        if c != key(to) {
            assert(occ.contains_key(c));
            assert(occ[c] != station);
        }
    }
}

/// **A claim keeps the occupancy true to the positions.** Claiming a free cell
/// for the next station, as [`GridOccupancy::claim`] does, holds it there and
/// leaves every earlier station where it was.
pub proof fn lemma_claim_keeps_positions(occ: Map<(i64, i64), usize>, pos: Seq<GridPoint>, cell: GridPoint)
    requires
        holds_positions(occ, pos),
        pos.len() < usize::MAX,
        !occ.contains_key(key(cell)),
    ensures
        holds_positions(occ.insert(key(cell), pos.len() as usize), pos.push(cell)),
{
    let now = occ.insert(key(cell), pos.len() as usize);
    let grown = pos.push(cell);
    assert forall|s: int| 0 <= s < grown.len() implies now.contains_key(key(#[trigger] grown[s])) && now[key(grown[s])]
        == s by {
        if s < pos.len() {
            assert(grown[s] == pos[s]);
            assert(occ.contains_key(key(pos[s])));
        }
    }
}

/// **One station per cell.** Where the occupancy is true to the positions, no
/// two stations share a cell.
pub proof fn lemma_one_station_per_cell(occ: Map<(i64, i64), usize>, pos: Seq<GridPoint>)
    requires
        holds_positions(occ, pos),
    ensures
        forall|s: int, t: int| 0 <= s < t < pos.len() ==> #[trigger] pos[s] != #[trigger] pos[t],
{
    assert forall|s: int, t: int| 0 <= s < t < pos.len() implies #[trigger] pos[s] != #[trigger] pos[t] by {
        assert(occ[key(pos[s])] == s && occ[key(pos[t])] == t);
    }
}

} // verus!
