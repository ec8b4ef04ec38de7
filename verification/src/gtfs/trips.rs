//! Which trip represents a route: the one running the **modal stop pattern**.
//!
//! A route's longest trip is often a rare special that serves a depot, so the
//! line drawn would be one no rider has taken. A route draws instead with the
//! pattern the most of its trips run.
//!
//! - The pattern is the *station* sequence, not the platform sequence: two trips
//!   that draw the same line count as one pattern.
//! - A tie goes to the pattern whose first trip is the earlier `trips.txt` row.
//! - Nothing is excluded from the vote for being too short.

use vstd::prelude::*;

use crate::gtfs::feed::StopTime;
use crate::gtfs::index::{key_rows, lemma_key_rows, trip_keys, RowIndex};
use crate::gtfs::stations::CollapseMap;
use crate::gtfs::{dedup, views};
use crate::layout::lemma_sorted_unique;

verus! {

// ---------------------------------------------------------------------------
// One trip's rows.
// ---------------------------------------------------------------------------

/// Row `a` comes before row `b`: a lower `stop_sequence`, or the same one and
/// an earlier file row.
pub open spec fn row_before(st: Seq<StopTime>, a: usize, b: usize) -> bool {
    st[a as int].stop_sequence < st[b as int].stop_sequence || (st[a as int].stop_sequence
        == st[b as int].stop_sequence && a < b)
}

/// `rows` is exactly the rows of `trip`, in `stop_sequence` order, rows
/// sharing a sequence value in file order.
pub open spec fn is_trip_rows(st: Seq<StopTime>, trip: Seq<char>, rows: Seq<usize>) -> bool {
    &&& forall|i: int| 0 <= i < rows.len() ==> #[trigger] rows[i] < st.len() && st[rows[i] as int].trip_id@ == trip
    &&& forall|i: int, j: int| 0 <= i < j < rows.len() ==> row_before(st, #[trigger] rows[i], #[trigger] rows[j])
    &&& forall|k: int| 0 <= k < st.len() && #[trigger] st[k].trip_id@ == trip ==> rows.contains(k as usize)
}

/// The rows of `trip` in `stop_sequence` order.
pub open spec fn trip_rows(st: Seq<StopTime>, trip: Seq<char>) -> Seq<usize> {
    choose|rows: Seq<usize>| is_trip_rows(st, trip, rows)
}

proof fn lemma_trip_rows(st: Seq<StopTime>, trip: Seq<char>, rows: Seq<usize>)
    requires
        is_trip_rows(st, trip, rows),
    ensures
        trip_rows(st, trip) == rows,
{
    let c = trip_rows(st, trip);
    assert(is_trip_rows(st, trip, c));
    assert forall|x: usize| c.contains(x) <==> rows.contains(x) by {
        if c.contains(x) {
            let i = choose|i: int| 0 <= i < c.len() && c[i] == x;
            assert(st[x as int].trip_id@ == trip);
        }
        if rows.contains(x) {
            let i = choose|i: int| 0 <= i < rows.len() && rows[i] == x;
            assert(st[x as int].trip_id@ == trip);
        }
    }
    let before = |x: usize, y: usize| row_before(st, x, y);
    assert forall|i: int, j: int| 0 <= i < j < c.len() implies before(#[trigger] c[i], #[trigger] c[j]) by {}
    assert forall|i: int, j: int| 0 <= i < j < rows.len() implies before(#[trigger] rows[i], #[trigger] rows[j]) by {}
    lemma_sorted_unique(c, rows, before);
}

/// One trip's rows in `stop_sequence` order, as indices into `stop_times`.
///
/// The **value** is the sort key, never the row order: GTFS requires the
/// sequence to increase along a trip but not to be consecutive, and does not
/// require the file to store the rows in that order. Rows sharing a value —
/// which GTFS forbids but a feed can still contain — keep their file order.
fn sorted_rows(trip_id: &str, stop_times: &[StopTime], rows_by_trip: &RowIndex) -> (rows: Vec<usize>)
    requires
        rows_by_trip.indexes(trip_keys(stop_times@)),
    ensures
        is_trip_rows(stop_times@, trip_id@, rows@),
        rows@ == trip_rows(stop_times@, trip_id@),
{
    let ghost st = stop_times@;
    let ghost keys = trip_keys(st);
    let nrows = stop_times.len();
    assert(keys.len() == nrows);
    let group = rows_by_trip.rows(trip_id);
    let ghost g = group@;
    proof {
        assert(rows_by_trip.group(trip_id@) == key_rows(keys, trip_id@, keys.len() as int));
        lemma_key_rows(keys, trip_id@, keys.len() as int);
        assert forall|i: int| 0 <= i < g.len() implies #[trigger] g[i] < st.len() && st[g[i] as int].trip_id@ == trip_id@ by {
            assert(keys[g[i] as int] == st[g[i] as int].trip_id@);
        }
    }
    let mut rows: Vec<usize> = Vec::new();
    let mut i: usize = 0;
    while i < group.len()
        invariant
            st == stop_times@,
            g == group@,
            forall|x: int| 0 <= x < g.len() ==> #[trigger] g[x] < st.len() && st[g[x] as int].trip_id@ == trip_id@,
            forall|x: int, y: int| 0 <= x < y < g.len() ==> #[trigger] g[x] < #[trigger] g[y],
            i <= g.len(),
            forall|x: int|
                0 <= x < rows@.len() ==> #[trigger] rows@[x] < st.len() && st[rows@[x] as int].trip_id@ == trip_id@ && (i
                    < g.len() ==> rows@[x] < g[i as int]),
            forall|x: int, y: int| 0 <= x < y < rows@.len() ==> row_before(st, #[trigger] rows@[x], #[trigger] rows@[y]),
            forall|j: int| 0 <= j < i ==> rows@.contains(#[trigger] g[j]),
        decreases g.len() - i,
    {
        let k = group[i];
        let s = stop_times[k].stop_sequence;
        let mut p: usize = rows.len();
        while p > 0 && stop_times[rows[p - 1]].stop_sequence > s
            invariant
                st == stop_times@,
                k < st.len(),
                s == st[k as int].stop_sequence,
                p <= rows@.len(),
                forall|x: int| 0 <= x < rows@.len() ==> #[trigger] rows@[x] < st.len() && rows@[x] < k,
                forall|x: int| p <= x < rows@.len() ==> st[#[trigger] rows@[x] as int].stop_sequence > s,
            decreases p,
        {
            p -= 1;
        }
        let ghost before = rows@;
        rows.insert(p, k);
        proof {
            assert(rows@ == before.take(p as int).push(k).add(before.skip(p as int)));
            if i + 1 < g.len() {
                assert(g[i as int] < g[i + 1]);
            }
            assert forall|x: int| 0 <= x < rows@.len() implies #[trigger] rows@[x] < st.len() && st[rows@[x] as int].trip_id@
                == trip_id@ && (i + 1 < g.len() ==> rows@[x] < g[i + 1]) by {
                if x < p {
                    assert(rows@[x] == before[x]);
                } else if x > p {
                    assert(rows@[x] == before[x - 1]);
                }
            }
            assert forall|x: int, y: int| 0 <= x < y < rows@.len() implies row_before(st, #[trigger] rows@[x], #[trigger] rows@[y]) by {
                if y < p {
                    assert(rows@[x] == before[x] && rows@[y] == before[y]);
                } else if y == p {
                    assert(rows@[x] == before[x]);
                    if p > 0 {
                        assert(st[before[p - 1] as int].stop_sequence <= s);
                        if x < p - 1 {
                            assert(row_before(st, before[x], before[p - 1]));
                        }
                    }
                } else if x == p {
                    assert(rows@[y] == before[y - 1]);
                } else if x < p {
                    assert(rows@[x] == before[x] && rows@[y] == before[y - 1]);
                } else {
                    assert(rows@[x] == before[x - 1] && rows@[y] == before[y - 1]);
                }
            }
            assert forall|j: int| 0 <= j < i + 1 implies rows@.contains(#[trigger] g[j]) by {
                if j == i {
                    assert(rows@[p as int] == k);
                } else {
                    assert(before.contains(g[j]));
                    let x = choose|x: int| 0 <= x < before.len() && before[x] == g[j];
                    if x < p {
                        assert(rows@[x] == before[x]);
                    } else {
                        assert(rows@[x + 1] == before[x]);
                    }
                }
            }
        }
        i += 1;
    }
    proof {
        assert forall|q: int| 0 <= q < st.len() && #[trigger] st[q].trip_id@ == trip_id@ implies rows@.contains(q as usize) by {
            assert(keys[q] == st[q].trip_id@);
            assert(g.contains(q as usize));
            let j = choose|j: int| 0 <= j < g.len() && g[j] == q as usize;
            assert(rows@.contains(g[j]));
        }
        lemma_trip_rows(st, trip_id@, rows@);
    }
    rows
}

// ---------------------------------------------------------------------------
// A trip's pattern.
// ---------------------------------------------------------------------------

/// The stop ids the rows name, in row order, rows without one skipped.
pub open spec fn stop_ids(st: Seq<StopTime>, rows: Seq<usize>) -> Seq<Seq<char>>
    decreases rows.len(),
{
    if rows.len() == 0 {
        Seq::empty()
    } else {
        let p = stop_ids(st, rows.drop_last());
        match st[rows.last() as int].stop_id {
            Some(id) => p.push(id@),
            None => p,
        }
    }
}

/// The station an id collapses into, or the id itself where the map does not
/// hold it.
pub open spec fn lenient(m: Map<Seq<char>, Seq<char>>, id: Seq<char>) -> Seq<char> {
    if m.contains_key(id) {
        m[id]
    } else {
        id
    }
}

/// Every id through [`lenient`].
pub open spec fn through_lenient(ids: Seq<Seq<char>>, m: Map<Seq<char>, Seq<char>>) -> Seq<Seq<char>> {
    ids.map_values(|id: Seq<char>| lenient(m, id))
}

/// The stations a trip serves, in order, consecutive duplicates folded.
pub open spec fn pattern_of(st: Seq<StopTime>, m: Map<Seq<char>, Seq<char>>, trip: Seq<char>) -> Seq<Seq<char>> {
    dedup(through_lenient(stop_ids(st, trip_rows(st, trip)), m))
}

/// The key two trips are the same pattern by: the stations they serve, in
/// order, with consecutive duplicates folded.
///
/// Lenient where [`resolve`](crate::gtfs::stations::resolve) is strict, and
/// deliberately: grouping is a classification, so an id `stops.txt` does not
/// define forms its own bucket rather than failing a route that may not even
/// draw with that trip.
fn pattern(rows: &[usize], stop_times: &[StopTime], station_of: &CollapseMap) -> (r: Vec<String>)
    requires
        forall|i: int| 0 <= i < rows@.len() ==> #[trigger] rows@[i] < stop_times@.len(),
    ensures
        views(r@) == dedup(through_lenient(stop_ids(stop_times@, rows@), station_of.view())),
{
    broadcast use vstd::string::group_string_axioms;

    let ghost st = stop_times@;
    let ghost m = station_of.view();
    let mut stations: Vec<String> = Vec::new();
    let mut i: usize = 0;
    while i < rows.len()
        invariant
            st == stop_times@,
            m == station_of.view(),
            i <= rows@.len(),
            forall|q: int| 0 <= q < rows@.len() ==> #[trigger] rows@[q] < st.len(),
            views(stations@) == through_lenient(stop_ids(st, rows@.take(i as int)), m),
        decreases rows@.len() - i,
    {
        proof {
            assert(rows@.take(i + 1).drop_last() =~= rows@.take(i as int));
        }
        match &stop_times[rows[i]].stop_id {
            Some(id) => {
                let ghost before = views(stations@);
                let owned = match station_of.get(id.as_str()) {
                    Some(station) => station.to_string(),
                    None => id.clone(),
                };
                stations.push(owned);
                proof {
                    let ids = stop_ids(st, rows@.take(i as int));
                    assert(stop_ids(st, rows@.take(i + 1)) == ids.push(id@));
                    assert(through_lenient(ids.push(id@), m) =~= through_lenient(ids, m).push(lenient(m, id@)));
                    assert(views(stations@) =~= before.push(owned@));
                }
            },
            None => {},
        }
        i += 1;
    }
    proof {
        assert(rows@.take(rows@.len() as int) =~= rows@);
    }
    crate::gtfs::dedup_strings(stations)
}

// ---------------------------------------------------------------------------
// The vote.
// ---------------------------------------------------------------------------

/// The number of `trips[..n]` running the same pattern as `trips[i]`.
pub open spec fn votes(
    st: Seq<StopTime>,
    m: Map<Seq<char>, Seq<char>>,
    trips: Seq<Seq<char>>,
    i: int,
    n: int,
) -> nat
    decreases n,
{
    if n <= 0 {
        0
    } else {
        votes(st, m, trips, i, n - 1) + if pattern_of(st, m, trips[n - 1]) == pattern_of(st, m, trips[i]) {
            1nat
        } else {
            0nat
        }
    }
}

/// The largest vote any of `trips[..n]` gets.
pub open spec fn most_votes(st: Seq<StopTime>, m: Map<Seq<char>, Seq<char>>, trips: Seq<Seq<char>>, n: int) -> nat
    decreases n,
{
    if n <= 0 {
        0
    } else {
        let v = votes(st, m, trips, n - 1, trips.len() as int);
        let best = most_votes(st, m, trips, n - 1);
        if v > best {
            v
        } else {
            best
        }
    }
}

/// The earliest trip whose pattern gets the most votes: the modal pattern,
/// a tie going to the pattern whose first trip is the earlier row.
pub open spec fn winner(st: Seq<StopTime>, m: Map<Seq<char>, Seq<char>>, trips: Seq<Seq<char>>) -> int {
    choose|w: int|
        0 <= w < trips.len() && votes(st, m, trips, w, trips.len() as int) == most_votes(
            st,
            m,
            trips,
            trips.len() as int,
        ) && forall|i: int|
            0 <= i < w ==> votes(st, m, trips, i, trips.len() as int) < most_votes(st, m, trips, trips.len() as int)
}

proof fn lemma_most_votes(st: Seq<StopTime>, m: Map<Seq<char>, Seq<char>>, trips: Seq<Seq<char>>, n: int)
    requires
        0 <= n <= trips.len(),
    ensures
        forall|i: int| 0 <= i < n ==> votes(st, m, trips, i, trips.len() as int) <= most_votes(st, m, trips, n),
        n > 0 ==> exists|i: int| 0 <= i < n && votes(st, m, trips, i, trips.len() as int) == most_votes(st, m, trips, n),
    decreases n,
{
    if n > 0 {
        lemma_most_votes(st, m, trips, n - 1);
        let v = votes(st, m, trips, n - 1, trips.len() as int);
        if v > most_votes(st, m, trips, n - 1) || n == 1 {
            assert(votes(st, m, trips, n - 1, trips.len() as int) == most_votes(st, m, trips, n));
        } else {
            let i = choose|i: int|
                0 <= i < n - 1 && votes(st, m, trips, i, trips.len() as int) == most_votes(st, m, trips, n - 1);
            assert(votes(st, m, trips, i, trips.len() as int) == most_votes(st, m, trips, n));
        }
    }
}

/// Whether two station lists are the same list.
fn same_strings(a: &Vec<String>, b: &Vec<String>) -> (r: bool)
    ensures
        r == (views(a@) == views(b@)),
{
    if a.len() != b.len() {
        assert(views(a@).len() != views(b@).len());
        return false;
    }
    let mut i: usize = 0;
    while i < a.len()
        invariant
            a@.len() == b@.len(),
            i <= a@.len(),
            forall|j: int| 0 <= j < i ==> a@[j]@ == b@[j]@,
        decreases a@.len() - i,
    {
        if a[i] != b[i] {
            assert(views(a@)[i as int] != views(b@)[i as int]);
            return false;
        }
        i += 1;
    }
    assert(views(a@) =~= views(b@));
    true
}

/// Where `p` stands among `reps`, compared as strings.
fn find_pattern(reps: &Vec<Vec<String>>, p: &Vec<String>) -> (r: Option<usize>)
    ensures
        r matches Some(q) ==> q < reps@.len() && views(reps@[q as int]@) == views(p@),
        r is None ==> forall|q: int| 0 <= q < reps@.len() ==> views(#[trigger] reps@[q]@) != views(p@),
{
    let mut q: usize = 0;
    while q < reps.len()
        invariant
            q <= reps@.len(),
            forall|r: int| 0 <= r < q ==> views(#[trigger] reps@[r]@) != views(p@),
        decreases reps@.len() - q,
    {
        if same_strings(&reps[q], p) {
            return Some(q);
        }
        q += 1;
    }
    None
}

/// A trip whose pattern none of `trips[..n]` runs gets no vote from them.
proof fn lemma_no_votes(st: Seq<StopTime>, m: Map<Seq<char>, Seq<char>>, trips: Seq<Seq<char>>, i: int, n: int)
    requires
        forall|k: int| 0 <= k < n ==> pattern_of(st, m, trips[k]) != pattern_of(st, m, trips[i]),
    ensures
        votes(st, m, trips, i, n) == 0,
    decreases n,
{
    if n > 0 {
        lemma_no_votes(st, m, trips, i, n - 1);
    }
}

/// Two trips that run one pattern get the same vote.
proof fn lemma_same_votes(st: Seq<StopTime>, m: Map<Seq<char>, Seq<char>>, trips: Seq<Seq<char>>, a: int, b: int, n: int)
    requires
        pattern_of(st, m, trips[a]) == pattern_of(st, m, trips[b]),
    ensures
        votes(st, m, trips, a, n) == votes(st, m, trips, b, n),
    decreases n,
{
    if n > 0 {
        lemma_same_votes(st, m, trips, a, b, n - 1);
    }
}

/// The stop ids of a route's representative trip, in `stop_sequence` order.
///
/// `trip_ids` is that route's trips in `trips.txt` row order, which is what
/// the tie-break reads. `station_of` is what makes two trips through
/// different platforms of one station the same pattern.
///
/// Platform ids come back rather than station ids: the caller resolves them,
/// and the resolution owns the fold and the error. A route with no trips at
/// all gets no stop ids.
pub fn representative_stop_ids(
    trip_ids: &[&str],
    stop_times: &[StopTime],
    rows_by_trip: &RowIndex,
    station_of: &CollapseMap,
) -> (r: Vec<String>)
    requires
        rows_by_trip.indexes(trip_keys(stop_times@)),
    ensures
        trip_ids@.len() == 0 ==> r@.len() == 0,
        trip_ids@.len() > 0 ==> ({
            let trips = trip_ids@.map_values(|t: &str| t@);
            let w = winner(stop_times@, station_of.view(), trips);
            &&& 0 <= w < trips.len()
            &&& views(r@) == stop_ids(stop_times@, trip_rows(stop_times@, trips[w]))
        }),
{
    let ghost st = stop_times@;
    let ghost m = station_of.view();
    let ghost trips = trip_ids@.map_values(|t: &str| t@);
    let n = trip_ids.len();

    // The distinct patterns in first-appearance order, the trip that brought
    // each in and the trips so far that run it; and per trip, its pattern's
    // place in that list.
    let mut reps: Vec<Vec<String>> = Vec::new();
    let mut firsts: Vec<usize> = Vec::new();
    let mut counts: Vec<usize> = Vec::new();
    let mut class: Vec<usize> = Vec::new();
    let mut i: usize = 0;
    while i < n
        invariant
            st == stop_times@,
            rows_by_trip.indexes(trip_keys(stop_times@)),
            m == station_of.view(),
            trips == trip_ids@.map_values(|t: &str| t@),
            n == trip_ids@.len(),
            i <= n,
            reps@.len() == firsts@.len(),
            counts@.len() == firsts@.len(),
            class@.len() == i,
            forall|q: int| 0 <= q < firsts@.len() ==> #[trigger] firsts@[q] < i,
            forall|q: int|
                0 <= q < firsts@.len() ==> views(#[trigger] reps@[q]@) == pattern_of(st, m, trips[firsts@[q] as int]),
            forall|q: int|
                0 <= q < firsts@.len() ==> #[trigger] counts@[q] == votes(st, m, trips, firsts@[q] as int, i as int),
            forall|q: int| 0 <= q < firsts@.len() ==> #[trigger] counts@[q] <= i,
            forall|q1: int, q2: int|
                0 <= q1 < firsts@.len() && 0 <= q2 < firsts@.len() && q1 != q2 ==> pattern_of(
                    st,
                    m,
                    trips[#[trigger] firsts@[q1] as int],
                ) != pattern_of(st, m, trips[#[trigger] firsts@[q2] as int]),
            forall|k: int| 0 <= k < i ==> #[trigger] class@[k] < firsts@.len(),
            forall|k: int|
                0 <= k < i ==> pattern_of(st, m, trips[firsts@[#[trigger] class@[k] as int] as int]) == pattern_of(
                    st,
                    m,
                    trips[k],
                ),
        decreases n - i,
    {
        let rows = sorted_rows(trip_ids[i], stop_times, rows_by_trip);
        let p = pattern(rows.as_slice(), stop_times, station_of);
        let ghost here = pattern_of(st, m, trips[i as int]);
        assert(views(p@) == here);
        match find_pattern(&reps, &p) {
            Some(q) => {
                let ghost prev_class = class@;
                class.push(q);
                let c = counts[q];
                counts.set(q, c + 1);
                proof {
                    assert forall|r: int| 0 <= r < firsts@.len() implies #[trigger] counts@[r] == votes(
                        st,
                        m,
                        trips,
                        firsts@[r] as int,
                        i + 1,
                    ) by {
                        if r != q {
                            assert(pattern_of(st, m, trips[firsts@[r] as int]) != pattern_of(
                                st,
                                m,
                                trips[firsts@[q as int] as int],
                            ));
                        }
                    }
                    assert forall|k: int| 0 <= k < i + 1 implies pattern_of(
                        st,
                        m,
                        trips[firsts@[#[trigger] class@[k] as int] as int],
                    ) == pattern_of(st, m, trips[k]) by {
                        if k < i {
                            assert(class@[k] == prev_class[k]);
                        }
                    }
                }
            },
            None => {
                proof {
                    assert forall|k: int| 0 <= k < i implies pattern_of(st, m, trips[k]) != here by {
                        let q = class@[k] as int;
                        assert(views(reps@[q]@) != views(p@));
                    }
                    lemma_no_votes(st, m, trips, i as int, i as int);
                }
                let ghost prev_class = class@;
                class.push(firsts.len());
                firsts.push(i);
                reps.push(p);
                counts.push(1);
                proof {
                    let last = firsts@.len() - 1;
                    assert forall|r: int| 0 <= r < last implies pattern_of(st, m, trips[#[trigger] firsts@[r] as int])
                        != here by {
                        assert(views(reps@[r]@) != views(p@));
                    }
                    assert forall|r: int| 0 <= r < firsts@.len() implies #[trigger] counts@[r] == votes(
                        st,
                        m,
                        trips,
                        firsts@[r] as int,
                        i + 1,
                    ) by {
                        if r < last {
                            assert(pattern_of(st, m, trips[firsts@[r] as int]) != here);
                        }
                    }
                    assert forall|k: int| 0 <= k < i + 1 implies pattern_of(
                        st,
                        m,
                        trips[firsts@[#[trigger] class@[k] as int] as int],
                    ) == pattern_of(st, m, trips[k]) by {
                        if k < i {
                            assert(class@[k] == prev_class[k]);
                        }
                    }
                }
            },
        }
        i += 1;
    }

    // Each trip's vote, and the best so far.
    let mut best: Option<usize> = None;
    let mut best_votes: usize = 0;
    let mut i: usize = 0;
    while i < n
        invariant
            st == stop_times@,
            m == station_of.view(),
            trips == trip_ids@.map_values(|t: &str| t@),
            n == trip_ids@.len(),
            counts@.len() == firsts@.len(),
            class@.len() == n,
            forall|q: int|
                0 <= q < firsts@.len() ==> #[trigger] counts@[q] == votes(st, m, trips, firsts@[q] as int, n as int),
            forall|k: int| 0 <= k < n ==> #[trigger] class@[k] < firsts@.len(),
            forall|k: int|
                0 <= k < n ==> pattern_of(st, m, trips[firsts@[#[trigger] class@[k] as int] as int]) == pattern_of(
                    st,
                    m,
                    trips[k],
                ),
            i <= n,
            best_votes == most_votes(st, m, trips, i as int),
            i == 0 <==> best is None,
            best matches Some(w) ==> w < i && votes(st, m, trips, w as int, n as int) == best_votes && forall|k: int|
                0 <= k < w ==> votes(st, m, trips, k, n as int) < best_votes,
        decreases n - i,
    {
        let count = counts[class[i]];
        proof {
            lemma_same_votes(st, m, trips, firsts@[class@[i as int] as int] as int, i as int, n as int);
            lemma_most_votes(st, m, trips, i as int);
        }
        if best.is_none() || count > best_votes {
            best = Some(i);
            best_votes = count;
        }
        i += 1;
    }

    match best {
        None => Vec::new(),
        Some(w) => {
            proof {
                lemma_most_votes(st, m, trips, n as int);
                let c = winner(st, m, trips);
                assert(0 <= c < trips.len() && votes(st, m, trips, c, n as int) == most_votes(st, m, trips, n as int)
                    && forall|k: int| 0 <= k < c ==> votes(st, m, trips, k, n as int) < most_votes(st, m, trips, n as int));
                if c < w {
                } else if w < c {
                }
                assert(c == w as int);
            }
            let rows = sorted_rows(trip_ids[w], stop_times, rows_by_trip);
            let mut ids: Vec<String> = Vec::new();
            let mut k: usize = 0;
            while k < rows.len()
                invariant
                    st == stop_times@,
                    is_trip_rows(st, trip_ids@[w as int]@, rows@),
                    k <= rows@.len(),
                    views(ids@) == stop_ids(st, rows@.take(k as int)),
                decreases rows@.len() - k,
            {
                proof {
                    assert(rows@.take(k + 1).drop_last() =~= rows@.take(k as int));
                }
                match &stop_times[rows[k]].stop_id {
                    Some(id) => {
                        let ghost before = views(ids@);
                        ids.push(id.clone());
                        assert(views(ids@) =~= before.push(id@));
                    },
                    None => {},
                }
                k += 1;
            }
            proof {
                assert(rows@.take(rows@.len() as int) =~= rows@);
            }
            ids
        },
    }
}

} // verus!
