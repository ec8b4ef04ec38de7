//! A feed becomes a network input.
//!
//! Two rules govern this file.
//!
//! **A station is emitted iff some kept line's station list references it**,
//! by whatever identity is current — since platforms collapse, that is the
//! parent's id. A stop serving only a filtered-out or dropped route emits
//! nothing, and a collapsed station sits at its **parent's** row.
//!
//! **Input order is the iteration order.** Stations come out in `stops.txt`
//! row order and lines in `routes.txt` row order.

use vstd::hash_map::StringHashMap;
use vstd::prelude::*;
use vstd::string::StrSliceExecFns;
use vstd::string::StringExecFns;

use crate::gtfs::feed::{lemma_short_name_first, route_display_name, stop_display_name, Feed, Route, Stop, Trip};
use crate::gtfs::index::{key_rows, lemma_key_rows, route_keys, trip_keys, RowIndex};
use crate::gtfs::stations::{
    collapse_map, collapsed, first_dangling, first_unknown, lemma_collapse_lands_on_a_row, lemma_first_unknown,
    resolve, through, CollapseMap,
};
use crate::gtfs::trips::{representative_stop_ids, stop_ids, trip_rows, winner};
use crate::gtfs::{
    dedup, lemma_dedup_keeps_entries, lemma_dedup_no_repeats, views, DropReason, DroppedRoute, ImportError,
    ImportParams, ImportReport, MergedRoute,
};
use crate::model::{
    find_station, input_error, lemma_distinct_lines, lemma_distinct_stations, lemma_find_station,
    lemma_resolving_lines_are_clean, lines_resolve, InputSchema, Line, Station,
};

verus! {

/// The fallback colours, in order, for a route whose `route_color` is absent
/// or malformed.
pub const FALLBACK_PALETTE: [&'static str; 8] = [
    "#E4002B",
    "#00843D",
    "#0057B8",
    "#FF8200",
    "#753BBD",
    "#00A3E0",
    "#FFB81C",
    "#7C878E",
];

// ---------------------------------------------------------------------------
// Colour.
// ---------------------------------------------------------------------------

/// An ASCII hexadecimal digit.
pub open spec fn hex_digit(c: char) -> bool {
    ('0' <= c && c <= '9') || ('a' <= c && c <= 'f') || ('A' <= c && c <= 'F')
}

/// The colour a cell states: six hexadecimal digits, `#` prefixed. Anything
/// else — absent, empty, already prefixed, short, not hex — states none.
pub open spec fn stated(cell: Option<Seq<char>>) -> Option<Seq<char>> {
    match cell {
        Some(d) => if d.len() == 6 && forall|i: int| 0 <= i < 6 ==> hex_digit(#[trigger] d[i]) {
            Some(seq!['#'] + d)
        } else {
            None
        },
        None => None,
    }
}

/// An optional cell by its view.
pub open spec fn cell_view(cell: Option<String>) -> Option<Seq<char>> {
    match cell {
        Some(s) => Some(s@),
        None => None,
    }
}

/// The colour the feed actually stated, or `None` when the fallback should
/// fire. **An explicit `FFFFFF` is kept as white**: "missing" and "white" are
/// one value downstream of the standard and two different cells in the file.
/// Case is the feed's to choose; nothing normalises it.
pub fn stated_color(cell: Option<&str>) -> (r: Option<String>)
    ensures
        r matches Some(c) ==> Some(c@) == stated(match cell {
            Some(d) => Some(d@),
            None => None,
        }),
        r is None ==> stated(match cell {
            Some(d) => Some(d@),
            None => None,
        }) is None,
{
    let digits = match cell {
        Some(d) => d,
        None => return None,
    };
    if digits.unicode_len() != 6 {
        return None;
    }
    let mut i: usize = 0;
    while i < 6
        invariant
            cell == Some(digits),
            digits@.len() == 6,
            i <= 6,
            forall|j: int| 0 <= j < i ==> hex_digit(#[trigger] digits@[j]),
        decreases 6 - i,
    {
        let c = digits.get_char(i);
        if !(('0' <= c && c <= '9') || ('a' <= c && c <= 'f') || ('A' <= c && c <= 'F')) {
            assert(!hex_digit(digits@[i as int]));
            assert(!(forall|j: int| 0 <= j < 6 ==> hex_digit(#[trigger] digits@[j])));
            assert(cell == Some(digits));
            assert(stated(Some(digits@)) is None);
            return None;
        }
        i += 1;
    }
    let mut color = String::from_str("#");
    proof {
        reveal_strlit("#");
    }
    color.append(digits);
    assert(color@ =~= seq!['#'] + digits@);
    Some(color)
}

// ---------------------------------------------------------------------------
// Same line.
// ---------------------------------------------------------------------------

/// Two station lists draw the same line: equal, or exactly reversed.
pub open spec fn draws_same(drawn: Seq<Seq<char>>, candidate: Seq<Seq<char>>) -> bool {
    drawn.len() == candidate.len() && (drawn == candidate || drawn == candidate.reverse())
}

/// Whether a candidate route would draw a line already drawn: **equal or
/// exactly reversed**. Structural on purpose — it reads no name, no colour and
/// no direction — since a feed may publish each direction of one line as its
/// own route, and the second contributes no corridor the first did not.
pub fn draws_the_same_line(drawn: &[String], candidate: &[String]) -> (r: bool)
    ensures
        r == draws_same(views(drawn@), views(candidate@)),
{
    let n = drawn.len();
    if n != candidate.len() {
        assert(views(drawn@).len() != views(candidate@).len());
        return false;
    }
    let mut forward = true;
    let mut i: usize = 0;
    while i < n
        invariant
            n == drawn@.len() == candidate@.len(),
            i <= n,
            forward == forall|j: int| 0 <= j < i ==> drawn@[j]@ == candidate@[j]@,
        decreases n - i,
    {
        if drawn[i] != candidate[i] {
            forward = false;
        }
        i += 1;
    }
    if forward {
        assert(views(drawn@) =~= views(candidate@));
        return true;
    }
    let mut backward = true;
    let mut i: usize = 0;
    while i < n
        invariant
            n == drawn@.len() == candidate@.len(),
            i <= n,
            backward == forall|j: int| 0 <= j < i ==> drawn@[j]@ == candidate@[n - 1 - j]@,
        decreases n - i,
    {
        if drawn[i] != candidate[n - 1 - i] {
            backward = false;
        }
        i += 1;
    }
    proof {
        if backward {
            assert(views(drawn@) =~= views(candidate@).reverse());
        } else {
            let j = choose|j: int| 0 <= j < n && drawn@[j]@ != candidate@[n - 1 - j]@;
            assert(views(drawn@)[j] != views(candidate@).reverse()[j]);
        }
        if views(drawn@) == views(candidate@) {
            let j = choose|j: int| 0 <= j < n && drawn@[j]@ != candidate@[j]@;
            assert(views(drawn@)[j] == views(candidate@)[j]);
        }
    }
    backward
}

/// **Drawing the same line goes both ways.** Every list draws its own line,
/// and one list draws the same line as another exactly when the other draws
/// the same line as it: each direction of a line absorbs the other, whichever
/// `routes.txt` lists first.
pub proof fn lemma_draws_same_symmetric(a: Seq<Seq<char>>, b: Seq<Seq<char>>)
    ensures
        draws_same(a, a),
        draws_same(a, b) == draws_same(b, a),
{
    if a.len() == b.len() && a == b.reverse() {
        assert(b =~= a.reverse());
    }
    if a.len() == b.len() && b == a.reverse() {
        assert(a =~= b.reverse());
    }
}

// ---------------------------------------------------------------------------
// What each route draws.
// ---------------------------------------------------------------------------

/// The trip ids of route `route` among `trips[..n]`, in row order.
pub open spec fn route_trips(trips: Seq<Trip>, route: Seq<char>, n: int) -> Seq<Seq<char>>
    decreases n,
{
    if n <= 0 {
        Seq::empty()
    } else if trips[n - 1].route_id@ == route {
        route_trips(trips, route, n - 1).push(trips[n - 1].trip_id@)
    } else {
        route_trips(trips, route, n - 1)
    }
}

/// The platform ids of route `k`'s representative trip.
pub open spec fn platform_ids(feed: Feed, m: Map<Seq<char>, Seq<char>>, k: int) -> Seq<Seq<char>> {
    let trips = route_trips(feed.trips@, feed.routes@[k].route_id@, feed.trips@.len() as int);
    let st = feed.stop_times@;
    if trips.len() == 0 {
        Seq::empty()
    } else {
        stop_ids(st, trip_rows(st, trips[winner(st, m, trips)]))
    }
}

/// Route `k`'s station list, or `None` when a platform id resolves to nothing.
pub open spec fn route_stations(feed: Feed, m: Map<Seq<char>, Seq<char>>, k: int) -> Option<Seq<Seq<char>>> {
    let ids = platform_ids(feed, m, k);
    if first_unknown(ids, m, ids.len() as int) >= 0 {
        None
    } else {
        Some(dedup(through(ids, m)))
    }
}

/// Route `k` passes the `route_type` filter.
pub open spec fn kept(feed: Feed, params: ImportParams, k: int) -> bool {
    params.route_types@.contains(feed.routes@[k].route_type)
}

/// The number of `routes[..n]` the filter keeps.
pub open spec fn kept_count(feed: Feed, params: ImportParams, n: int) -> nat
    decreases n,
{
    if n <= 0 {
        0
    } else {
        kept_count(feed, params, n - 1) + if kept(feed, params, n - 1) {
            1nat
        } else {
            0nat
        }
    }
}

/// The first of the lines drawn by routes `lines[..n]` that draws `s`, or `-1`.
pub open spec fn first_drawing(
    feed: Feed,
    m: Map<Seq<char>, Seq<char>>,
    lines: Seq<int>,
    s: Seq<Seq<char>>,
    n: int,
) -> int
    decreases n,
{
    if n <= 0 {
        -1
    } else {
        let f = first_drawing(feed, m, lines, s, n - 1);
        if f >= 0 {
            f
        } else if draws_same(route_stations(feed, m, lines[n - 1]).unwrap(), s) {
            n - 1
        } else {
            -1
        }
    }
}

/// Route `k`, given the routes `prev` already drawn, becomes a line: it is
/// kept, resolves to two stations or more, and draws no line already drawn.
pub open spec fn becomes_line(feed: Feed, params: ImportParams, m: Map<Seq<char>, Seq<char>>, prev: Seq<int>, k: int) -> bool {
    &&& kept(feed, params, k)
    &&& route_stations(feed, m, k) is Some
    &&& route_stations(feed, m, k).unwrap().len() >= 2
    &&& first_drawing(feed, m, prev, route_stations(feed, m, k).unwrap(), prev.len() as int) < 0
}

/// The routes among `routes[..n]` that become lines, in row order.
pub open spec fn line_routes(feed: Feed, params: ImportParams, m: Map<Seq<char>, Seq<char>>, n: int) -> Seq<int>
    decreases n,
{
    if n <= 0 {
        Seq::empty()
    } else {
        let prev = line_routes(feed, params, m, n - 1);
        if becomes_line(feed, params, m, prev, n - 1) {
            prev.push(n - 1)
        } else {
            prev
        }
    }
}

/// The first kept route among `routes[..n]` whose trip names a stop that is
/// not a read stop, or `-1`.
pub open spec fn first_failing_route(feed: Feed, params: ImportParams, m: Map<Seq<char>, Seq<char>>, n: int) -> int
    decreases n,
{
    if n <= 0 {
        -1
    } else {
        let f = first_failing_route(feed, params, m, n - 1);
        if f >= 0 {
            f
        } else if kept(feed, params, n - 1) && route_stations(feed, m, n - 1) is None {
            n - 1
        } else {
            -1
        }
    }
}

/// The kept routes among `routes[..n]` dropped for drawing fewer than two
/// stations: each route's id and its station count.
pub open spec fn dropped(feed: Feed, params: ImportParams, m: Map<Seq<char>, Seq<char>>, n: int) -> Seq<(Seq<char>, nat)>
    decreases n,
{
    if n <= 0 {
        Seq::empty()
    } else {
        let prev = dropped(feed, params, m, n - 1);
        if kept(feed, params, n - 1) && route_stations(feed, m, n - 1) is Some && route_stations(
            feed,
            m,
            n - 1,
        ).unwrap().len() < 2 {
            prev.push((feed.routes@[n - 1].route_id@, route_stations(feed, m, n - 1).unwrap().len()))
        } else {
            prev
        }
    }
}

/// The kept routes among `routes[..n]` absorbed into an earlier line: each
/// route's id and the id of the line it joins.
pub open spec fn merged(feed: Feed, params: ImportParams, m: Map<Seq<char>, Seq<char>>, n: int) -> Seq<(Seq<char>, Seq<char>)>
    decreases n,
{
    if n <= 0 {
        Seq::empty()
    } else {
        let prev = merged(feed, params, m, n - 1);
        let lines = line_routes(feed, params, m, n - 1);
        let s = route_stations(feed, m, n - 1);
        if kept(feed, params, n - 1) && s is Some && s.unwrap().len() >= 2 && first_drawing(
            feed,
            m,
            lines,
            s.unwrap(),
            lines.len() as int,
        ) >= 0 {
            let f = first_drawing(feed, m, lines, s.unwrap(), lines.len() as int);
            prev.push((feed.routes@[n - 1].route_id@, feed.routes@[lines[f]].route_id@))
        } else {
            prev
        }
    }
}

/// The number of `lines[..q]` whose route states no colour.
pub open spec fn fallbacks(feed: Feed, lines: Seq<int>, q: int) -> nat
    decreases q,
{
    if q <= 0 {
        0
    } else {
        fallbacks(feed, lines, q - 1) + if stated(cell_view(feed.routes@[lines[q - 1]].route_color)) is None {
            1nat
        } else {
            0nat
        }
    }
}

/// The colour of the `q`th line: the one its route states, else the next
/// palette colour, every colour used before any repeats.
pub open spec fn line_colour(feed: Feed, lines: Seq<int>, q: int) -> Seq<char> {
    match stated(cell_view(feed.routes@[lines[q]].route_color)) {
        Some(c) => c,
        None => FALLBACK_PALETTE[(fallbacks(feed, lines, q) % 8) as int]@,
    }
}

/// `line` is the `q`th line, the one route `lines[q]` draws.
pub open spec fn is_route_line(feed: Feed, m: Map<Seq<char>, Seq<char>>, lines: Seq<int>, q: int, line: Line) -> bool {
    let route = feed.routes@[lines[q]];
    &&& line.id@ == route.route_id@
    &&& line.name@ == route_display_name(route)
    &&& line.color@ == line_colour(feed, lines, q)
    &&& views(line.stations@) == route_stations(feed, m, lines[q]).unwrap()
}

/// Some line drawn by `lines` references station `id`.
pub open spec fn referenced(feed: Feed, m: Map<Seq<char>, Seq<char>>, lines: Seq<int>, id: Seq<char>) -> bool {
    exists|q: int| 0 <= q < lines.len() && #[trigger] route_stations(feed, m, lines[q]).unwrap().contains(id)
}

/// The rows of `stops[..n]` that emit a station.
pub open spec fn emitted_rows(feed: Feed, m: Map<Seq<char>, Seq<char>>, lines: Seq<int>, n: int) -> Seq<int>
    decreases n,
{
    if n <= 0 {
        Seq::empty()
    } else if referenced(feed, m, lines, feed.stops@[n - 1].stop_id@) {
        emitted_rows(feed, m, lines, n - 1).push(n - 1)
    } else {
        emitted_rows(feed, m, lines, n - 1)
    }
}

/// The first emitting row of `stops[..n]` without coordinates, or `-1`.
pub open spec fn first_uncoordinated(feed: Feed, m: Map<Seq<char>, Seq<char>>, lines: Seq<int>, n: int) -> int
    decreases n,
{
    if n <= 0 {
        -1
    } else {
        let f = first_uncoordinated(feed, m, lines, n - 1);
        let s = feed.stops@[n - 1];
        if f >= 0 {
            f
        } else if referenced(feed, m, lines, s.stop_id@) && (s.stop_lat_bits is None || s.stop_lon_bits is None) {
            n - 1
        } else {
            -1
        }
    }
}

/// `station` is what stop row `stop` emits: its id, name and coordinates.
pub open spec fn is_stop_station(stop: Stop, station: Station) -> bool {
    &&& station.id@ == stop.stop_id@
    &&& station.name@ == stop_display_name(stop)
    &&& stop.stop_lat_bits == Some(station.lat_bits)
    &&& stop.stop_lon_bits == Some(station.lon_bits)
}

/// `schema` is what the import makes of `feed`: the lines of the routes that
/// become lines, in `routes.txt` order, and the stations of the referenced
/// `stops.txt` rows, in row order.
pub open spec fn imports_to(feed: Feed, params: ImportParams, schema: InputSchema) -> bool {
    let nstops = feed.stops@.len() as int;
    let nroutes = feed.routes@.len() as int;
    let m = collapsed(feed.stops@, nstops);
    let lines = line_routes(feed, params, m, nroutes);
    let rows = emitted_rows(feed, m, lines, nstops);
    &&& first_dangling(feed.stops@, nstops) < 0
    &&& first_failing_route(feed, params, m, nroutes) < 0
    &&& first_uncoordinated(feed, m, lines, nstops) < 0
    &&& schema.lines@.len() == lines.len()
    &&& forall|q: int| 0 <= q < lines.len() ==> is_route_line(feed, m, lines, q, #[trigger] schema.lines@[q])
    &&& schema.stations@.len() == rows.len()
    &&& forall|i: int| 0 <= i < rows.len() ==> is_stop_station(feed.stops@[rows[i]], #[trigger] schema.stations@[i])
}

// ---------------------------------------------------------------------------
// Lemmas on the folds.
// ---------------------------------------------------------------------------

proof fn lemma_failing_stays(feed: Feed, params: ImportParams, m: Map<Seq<char>, Seq<char>>, n: int, p: int)
    requires
        0 <= n <= p,
        first_failing_route(feed, params, m, n) >= 0,
    ensures
        first_failing_route(feed, params, m, p) == first_failing_route(feed, params, m, n),
    decreases p - n,
{
    if p > n {
        lemma_failing_stays(feed, params, m, n, p - 1);
    }
}

proof fn lemma_uncoordinated_stays(feed: Feed, m: Map<Seq<char>, Seq<char>>, lines: Seq<int>, n: int, p: int)
    requires
        0 <= n <= p,
        first_uncoordinated(feed, m, lines, n) >= 0,
    ensures
        first_uncoordinated(feed, m, lines, p) == first_uncoordinated(feed, m, lines, n),
    decreases p - n,
{
    if p > n {
        lemma_uncoordinated_stays(feed, m, lines, n, p - 1);
    }
}

proof fn lemma_line_routes(feed: Feed, params: ImportParams, m: Map<Seq<char>, Seq<char>>, n: int)
    requires
        0 <= n,
    ensures
        forall|q: int|
            0 <= q < line_routes(feed, params, m, n).len() ==> 0 <= #[trigger] line_routes(feed, params, m, n)[q] < n
                && route_stations(feed, m, line_routes(feed, params, m, n)[q]) is Some,
    decreases n,
{
    if n > 0 {
        lemma_line_routes(feed, params, m, n - 1);
    }
}

proof fn lemma_fallbacks_bound(feed: Feed, lines: Seq<int>, q: int)
    requires
        0 <= q,
    ensures
        fallbacks(feed, lines, q) <= q,
    decreases q,
{
    if q > 0 {
        lemma_fallbacks_bound(feed, lines, q - 1);
    }
}

// ---------------------------------------------------------------------------
// The conversion.
// ---------------------------------------------------------------------------

/// A route's trips are its rows of `trips.txt`, in row order.
proof fn lemma_route_trips(trips: Seq<Trip>, route: Seq<char>, n: int)
    requires
        0 <= n <= trips.len(),
        trips.len() <= usize::MAX,
    ensures
        route_trips(trips, route, n) == key_rows(route_keys(trips), route, n).map_values(
            |k: usize| trips[k as int].trip_id@,
        ),
    decreases n,
{
    if n > 0 {
        lemma_route_trips(trips, route, n - 1);
        assert(route_keys(trips)[n - 1] == trips[n - 1].route_id@);
        let prev = key_rows(route_keys(trips), route, n - 1);
        if trips[n - 1].route_id@ == route {
            assert(((n - 1) as usize) as int == n - 1);
            assert(key_rows(route_keys(trips), route, n).map_values(|k: usize| trips[k as int].trip_id@) =~= prev.map_values(
                |k: usize| trips[k as int].trip_id@,
            ).push(trips[n - 1].trip_id@));
        }
    }
}

/// The trip ids of one route, in `trips.txt` row order.
fn trips_of<'a>(trips: &'a [Trip], trips_by_route: &RowIndex, route_id: &String) -> (r: Vec<&'a str>)
    requires
        trips_by_route.indexes(route_keys(trips@)),
    ensures
        r@.map_values(|t: &str| t@) == route_trips(trips@, route_id@, trips@.len() as int),
{
    let ghost keys = route_keys(trips@);
    let ntrips = trips.len();
    assert(keys.len() == ntrips);
    let group = trips_by_route.rows(route_id.as_str());
    let ghost g = group@;
    proof {
        assert(trips_by_route.group(route_id@) == key_rows(keys, route_id@, keys.len() as int));
        lemma_key_rows(keys, route_id@, keys.len() as int);
        lemma_route_trips(trips@, route_id@, trips@.len() as int);
    }
    let mut r: Vec<&'a str> = Vec::new();
    let mut j: usize = 0;
    while j < group.len()
        invariant
            g == group@,
            forall|x: int| 0 <= x < g.len() ==> #[trigger] g[x] < trips@.len(),
            j <= g.len(),
            r@.map_values(|t: &str| t@) == g.take(j as int).map_values(|k: usize| trips@[k as int].trip_id@),
        decreases g.len() - j,
    {
        let ghost before = r@;
        let id = trips[group[j]].trip_id.as_str();
        r.push(id);
        proof {
            assert(id@ == trips@[g[j as int] as int].trip_id@);
            assert(g.take(j + 1) =~= g.take(j as int).push(g[j as int]));
            assert(r@.map_values(|t: &str| t@) =~= before.map_values(|t: &str| t@).push(id@));
            assert(g.take(j + 1).map_values(|k: usize| trips@[k as int].trip_id@) =~= g.take(j as int).map_values(
                |k: usize| trips@[k as int].trip_id@,
            ).push(trips@[g[j as int] as int].trip_id@));
        }
        j += 1;
    }
    assert(g.take(j as int) =~= g);
    r
}

/// Route `k`'s station list.
fn route_line(
    feed: &Feed,
    station_of: &CollapseMap,
    rows_by_trip: &RowIndex,
    trips_by_route: &RowIndex,
    k: usize,
) -> (r: Result<Vec<String>, ImportError>)
    requires
        rows_by_trip.indexes(trip_keys(feed.stop_times@)),
        trips_by_route.indexes(route_keys(feed.trips@)),
        k < feed.routes@.len(),
    ensures
        r is Err <==> route_stations(*feed, station_of.view(), k as int) is None,
        r matches Ok(v) ==> views(v@) == route_stations(*feed, station_of.view(), k as int).unwrap(),
        r matches Err(e) ==> ({
            let ids = platform_ids(*feed, station_of.view(), k as int);
            let f = first_unknown(ids, station_of.view(), ids.len() as int);
            &&& e matches ImportError::UnknownStop { route, stop_id }
            &&& route@ == feed.routes@[k as int].route_id@
            &&& stop_id@ == ids[f]
        }),
{
    let route = &feed.routes[k];
    let trip_ids = trips_of(feed.trips.as_slice(), trips_by_route, &route.route_id);
    let platforms = representative_stop_ids(trip_ids.as_slice(), feed.stop_times.as_slice(), rows_by_trip, station_of);
    proof {
        assert(views(platforms@) == platform_ids(*feed, station_of.view(), k as int));
        lemma_first_unknown(views(platforms@), station_of.view(), platforms@.len() as int);
    }
    resolve(platforms.as_slice(), station_of, route.route_id.as_str())
}

/// The ids among `ids`, as a set to look an id up in.
fn id_set(ids: &Vec<String>) -> (r: StringHashMap<bool>)
    ensures
        forall|id: Seq<char>| #[trigger] r@.contains_key(id) <==> views(ids@).contains(id),
{
    let mut r: StringHashMap<bool> = StringHashMap::new();
    let mut i: usize = 0;
    while i < ids.len()
        invariant
            i <= ids@.len(),
            forall|id: Seq<char>| #[trigger] r@.contains_key(id) <==> views(ids@).take(i as int).contains(id),
        decreases ids@.len() - i,
    {
        let ghost before = r@;
        let key = ids[i].clone();
        r.insert(key, true);
        proof {
            let prev = views(ids@).take(i as int);
            let next = views(ids@).take(i + 1);
            assert(next =~= prev.push(ids@[i as int]@));
            assert forall|id: Seq<char>| #[trigger] r@.contains_key(id) <==> next.contains(id) by {
                if id == ids@[i as int]@ {
                    assert(next[i as int] == id);
                } else {
                    if next.contains(id) {
                        let j = choose|j: int| 0 <= j < next.len() && next[j] == id;
                        assert(prev[j] == id);
                    }
                    if prev.contains(id) {
                        let j = choose|j: int| 0 <= j < prev.len() && prev[j] == id;
                        assert(next[j] == id);
                    }
                    assert(before.contains_key(id) == r@.contains_key(id));
                }
            }
        }
        i += 1;
    }
    assert(views(ids@).take(i as int) =~= views(ids@));
    r
}

/// A feed's kept routes as lines and its referenced stops as stations, with
/// the report of what was kept, dropped and merged.
///
/// Per kept route, in row order: its representative trip resolves to a
/// station list; under two stations it is dropped; drawing a line an earlier
/// route already drew it is absorbed into that line; otherwise it becomes a
/// line, taking its stated colour or the next palette colour. A dropped or
/// absorbed route references no station and takes no palette colour.
pub fn to_schema(feed: &Feed, params: &ImportParams) -> (r: Result<(InputSchema, ImportReport), ImportError>)
    ensures
        ({
            let nstops = feed.stops@.len() as int;
            let nroutes = feed.routes@.len() as int;
            let m = collapsed(feed.stops@, nstops);
            let lines = line_routes(*feed, *params, m, nroutes);
            let fr = first_failing_route(*feed, *params, m, nroutes);
            let fc = first_uncoordinated(*feed, m, lines, nstops);
            let fd = first_dangling(feed.stops@, nstops);
            &&& fd >= 0 ==> (r matches Err(ImportError::UnknownParentStation { stop_id, parent }) && stop_id@
                == feed.stops@[fd].stop_id@ && parent@ == feed.stops@[fd].parent_station.unwrap()@)
            &&& fd < 0 && fr >= 0 ==> (r matches Err(ImportError::UnknownStop { route, stop_id }) && route@
                == feed.routes@[fr].route_id@ && stop_id@ == platform_ids(*feed, m, fr)[first_unknown(
                platform_ids(*feed, m, fr),
                m,
                platform_ids(*feed, m, fr).len() as int,
            )])
            &&& fd < 0 && fr < 0 && fc >= 0 ==> (r matches Err(ImportError::MissingCoordinates { stop_id })
                && stop_id@ == feed.stops@[fc].stop_id@)
            &&& r is Ok <==> fd < 0 && fr < 0 && fc < 0
        }),
        r matches Ok((schema, report)) ==> ({
            let nstops = feed.stops@.len() as int;
            let nroutes = feed.routes@.len() as int;
            let m = collapsed(feed.stops@, nstops);
            let lines = line_routes(*feed, *params, m, nroutes);
            let rows = emitted_rows(*feed, m, lines, nstops);
            let drops = dropped(*feed, *params, m, nroutes);
            let merges = merged(*feed, *params, m, nroutes);
            &&& imports_to(*feed, *params, schema)
            &&& forall|i: int|
                0 <= i < schema.stations@.len() ==> exists|k: int|
                    0 <= k < nstops && (#[trigger] feed.stops@[k]).stop_id@ == (#[trigger] schema.stations@[i]).id@
                        && feed.stops@[k].stop_lat_bits == Some(schema.stations@[i].lat_bits)
                        && feed.stops@[k].stop_lon_bits == Some(schema.stations@[i].lon_bits)
            &&& forall|q: int|
                0 <= q < schema.lines@.len() ==> exists|k: int|
                    0 <= k < nroutes && (#[trigger] feed.routes@[k]).route_id@ == (#[trigger] schema.lines@[q]).id@
                        && named_after(feed.routes@[k], schema.lines@[q].name@)
            &&& report.routes_seen == nroutes
            &&& report.routes_kept == kept_count(*feed, *params, nroutes)
            &&& report.stops_seen == nstops
            &&& report.stations_emitted == rows.len()
            &&& report.routes_dropped@.len() == drops.len()
            &&& forall|i: int|
                0 <= i < drops.len() ==> (#[trigger] report.routes_dropped@[i]).route_id@ == drops[i].0
                    && report.routes_dropped@[i].reason == (DropReason::LineTooShort { stations: drops[i].1 as usize })
            &&& report.routes_merged@.len() == merges.len()
            &&& forall|i: int|
                0 <= i < merges.len() ==> (#[trigger] report.routes_merged@[i]).route_id@ == merges[i].0
                    && report.routes_merged@[i].into@ == merges[i].1
        }),
{
    let station_of = match collapse_map(feed.stops.as_slice()) {
        Ok(m) => m,
        Err(e) => return Err(e),
    };
    let ghost m = station_of.view();
    let ghost nstops = feed.stops@.len() as int;
    let ghost nroutes = feed.routes@.len() as int;
    let rows_by_trip = RowIndex::of_stop_times(feed.stop_times.as_slice());
    let trips_by_route = RowIndex::of_trips(feed.trips.as_slice());

    let mut lines: Vec<Line> = Vec::new();
    let mut referenced_ids: Vec<String> = Vec::new();
    let mut routes_kept: usize = 0;
    let mut routes_dropped: Vec<DroppedRoute> = Vec::new();
    let mut routes_merged: Vec<MergedRoute> = Vec::new();
    let mut fallbacks_used: usize = 0;
    let ghost mut line_of: Seq<int> = Seq::empty();

    let mut k: usize = 0;
    while k < feed.routes.len()
        invariant
            rows_by_trip.indexes(trip_keys(feed.stop_times@)),
            trips_by_route.indexes(route_keys(feed.trips@)),
            m == station_of.view(),
            m == collapsed(feed.stops@, nstops),
            nstops == feed.stops@.len(),
            nroutes == feed.routes@.len(),
            first_dangling(feed.stops@, nstops) < 0,
            k <= nroutes,
            first_failing_route(*feed, *params, m, k as int) < 0,
            line_of == line_routes(*feed, *params, m, k as int),
            lines@.len() == line_of.len(),
            forall|q: int| 0 <= q < line_of.len() ==> is_route_line(*feed, m, line_of, q, #[trigger] lines@[q]),
            forall|q: int| 0 <= q < line_of.len() ==> 0 <= #[trigger] line_of[q] < k,
            line_of.len() <= k,
            fallbacks_used == fallbacks(*feed, line_of, line_of.len() as int),
            forall|id: Seq<char>| #[trigger] views(referenced_ids@).contains(id) <==> referenced(*feed, m, line_of, id),
            routes_kept == kept_count(*feed, *params, k as int),
            routes_kept <= k,
            routes_dropped@.len() == dropped(*feed, *params, m, k as int).len(),
            forall|i: int|
                0 <= i < dropped(*feed, *params, m, k as int).len() ==> (#[trigger] routes_dropped@[i]).route_id@ == dropped(
                    *feed,
                    *params,
                    m,
                    k as int,
                )[i].0 && routes_dropped@[i].reason == (DropReason::LineTooShort {
                    stations: dropped(*feed, *params, m, k as int)[i].1 as usize,
                }),
            routes_merged@.len() == merged(*feed, *params, m, k as int).len(),
            forall|i: int|
                0 <= i < merged(*feed, *params, m, k as int).len() ==> (#[trigger] routes_merged@[i]).route_id@ == merged(
                    *feed,
                    *params,
                    m,
                    k as int,
                )[i].0 && routes_merged@[i].into@ == merged(*feed, *params, m, k as int)[i].1,
        decreases nroutes - k,
    {
        let route = &feed.routes[k];
        let ghost prev = line_of;
        if !keeps_type(&params.route_types, route.route_type) {
            proof {
                assert(!kept(*feed, *params, k as int));
                assert(line_routes(*feed, *params, m, k + 1) == prev);
                assert(dropped(*feed, *params, m, k + 1) == dropped(*feed, *params, m, k as int));
                assert(merged(*feed, *params, m, k + 1) == merged(*feed, *params, m, k as int));
            }
            k += 1;
            continue;
        }
        routes_kept += 1;

        let stations = match route_line(feed, &station_of, &rows_by_trip, &trips_by_route, k) {
            Ok(v) => v,
            Err(e) => {
                proof {
                    assert(first_failing_route(*feed, *params, m, k + 1) == k);
                    lemma_failing_stays(*feed, *params, m, k + 1, nroutes);
                }
                return Err(e);
            },
        };
        let ghost s = views(stations@);
        assert(s == route_stations(*feed, m, k as int).unwrap());
        assert(first_failing_route(*feed, *params, m, k + 1) < 0);

        // Dropped before anything else this iteration touches: a dropped route
        // references nothing and takes no palette colour.
        if stations.len() < 2 {
            let ghost before = routes_dropped@;
            routes_dropped.push(
                DroppedRoute {
                    route_id: route.route_id.clone(),
                    reason: DropReason::LineTooShort { stations: stations.len() },
                },
            );
            proof {
                assert(line_routes(*feed, *params, m, k + 1) == prev);
                assert(merged(*feed, *params, m, k + 1) == merged(*feed, *params, m, k as int));
                let d = dropped(*feed, *params, m, k + 1);
                assert(d == dropped(*feed, *params, m, k as int).push((route.route_id@, s.len())));
                assert forall|i: int| 0 <= i < d.len() implies (#[trigger] routes_dropped@[i]).route_id@ == d[i].0
                    && routes_dropped@[i].reason == (DropReason::LineTooShort { stations: d[i].1 as usize }) by {
                    if i < before.len() {
                        assert(routes_dropped@[i] == before[i]);
                    }
                }
            }
            k += 1;
            continue;
        }

        // A route drawing a line an earlier route already drew is absorbed
        // into it, and takes no palette colour either.
        let mut j: usize = 0;
        let mut into: Option<usize> = None;
        while j < lines.len() && into.is_none()
            invariant
                lines@.len() == line_of.len(),
                forall|q: int| 0 <= q < line_of.len() ==> is_route_line(*feed, m, line_of, q, #[trigger] lines@[q]),
                s == views(stations@),
                j <= lines@.len(),
                into is None ==> first_drawing(*feed, m, line_of, s, j as int) < 0,
                into matches Some(f) ==> f < lines@.len() && first_drawing(*feed, m, line_of, s, lines@.len() as int) == f,
            decreases lines@.len() - j + if into is None {
                1int
            } else {
                0int
            },
        {
            if draws_the_same_line(lines[j].stations.as_slice(), stations.as_slice()) {
                proof {
                    assert(is_route_line(*feed, m, line_of, j as int, lines@[j as int]));
                    assert(draws_same(route_stations(*feed, m, line_of[j as int]).unwrap(), s));
                    assert(first_drawing(*feed, m, line_of, s, j + 1) == j);
                    lemma_drawing_stays(*feed, m, line_of, s, j + 1, line_of.len() as int);
                }
                into = Some(j);
            } else {
                j += 1;
            }
        }
        if let Some(f) = into {
            let ghost before = routes_merged@;
            routes_merged.push(MergedRoute { route_id: route.route_id.clone(), into: lines[f].id.clone() });
            proof {
                assert(is_route_line(*feed, m, line_of, f as int, lines@[f as int]));
                assert(line_routes(*feed, *params, m, k + 1) == prev);
                assert(dropped(*feed, *params, m, k + 1) == dropped(*feed, *params, m, k as int));
                let g = merged(*feed, *params, m, k + 1);
                assert(g == merged(*feed, *params, m, k as int).push(
                    (route.route_id@, feed.routes@[line_of[f as int]].route_id@),
                ));
                assert forall|i: int| 0 <= i < g.len() implies (#[trigger] routes_merged@[i]).route_id@ == g[i].0
                    && routes_merged@[i].into@ == g[i].1 by {
                    if i < before.len() {
                        assert(routes_merged@[i] == before[i]);
                    }
                }
            }
            k += 1;
            continue;
        }
        assert(first_drawing(*feed, m, line_of, s, line_of.len() as int) < 0);

        // It becomes a line.
        let ghost refs_before = views(referenced_ids@);
        assert(forall|id: Seq<char>| #[trigger] refs_before.contains(id) <==> referenced(*feed, m, prev, id));
        let mut i: usize = 0;
        while i < stations.len()
            invariant
                s == views(stations@),
                i <= stations@.len(),
                views(referenced_ids@) == refs_before + s.take(i as int),
            decreases stations@.len() - i,
        {
            let ghost pre = views(referenced_ids@);
            referenced_ids.push(stations[i].clone());
            proof {
                assert(views(referenced_ids@) =~= pre.push(s[i as int]));
                assert(s.take(i + 1) == s.take(i as int).push(s[i as int]));
                assert(views(referenced_ids@) =~= refs_before + s.take(i + 1));
            }
            i += 1;
        }
        proof {
            assert(s.take(s.len() as int) =~= s);
            assert(views(referenced_ids@) == refs_before + s);
        }

        let cell: Option<&str> = match &route.route_color {
            Some(c) => Some(c.as_str()),
            None => None,
        };
        let ghost fb = fallbacks_used;
        let color = match stated_color(cell) {
            Some(color) => color,
            None => {
                proof {
                    lemma_fallbacks_bound(*feed, line_of, line_of.len() as int);
                }
                let color = FALLBACK_PALETTE[fallbacks_used % 8].to_string();
                fallbacks_used += 1;
                color
            },
        };

        let ghost lines_before = lines@;
        lines.push(Line { id: route.route_id.clone(), name: route.name().to_string(), color, stations });
        proof {
            let next = prev.push(k as int);
            assert(becomes_line(*feed, *params, m, prev, k as int));
            assert(line_routes(*feed, *params, m, k + 1) == next);
            assert(dropped(*feed, *params, m, k + 1) == dropped(*feed, *params, m, k as int));
            assert(merged(*feed, *params, m, k + 1) == merged(*feed, *params, m, k as int));
            lemma_fallbacks_push(*feed, prev, k as int, prev.len() as int);
            assert(cell_view(route.route_color) == match cell {
                Some(d) => Some(d@),
                None => None,
            });
            assert forall|q: int| 0 <= q < next.len() implies is_route_line(*feed, m, next, q, #[trigger] lines@[q]) by {
                if q < prev.len() {
                    assert(lines@[q] == lines_before[q]);
                    assert(next[q] == prev[q]);
                    lemma_fallbacks_push(*feed, prev, k as int, q);
                    assert(is_route_line(*feed, m, prev, q, lines_before[q]));
                } else {
                    assert(next[q] == k);
                }
            }
            assert(fallbacks_used == fallbacks(*feed, next, next.len() as int));
            assert forall|id: Seq<char>| #[trigger] views(referenced_ids@).contains(id) <==> referenced(*feed, m, next, id) by {
                if views(referenced_ids@).contains(id) {
                    let w = choose|w: int| 0 <= w < views(referenced_ids@).len() && views(referenced_ids@)[w] == id;
                    if w < refs_before.len() {
                        assert(refs_before[w] == id);
                        assert(refs_before.contains(id));
                        let q = choose|q: int| 0 <= q < prev.len() && #[trigger] route_stations(*feed, m, prev[q]).unwrap().contains(id);
                        assert(next[q] == prev[q]);
                    } else {
                        assert(s[w - refs_before.len()] == id);
                        assert(route_stations(*feed, m, next[prev.len() as int]).unwrap().contains(id));
                    }
                }
                if referenced(*feed, m, next, id) {
                    let q = choose|q: int| 0 <= q < next.len() && #[trigger] route_stations(*feed, m, next[q]).unwrap().contains(id);
                    if q < prev.len() {
                        assert(next[q] == prev[q]);
                        assert(referenced(*feed, m, prev, id));
                        assert(refs_before.contains(id));
                        let w = choose|w: int| 0 <= w < refs_before.len() && refs_before[w] == id;
                        assert(views(referenced_ids@)[w] == id);
                    } else {
                        let w = choose|w: int| 0 <= w < s.len() && s[w] == id;
                        assert(views(referenced_ids@)[refs_before.len() + w] == id);
                    }
                }
            }
            line_of = next;
        }
        k += 1;
    }

    let stations = match emit_stations(feed, &referenced_ids, Ghost(m), Ghost(line_of)) {
        Ok(v) => v,
        Err(e) => return Err(e),
    };

    let report = ImportReport {
        routes_seen: feed.routes.len(),
        routes_kept,
        routes_dropped,
        routes_merged,
        stops_seen: feed.stops.len(),
        stations_emitted: stations.len(),
    };
    let schema = InputSchema { stations, lines };
    proof {
        lemma_station_keeps_row_coordinates(*feed, *params, schema);
        lemma_line_named_after_route(*feed, *params, schema);
    }
    Ok((schema, report))
}

/// The stations the referenced stop rows emit, in `stops.txt` row order.
///
/// A referenced stop without coordinates is a malformed feed and an error
/// naming it, rather than a silent `(0, 0)` that drags the whole map's
/// centroid into the ocean.
fn emit_stations(
    feed: &Feed,
    referenced_ids: &Vec<String>,
    Ghost(m): Ghost<Map<Seq<char>, Seq<char>>>,
    Ghost(line_of): Ghost<Seq<int>>,
) -> (r: Result<Vec<Station>, ImportError>)
    requires
        forall|id: Seq<char>| #[trigger] views(referenced_ids@).contains(id) <==> referenced(*feed, m, line_of, id),
    ensures
        ({
            let fc = first_uncoordinated(*feed, m, line_of, feed.stops@.len() as int);
            &&& r is Ok <==> fc < 0
            &&& fc >= 0 ==> (r matches Err(ImportError::MissingCoordinates { stop_id }) && stop_id@
                == feed.stops@[fc].stop_id@)
        }),
        r matches Ok(stations) ==> ({
            let rows = emitted_rows(*feed, m, line_of, feed.stops@.len() as int);
            &&& stations@.len() == rows.len()
            &&& forall|q: int| 0 <= q < rows.len() ==> is_stop_station(feed.stops@[rows[q]], #[trigger] stations@[q])
            &&& forall|q: int|
                0 <= q < rows.len() ==> feed.stops@[rows[q]].stop_lat_bits == Some((#[trigger] stations@[q]).lat_bits)
                    && feed.stops@[rows[q]].stop_lon_bits == Some(stations@[q].lon_bits)
        }),
{
    let ghost nstops = feed.stops@.len() as int;
    let referenced_set = id_set(referenced_ids);
    let mut stations: Vec<Station> = Vec::new();
    let mut i: usize = 0;
    while i < feed.stops.len()
        invariant
            nstops == feed.stops@.len(),
            i <= nstops,
            forall|id: Seq<char>| #[trigger] referenced_set@.contains_key(id) <==> referenced(*feed, m, line_of, id),
            stations@.len() == emitted_rows(*feed, m, line_of, i as int).len(),
            forall|q: int|
                0 <= q < stations@.len() ==> is_stop_station(
                    feed.stops@[emitted_rows(*feed, m, line_of, i as int)[q]],
                    #[trigger] stations@[q],
                ),
            first_uncoordinated(*feed, m, line_of, i as int) < 0,
        decreases nstops - i,
    {
        let stop = &feed.stops[i];
        let ghost before = stations@;
        if referenced_set.contains_key(stop.stop_id.as_str()) {
            match (stop.stop_lat_bits, stop.stop_lon_bits) {
                (Some(lat_bits), Some(lon_bits)) => {
                    stations.push(
                        Station { id: stop.stop_id.clone(), name: stop.name().to_string(), lat_bits, lon_bits },
                    );
                    proof {
                        let rows = emitted_rows(*feed, m, line_of, i + 1);
                        assert(rows == emitted_rows(*feed, m, line_of, i as int).push(i as int));
                        assert forall|q: int| 0 <= q < stations@.len() implies is_stop_station(
                            feed.stops@[rows[q]],
                            #[trigger] stations@[q],
                        ) by {
                            if q < before.len() {
                                assert(stations@[q] == before[q]);
                            }
                        }
                    }
                },
                _ => {
                    proof {
                        assert(first_uncoordinated(*feed, m, line_of, i + 1) == i);
                        lemma_uncoordinated_stays(*feed, m, line_of, i + 1, nstops);
                    }
                    return Err(ImportError::MissingCoordinates { stop_id: stop.stop_id.clone() });
                },
            }
        }
        i += 1;
    }
    Ok(stations)
}

/// Whether the filter keeps a route type.
fn keeps_type(types: &Vec<u16>, t: u16) -> (r: bool)
    ensures
        r == types@.contains(t),
{
    let mut i: usize = 0;
    while i < types.len()
        invariant
            i <= types@.len(),
            forall|j: int| 0 <= j < i ==> types@[j] != t,
        decreases types@.len() - i,
    {
        if types[i] == t {
            assert(types@[i as int] == t);
            return true;
        }
        i += 1;
    }
    false
}

proof fn lemma_drawing_stays(
    feed: Feed,
    m: Map<Seq<char>, Seq<char>>,
    lines: Seq<int>,
    s: Seq<Seq<char>>,
    n: int,
    p: int,
)
    requires
        0 <= n <= p,
        first_drawing(feed, m, lines, s, n) >= 0,
    ensures
        first_drawing(feed, m, lines, s, p) == first_drawing(feed, m, lines, s, n),
    decreases p - n,
{
    if p > n {
        lemma_drawing_stays(feed, m, lines, s, n, p - 1);
    }
}

proof fn lemma_fallbacks_push(feed: Feed, lines: Seq<int>, x: int, q: int)
    requires
        0 <= q <= lines.len(),
    ensures
        fallbacks(feed, lines.push(x), q) == fallbacks(feed, lines, q),
    decreases q,
{
    if q > 0 {
        lemma_fallbacks_push(feed, lines, x, q - 1);
        assert(lines.push(x)[q - 1] == lines[q - 1]);
    }
}

// ---------------------------------------------------------------------------
// An import is a network.
// ---------------------------------------------------------------------------

/// No two `stops.txt` rows share a `stop_id`, as GTFS requires.
pub open spec fn unique_stop_ids(stops: Seq<Stop>) -> bool {
    forall|i: int, j: int| 0 <= i < j < stops.len() ==> #[trigger] stops[i].stop_id@ != #[trigger] stops[j].stop_id@
}

/// No two `routes.txt` rows share a `route_id`, as GTFS requires.
pub open spec fn unique_route_ids(routes: Seq<Route>) -> bool {
    forall|i: int, j: int| 0 <= i < j < routes.len() ==> #[trigger] routes[i].route_id@ != #[trigger] routes[j].route_id@
}

/// **Lines come out in `routes.txt` order.** The routes that become lines are
/// distinct rows in ascending order, each resolving to two stations or more.
pub proof fn lemma_lines_in_route_order(feed: Feed, params: ImportParams, m: Map<Seq<char>, Seq<char>>, n: int)
    requires
        0 <= n,
    ensures
        ({
            let lr = line_routes(feed, params, m, n);
            &&& forall|q: int|
                0 <= q < lr.len() ==> 0 <= #[trigger] lr[q] < n && route_stations(feed, m, lr[q]) is Some
                    && route_stations(feed, m, lr[q]).unwrap().len() >= 2
            &&& forall|a: int, b: int| 0 <= a < b < lr.len() ==> #[trigger] lr[a] < #[trigger] lr[b]
        }),
    decreases n,
{
    if n > 0 {
        lemma_lines_in_route_order(feed, params, m, n - 1);
    }
}

/// **Stations come out in `stops.txt` order, each referenced one emitted.**
/// The emitting rows are distinct and ascending, and every row whose id some
/// line references is among them.
pub proof fn lemma_stations_in_row_order(feed: Feed, m: Map<Seq<char>, Seq<char>>, lines: Seq<int>, n: int)
    requires
        0 <= n <= feed.stops@.len(),
    ensures
        ({
            let rows = emitted_rows(feed, m, lines, n);
            &&& forall|i: int| 0 <= i < rows.len() ==> 0 <= #[trigger] rows[i] < n
            &&& forall|a: int, b: int| 0 <= a < b < rows.len() ==> #[trigger] rows[a] < #[trigger] rows[b]
            &&& forall|k: int|
                0 <= k < n && referenced(feed, m, lines, (#[trigger] feed.stops@[k]).stop_id@) ==> exists|i: int|
                    0 <= i < rows.len() && rows[i] == k
        }),
    decreases n,
{
    if n > 0 {
        lemma_stations_in_row_order(feed, m, lines, n - 1);
        let prev = emitted_rows(feed, m, lines, n - 1);
        let rows = emitted_rows(feed, m, lines, n);
        assert forall|k: int|
            0 <= k < n && referenced(feed, m, lines, (#[trigger] feed.stops@[k]).stop_id@) implies exists|i: int|
            0 <= i < rows.len() && rows[i] == k by {
            if k < n - 1 {
                let i = choose|i: int| 0 <= i < prev.len() && prev[i] == k;
                assert(rows[i] == prev[i]);
            } else {
                assert(rows[rows.len() - 1] == k);
            }
        }
    }
}

/// One line of an import resolves against the import's stations.
proof fn lemma_imported_line_resolves(feed: Feed, params: ImportParams, schema: InputSchema, l: int)
    requires
        imports_to(feed, params, schema),
        0 <= l < schema.lines@.len(),
    ensures
        schema.lines@[l].stations@.len() >= 2,
        forall|p: int|
            0 <= p < schema.lines@[l].stations@.len() ==> 0 <= find_station(
                schema.stations@,
                (#[trigger] schema.lines@[l].stations@[p])@,
            ) < schema.stations@.len(),
        forall|p: int|
            0 <= p < schema.lines@[l].stations@.len() - 1 ==> (#[trigger] schema.lines@[l].stations@[p])@
                != schema.lines@[l].stations@[p + 1]@,
{
    let nstops = feed.stops@.len() as int;
    let nroutes = feed.routes@.len() as int;
    let m = collapsed(feed.stops@, nstops);
    let lr = line_routes(feed, params, m, nroutes);
    let rows = emitted_rows(feed, m, lr, nstops);
    let st = schema.stations@;
    let line = schema.lines@[l];
    lemma_lines_in_route_order(feed, params, m, nroutes);
    lemma_stations_in_row_order(feed, m, lr, nstops);
    assert(is_route_line(feed, m, lr, l, line));
    let drawn = route_stations(feed, m, lr[l]).unwrap();
    let ids = platform_ids(feed, m, lr[l]);
    let through_ids = through(ids, m);
    assert(drawn == dedup(through_ids));
    assert(views(line.stations@) == drawn);
    assert(views(line.stations@).len() == line.stations@.len());
    lemma_first_unknown(ids, m, ids.len() as int);
    lemma_dedup_keeps_entries(through_ids);
    lemma_dedup_no_repeats(through_ids);
    assert forall|p: int| 0 <= p < line.stations@.len() implies 0 <= find_station(
        st,
        (#[trigger] line.stations@[p])@,
    ) < st.len() by {
        let x = line.stations@[p]@;
        assert(views(line.stations@)[p] == x);
        assert(through_ids.contains(x));
        let j = choose|j: int| 0 <= j < through_ids.len() && through_ids[j] == x;
        assert(m.contains_key(ids[j]));
        let k = lemma_collapse_lands_on_a_row(feed.stops@, ids[j]);
        assert(feed.stops@[k].stop_id@ == x);
        assert(drawn.contains(x)) by {
            assert(drawn[p] == x);
        }
        assert(referenced(feed, m, lr, x));
        let i = choose|i: int| 0 <= i < rows.len() && rows[i] == k;
        assert(is_stop_station(feed.stops@[rows[i]], st[i]));
        lemma_find_station(st, x);
    }
    assert forall|p: int| 0 <= p < line.stations@.len() - 1 implies (#[trigger] line.stations@[p])@
        != line.stations@[p + 1]@ by {
        assert(views(line.stations@)[p] == line.stations@[p]@);
        assert(views(line.stations@)[p + 1] == line.stations@[p + 1]@);
    }
}

/// `name` is what a line drawn from `route` is called: the route's short name
/// whenever that is present, whatever its long name says; its long name only
/// when there is no short one; its id only when neither name is there.
pub open spec fn named_after(route: Route, name: Seq<char>) -> bool {
    &&& route.route_short_name is Some && route.route_short_name.unwrap()@.len() > 0 ==> name
        == route.route_short_name.unwrap()@
    &&& !(route.route_short_name is Some && route.route_short_name.unwrap()@.len() > 0) && (route.route_long_name is Some
        && route.route_long_name.unwrap()@.len() > 0) ==> name == route.route_long_name.unwrap()@
    &&& !(route.route_short_name is Some && route.route_short_name.unwrap()@.len() > 0) && !(route.route_long_name is Some
        && route.route_long_name.unwrap()@.len() > 0) ==> name == route.route_id@
}

/// Every imported station is a `stops.txt` row with the same id, its
/// latitude that row's `stop_lat` and its longitude that row's `stop_lon`,
/// carried over bit for bit.
pub proof fn lemma_station_keeps_row_coordinates(feed: Feed, params: ImportParams, schema: InputSchema)
    requires
        imports_to(feed, params, schema),
    ensures
        forall|i: int|
            0 <= i < schema.stations@.len() ==> exists|k: int|
                0 <= k < feed.stops@.len() && (#[trigger] feed.stops@[k]).stop_id@ == (#[trigger] schema.stations@[i]).id@
                    && feed.stops@[k].stop_lat_bits == Some(schema.stations@[i].lat_bits)
                    && feed.stops@[k].stop_lon_bits == Some(schema.stations@[i].lon_bits),
{
    let nstops = feed.stops@.len() as int;
    let m = collapsed(feed.stops@, nstops);
    let lr = line_routes(feed, params, m, feed.routes@.len() as int);
    let rows = emitted_rows(feed, m, lr, nstops);
    lemma_stations_in_row_order(feed, m, lr, nstops);
    assert forall|i: int| 0 <= i < schema.stations@.len() implies exists|k: int|
        0 <= k < feed.stops@.len() && (#[trigger] feed.stops@[k]).stop_id@ == (#[trigger] schema.stations@[i]).id@
            && feed.stops@[k].stop_lat_bits == Some(schema.stations@[i].lat_bits)
            && feed.stops@[k].stop_lon_bits == Some(schema.stations@[i].lon_bits) by {
        let k = rows[i];
        assert(is_stop_station(feed.stops@[k], schema.stations@[i]));
        assert(0 <= k < nstops);
    }
}

/// Every imported line is a `routes.txt` row with the same id, named after
/// it: by its short name whenever that is present, else by its long name,
/// else by its id.
pub proof fn lemma_line_named_after_route(feed: Feed, params: ImportParams, schema: InputSchema)
    requires
        imports_to(feed, params, schema),
    ensures
        forall|q: int|
            0 <= q < schema.lines@.len() ==> exists|k: int|
                0 <= k < feed.routes@.len() && (#[trigger] feed.routes@[k]).route_id@ == (#[trigger] schema.lines@[q]).id@
                    && named_after(feed.routes@[k], schema.lines@[q].name@),
{
    let nroutes = feed.routes@.len() as int;
    let m = collapsed(feed.stops@, feed.stops@.len() as int);
    let lr = line_routes(feed, params, m, nroutes);
    lemma_lines_in_route_order(feed, params, m, nroutes);
    assert forall|q: int| 0 <= q < schema.lines@.len() implies exists|k: int|
        0 <= k < feed.routes@.len() && (#[trigger] feed.routes@[k]).route_id@ == (#[trigger] schema.lines@[q]).id@
            && named_after(feed.routes@[k], schema.lines@[q].name@) by {
        let k = lr[q];
        assert(is_route_line(feed, m, lr, q, schema.lines@[q]));
        assert(0 <= k < nroutes);
        lemma_short_name_first(feed.routes@[k]);
    }
}

/// **An import is a network.** What the import makes of a feed whose stop ids
/// and route ids are unique, as GTFS requires of them, raises none of the
/// errors `Network::from_input` checks for: no duplicate station or line, no
/// line under two stations, no consecutive repeat and no station a line names
/// but the file does not define. The network file written between the two
/// commands is accepted unchanged.
pub proof fn lemma_import_is_a_network(feed: Feed, params: ImportParams, schema: InputSchema)
    requires
        unique_stop_ids(feed.stops@),
        unique_route_ids(feed.routes@),
        imports_to(feed, params, schema),
    ensures
        input_error(schema.stations@, schema.lines@) is None,
{
    let nstops = feed.stops@.len() as int;
    let nroutes = feed.routes@.len() as int;
    let m = collapsed(feed.stops@, nstops);
    let lr = line_routes(feed, params, m, nroutes);
    let rows = emitted_rows(feed, m, lr, nstops);
    let st = schema.stations@;
    let ls = schema.lines@;
    lemma_lines_in_route_order(feed, params, m, nroutes);
    lemma_stations_in_row_order(feed, m, lr, nstops);
    assert forall|i: int, j: int| 0 <= i < j < st.len() implies #[trigger] st[i].id@ != #[trigger] st[j].id@ by {
        assert(is_stop_station(feed.stops@[rows[i]], st[i]));
        assert(is_stop_station(feed.stops@[rows[j]], st[j]));
        assert(rows[i] < rows[j]);
        assert(feed.stops@[rows[i]].stop_id@ != feed.stops@[rows[j]].stop_id@);
    }
    lemma_distinct_stations(st);
    assert forall|a: int, b: int| 0 <= a < b < ls.len() implies #[trigger] ls[a].id@ != #[trigger] ls[b].id@ by {
        assert(is_route_line(feed, m, lr, a, ls[a]));
        assert(is_route_line(feed, m, lr, b, ls[b]));
        assert(lr[a] < lr[b]);
        assert(feed.routes@[lr[a]].route_id@ != feed.routes@[lr[b]].route_id@);
    }
    lemma_distinct_lines(ls);
    assert forall|l: int| 0 <= l < ls.len() implies #[trigger] ls[l].stations@.len() >= 2 by {
        lemma_imported_line_resolves(feed, params, schema, l);
    }
    assert forall|l: int, p: int|
        #![trigger ls[l].stations@[p]]
        0 <= l < ls.len() && 0 <= p < ls[l].stations@.len() implies 0 <= find_station(st, ls[l].stations@[p]@)
        < st.len() by {
        lemma_imported_line_resolves(feed, params, schema, l);
    }
    assert forall|l: int, p: int|
        #![trigger ls[l].stations@[p]]
        0 <= l < ls.len() && 0 <= p < ls[l].stations@.len() - 1 implies ls[l].stations@[p]@
        != ls[l].stations@[p + 1]@ by {
        lemma_imported_line_resolves(feed, params, schema, l);
    }
    assert(lines_resolve(st, ls));
    lemma_resolving_lines_are_clean(st, ls);
}

} // verus!
