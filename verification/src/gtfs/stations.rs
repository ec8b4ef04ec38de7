//! Platforms collapse into stations.
//!
//! A GTFS `stop_id` is usually a **platform**, not a station, and a station is
//! the thing a rider changes at: the `location_type = 1` row. Every read stop
//! maps onto the station it belongs to, and a line's platform list is resolved
//! through that map and folded where it visits one station twice in a row.

use vstd::hash_map::StringHashMap;
use vstd::prelude::*;

use crate::gtfs::feed::{present, read_row, Stop};
use crate::gtfs::{dedup, views, ImportError};

verus! {

// ---------------------------------------------------------------------------
// The collapse map.
// ---------------------------------------------------------------------------

/// The station each read stop collapses into, keyed by stop id.
pub struct CollapseMap {
    by_id: StringHashMap<String>,
}

impl CollapseMap {
    /// The map from stop id to station id.
    pub closed spec fn view(&self) -> Map<Seq<char>, Seq<char>> {
        Map::new(|k: Seq<char>| self.by_id@.contains_key(k), |k: Seq<char>| self.by_id@[k]@)
    }

    /// The empty map.
    pub fn new() -> (m: CollapseMap)
        ensures
            m.view() == Map::<Seq<char>, Seq<char>>::empty(),
    {
        let m = CollapseMap { by_id: StringHashMap::new() };
        assert(m.view() =~= Map::<Seq<char>, Seq<char>>::empty());
        m
    }

    /// The station a stop id collapses into, or `None` when the id is not a
    /// read stop.
    pub fn get(&self, id: &str) -> (r: Option<&str>)
        ensures
            r is Some <==> self.view().contains_key(id@),
            r matches Some(s) ==> s@ == self.view()[id@],
    {
        match self.by_id.get(id) {
            Some(station) => Some(station.as_str()),
            None => None,
        }
    }

    /// Map `id` to `station`, replacing what it mapped to before.
    pub fn insert(&mut self, id: String, station: String)
        ensures
            final(self).view() == old(self).view().insert(id@, station@),
    {
        let ghost before = self.view();
        let ghost key = id@;
        let ghost value = station@;
        self.by_id.insert(id, station);
        assert(self.view() =~= before.insert(key, value));
    }
}

// ---------------------------------------------------------------------------
// What a stop collapses into.
// ---------------------------------------------------------------------------

/// The last read row of `stops[..n]` whose id is `id`, or `-1`. A feed that
/// repeats an id is read as its last row saying so.
pub open spec fn last_read_row(stops: Seq<Stop>, id: Seq<char>, n: int) -> int
    decreases n,
{
    if n <= 0 {
        -1
    } else if read_row(stops[n - 1]) && stops[n - 1].stop_id@ == id {
        n - 1
    } else {
        last_read_row(stops, id, n - 1)
    }
}

/// The station row `k` collapses into: itself when it is a station or names
/// no parent, else its parent when that is a read `location_type = 1` row,
/// else nothing — a dangling parent.
pub open spec fn row_station(stops: Seq<Stop>, k: int) -> Option<Seq<char>> {
    let s = stops[k];
    if s.location_type == Some(1u8) || !present(s.parent_station) {
        Some(s.stop_id@)
    } else {
        let p = s.parent_station.unwrap()@;
        let r = last_read_row(stops, p, stops.len() as int);
        if r >= 0 && stops[r].location_type == Some(1u8) {
            Some(p)
        } else {
            None
        }
    }
}

/// The first read row of `stops[..n]` whose parent names no station, or `-1`.
pub open spec fn first_dangling(stops: Seq<Stop>, n: int) -> int
    decreases n,
{
    if n <= 0 {
        -1
    } else {
        let f = first_dangling(stops, n - 1);
        if f >= 0 {
            f
        } else if read_row(stops[n - 1]) && row_station(stops, n - 1) is None {
            n - 1
        } else {
            -1
        }
    }
}

/// The collapse of the read rows of `stops[..n]`, a later row of one id
/// replacing an earlier one.
pub open spec fn collapsed(stops: Seq<Stop>, n: int) -> Map<Seq<char>, Seq<char>>
    decreases n,
{
    if n <= 0 {
        Map::empty()
    } else if read_row(stops[n - 1]) && row_station(stops, n - 1) is Some {
        collapsed(stops, n - 1).insert(stops[n - 1].stop_id@, row_station(stops, n - 1).unwrap())
    } else {
        collapsed(stops, n - 1)
    }
}

proof fn lemma_last_read_row(stops: Seq<Stop>, id: Seq<char>, n: int)
    requires
        0 <= n <= stops.len(),
    ensures
        -1 <= last_read_row(stops, id, n) < n,
        last_read_row(stops, id, n) >= 0 ==> read_row(stops[last_read_row(stops, id, n)])
            && stops[last_read_row(stops, id, n)].stop_id@ == id,
        forall|j: int|
            last_read_row(stops, id, n) < j < n ==> !(read_row(#[trigger] stops[j]) && stops[j].stop_id@ == id),
    decreases n,
{
    if n > 0 {
        lemma_last_read_row(stops, id, n - 1);
    }
}

/// Without a dangling parent, a key of the collapse is exactly a read stop
/// id, and it maps to what its last read row collapses into.
proof fn lemma_collapsed_key(stops: Seq<Stop>, n: int, id: Seq<char>)
    requires
        0 <= n <= stops.len(),
        first_dangling(stops, n) < 0,
    ensures
        collapsed(stops, n).contains_key(id) <==> last_read_row(stops, id, n) >= 0,
        collapsed(stops, n).contains_key(id) ==> row_station(stops, last_read_row(stops, id, n)) == Some(
            collapsed(stops, n)[id],
        ),
    decreases n,
{
    if n > 0 {
        lemma_collapsed_key(stops, n - 1, id);
    }
}

/// **One hop, never a chain.** Whatever a stop collapses into is itself a
/// key of the collapse, and collapses into itself.
pub proof fn lemma_collapse_is_one_hop(stops: Seq<Stop>, id: Seq<char>)
    requires
        first_dangling(stops, stops.len() as int) < 0,
        collapsed(stops, stops.len() as int).contains_key(id),
    ensures
        ({
            let m = collapsed(stops, stops.len() as int);
            m.contains_key(m[id]) && m[m[id]] == m[id]
        }),
{
    let n = stops.len() as int;
    let m = collapsed(stops, n);
    lemma_collapsed_key(stops, n, id);
    lemma_last_read_row(stops, id, n);
    let k = last_read_row(stops, id, n);
    let v = m[id];
    let s = stops[k];
    if s.location_type == Some(1u8) || !present(s.parent_station) {
        assert(v == id);
    } else {
        let r = last_read_row(stops, v, n);
        lemma_last_read_row(stops, v, n);
        assert(r >= 0 && stops[r].location_type == Some(1u8));
        assert(row_station(stops, r) == Some(v));
        lemma_collapsed_key(stops, n, v);
    }
}

/// Whatever a stop collapses into is the id of a read row of `stops.txt`.
pub proof fn lemma_collapse_lands_on_a_row(stops: Seq<Stop>, id: Seq<char>) -> (k: int)
    requires
        first_dangling(stops, stops.len() as int) < 0,
        collapsed(stops, stops.len() as int).contains_key(id),
    ensures
        0 <= k < stops.len(),
        read_row(stops[k]),
        stops[k].stop_id@ == collapsed(stops, stops.len() as int)[id],
{
    let n = stops.len() as int;
    let m = collapsed(stops, n);
    lemma_collapse_is_one_hop(stops, id);
    lemma_collapsed_key(stops, n, m[id]);
    lemma_last_read_row(stops, m[id], n);
    last_read_row(stops, m[id], n)
}

proof fn lemma_first_dangling(stops: Seq<Stop>, n: int)
    requires
        0 <= n <= stops.len(),
    ensures
        -1 <= first_dangling(stops, n) < n,
        first_dangling(stops, n) >= 0 ==> read_row(stops[first_dangling(stops, n)]) && row_station(
            stops,
            first_dangling(stops, n),
        ) is None,
    decreases n,
{
    if n > 0 {
        lemma_first_dangling(stops, n - 1);
    }
}

/// The last read row of every stop id, found in one pass over `stops.txt`.
fn last_read_rows(stops: &[Stop]) -> (r: StringHashMap<usize>)
    ensures
        forall|id: Seq<char>|
            #[trigger] last_read_row(stops@, id, stops@.len() as int) == (if r@.contains_key(id) {
                r@[id] as int
            } else {
                -1
            }),
{
    broadcast use vstd::string::group_string_axioms;

    let mut r: StringHashMap<usize> = StringHashMap::new();
    let mut k: usize = 0;
    while k < stops.len()
        invariant
            k <= stops@.len(),
            forall|id: Seq<char>|
                #[trigger] last_read_row(stops@, id, k as int) == (if r@.contains_key(id) {
                    r@[id] as int
                } else {
                    -1
                }),
        decreases stops@.len() - k,
    {
        let ghost before = r@;
        if stops[k].is_stop_or_station() {
            r.insert(stops[k].stop_id.clone(), k);
        }
        proof {
            assert forall|id: Seq<char>|
                #[trigger] last_read_row(stops@, id, k + 1) == (if r@.contains_key(id) {
                    r@[id] as int
                } else {
                    -1
                }) by {
                assert(last_read_row(stops@, id, k as int) == (if before.contains_key(id) {
                    before[id] as int
                } else {
                    -1
                }));
            }
        }
        k += 1;
    }
    r
}

/// The last read row with this id.
fn last_read_row_of(stops: &[Stop], last_rows: &StringHashMap<usize>, id: &String) -> (r: Option<usize>)
    requires
        forall|id: Seq<char>|
            #[trigger] last_read_row(stops@, id, stops@.len() as int) == (if last_rows@.contains_key(id) {
                last_rows@[id] as int
            } else {
                -1
            }),
    ensures
        r is None ==> last_read_row(stops@, id@, stops@.len() as int) < 0,
        r matches Some(k) ==> k as int == last_read_row(stops@, id@, stops@.len() as int),
{
    assert(last_read_row(stops@, id@, stops@.len() as int) == (if last_rows@.contains_key(id@) {
        last_rows@[id@] as int
    } else {
        -1
    }));
    match last_rows.get(id.as_str()) {
        Some(row) => Some(*row),
        None => None,
    }
}

/// The station of every read stop: its `location_type = 1` parent, or itself
/// where it has none. A station row always maps to itself, and rows the import
/// does not read — entrances, generic nodes, boarding areas — are absent.
///
/// A `parent_station` naming something that is not a read station is a
/// malformed feed and an error at the first row that does so: falling back to
/// the platform's own id would silently reproduce the duplicated interchange
/// the collapse exists to prevent.
pub fn collapse_map(stops: &[Stop]) -> (r: Result<CollapseMap, ImportError>)
    ensures
        r is Ok <==> first_dangling(stops@, stops@.len() as int) < 0,
        r matches Ok(m) ==> m.view() == collapsed(stops@, stops@.len() as int),
        r matches Err(e) ==> ({
            let f = first_dangling(stops@, stops@.len() as int);
            &&& e matches ImportError::UnknownParentStation { stop_id, parent }
            &&& stop_id@ == stops@[f].stop_id@
            &&& stops@[f].parent_station is Some
            &&& parent@ == stops@[f].parent_station.unwrap()@
        }),
{
    proof {
        lemma_first_dangling(stops@, stops@.len() as int);
    }
    let last_rows = last_read_rows(stops);
    let mut station_of = CollapseMap::new();
    let mut k: usize = 0;
    while k < stops.len()
        invariant
            forall|id: Seq<char>|
                #[trigger] last_read_row(stops@, id, stops@.len() as int) == (if last_rows@.contains_key(id) {
                    last_rows@[id] as int
                } else {
                    -1
                }),
            k <= stops@.len(),
            station_of.view() == collapsed(stops@, k as int),
            first_dangling(stops@, k as int) < 0,
        decreases stops@.len() - k,
    {
        let stop = &stops[k];
        if stop.is_stop_or_station() {
            let id = stop.stop_id.clone();
            if stop.location_type == Some(1u8) {
                station_of.insert(id.clone(), id);
            } else {
                match &stop.parent_station {
                    Some(parent) if !parent.as_str().is_empty() => {
                        proof {
                            lemma_last_read_row(stops@, parent@, stops@.len() as int);
                        }
                        match last_read_row_of(stops, &last_rows, parent) {
                            Some(row) if stops[row].location_type == Some(1u8) => {
                                station_of.insert(id, parent.clone());
                            },
                            _ => {
                                proof {
                                    lemma_first_dangling(stops@, stops@.len() as int);
                                    lemma_dangling_stays(stops@, k as int + 1, stops@.len() as int);
                                }
                                return Err(
                                    ImportError::UnknownParentStation {
                                        stop_id: stop.stop_id.clone(),
                                        parent: parent.clone(),
                                    },
                                );
                            },
                        }
                    },
                    _ => {
                        station_of.insert(id.clone(), id);
                    },
                }
            }
        }
        k += 1;
    }
    Ok(station_of)
}

proof fn lemma_dangling_stays(stops: Seq<Stop>, n: int, m: int)
    requires
        0 <= n <= m <= stops.len(),
        first_dangling(stops, n) >= 0,
    ensures
        first_dangling(stops, m) == first_dangling(stops, n),
    decreases m - n,
{
    if m > n {
        lemma_dangling_stays(stops, n, m - 1);
    }
}

// ---------------------------------------------------------------------------
// Resolving a line.
// ---------------------------------------------------------------------------

/// The first of `ids[..n]` the map does not hold, or `-1`.
pub open spec fn first_unknown(ids: Seq<Seq<char>>, m: Map<Seq<char>, Seq<char>>, n: int) -> int
    decreases n,
{
    if n <= 0 {
        -1
    } else {
        let f = first_unknown(ids, m, n - 1);
        if f >= 0 {
            f
        } else if !m.contains_key(ids[n - 1]) {
            n - 1
        } else {
            -1
        }
    }
}

pub proof fn lemma_first_unknown(ids: Seq<Seq<char>>, m: Map<Seq<char>, Seq<char>>, n: int)
    requires
        0 <= n <= ids.len(),
    ensures
        -1 <= first_unknown(ids, m, n) < n,
        first_unknown(ids, m, n) >= 0 ==> !m.contains_key(ids[first_unknown(ids, m, n)]),
        first_unknown(ids, m, n) < 0 ==> forall|i: int| 0 <= i < n ==> m.contains_key(#[trigger] ids[i]),
    decreases n,
{
    if n > 0 {
        lemma_first_unknown(ids, m, n - 1);
    }
}

proof fn lemma_unknown_stays(ids: Seq<Seq<char>>, m: Map<Seq<char>, Seq<char>>, n: int, p: int)
    requires
        0 <= n <= p <= ids.len(),
        first_unknown(ids, m, n) >= 0,
    ensures
        first_unknown(ids, m, p) == first_unknown(ids, m, n),
    decreases p - n,
{
    if p > n {
        lemma_unknown_stays(ids, m, n, p - 1);
    }
}

/// Every id mapped through `m`.
pub open spec fn through(ids: Seq<Seq<char>>, m: Map<Seq<char>, Seq<char>>) -> Seq<Seq<char>> {
    ids.map_values(|id: Seq<char>| m[id])
}

/// One line's station list: every platform id resolved to its station, then
/// consecutive duplicates folded to one. A line that returns to a station
/// later in its run keeps both visits.
///
/// An id the map does not hold — `stops.txt` omits it, or it is a row the
/// import does not read — fails the route, at the first such id.
pub fn resolve(platform_ids: &[String], station_of: &CollapseMap, route: &str) -> (r: Result<
    Vec<String>,
    ImportError,
>)
    ensures
        r is Err <==> first_unknown(views(platform_ids@), station_of.view(), platform_ids@.len() as int) >= 0,
        r matches Err(e) ==> ({
            let f = first_unknown(views(platform_ids@), station_of.view(), platform_ids@.len() as int);
            &&& e matches ImportError::UnknownStop { route: ro, stop_id }
            &&& ro@ == route@
            &&& stop_id@ == platform_ids@[f]@
        }),
        r matches Ok(v) ==> views(v@) == dedup(through(views(platform_ids@), station_of.view())),
{
    broadcast use vstd::string::group_string_axioms;

    let ghost ids = views(platform_ids@);
    let ghost m = station_of.view();
    let mut stations: Vec<String> = Vec::new();
    let mut i: usize = 0;
    while i < platform_ids.len()
        invariant
            m == station_of.view(),
            ids == views(platform_ids@),
            i <= platform_ids@.len(),
            first_unknown(ids, m, i as int) < 0,
            views(stations@) == through(ids.take(i as int), m),
        decreases platform_ids@.len() - i,
    {
        let id = &platform_ids[i];
        match station_of.get(id.as_str()) {
            Some(station) => {
                let ghost before = views(stations@);
                let owned = station.to_string();
                stations.push(owned);
                proof {
                    assert(ids[i as int] == platform_ids@[i as int]@);
                    assert(ids.take(i + 1) =~= ids.take(i as int).push(ids[i as int]));
                    assert(through(ids.take(i + 1), m) =~= through(ids.take(i as int), m).push(m[ids[i as int]]));
                    assert(views(stations@) =~= before.push(owned@));
                }
            },
            None => {
                proof {
                    assert(first_unknown(ids, m, i + 1) == i);
                    lemma_unknown_stays(ids, m, i + 1, ids.len() as int);
                }
                return Err(ImportError::UnknownStop { route: route.to_string(), stop_id: id.clone() });
            },
        }
        i += 1;
    }
    proof {
        assert(ids.take(ids.len() as int) =~= ids);
    }
    Ok(crate::gtfs::dedup_strings(stations))
}

} // verus!
