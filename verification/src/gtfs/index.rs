//! A table's rows grouped by one of its id columns.
//!
//! A feed's `stop_times.txt` runs to millions of rows, and its `trips.txt` to
//! hundreds of thousands. Each is grouped once, by trip and by route, so that
//! finding a trip's rows or a route's trips is a lookup and not a scan.

use vstd::hash_map::StringHashMap;
use vstd::prelude::*;

use crate::gtfs::feed::{StopTime, Trip};

verus! {

/// The rows of `keys[..n]` holding `key`, ascending.
pub open spec fn key_rows(keys: Seq<Seq<char>>, key: Seq<char>, n: int) -> Seq<usize>
    decreases n,
{
    if n <= 0 {
        Seq::empty()
    } else if keys[n - 1] == key {
        key_rows(keys, key, n - 1).push((n - 1) as usize)
    } else {
        key_rows(keys, key, n - 1)
    }
}

/// The rows holding a key are exactly the rows holding it, in file order.
pub proof fn lemma_key_rows(keys: Seq<Seq<char>>, key: Seq<char>, n: int)
    requires
        0 <= n <= keys.len(),
        keys.len() <= usize::MAX,
    ensures
        forall|i: int|
            0 <= i < key_rows(keys, key, n).len() ==> #[trigger] key_rows(keys, key, n)[i] < n && keys[key_rows(
                keys,
                key,
                n,
            )[i] as int] == key,
        forall|i: int, j: int|
            0 <= i < j < key_rows(keys, key, n).len() ==> #[trigger] key_rows(keys, key, n)[i]
                < #[trigger] key_rows(keys, key, n)[j],
        forall|q: int| 0 <= q < n && #[trigger] keys[q] == key ==> key_rows(keys, key, n).contains(q as usize),
    decreases n,
{
    if n > 0 {
        lemma_key_rows(keys, key, n - 1);
        let p = key_rows(keys, key, n - 1);
        let r = key_rows(keys, key, n);
        if keys[n - 1] == key {
            assert forall|q: int| 0 <= q < n && #[trigger] keys[q] == key implies r.contains(q as usize) by {
                if q == n - 1 {
                    assert(r[p.len() as int] == q as usize);
                } else {
                    let i = choose|i: int| 0 <= i < p.len() && p[i] == q as usize;
                    assert(r[i] == q as usize);
                }
            }
        }
    }
}

/// The views of a list of ids.
pub open spec fn str_views(v: Seq<&str>) -> Seq<Seq<char>> {
    v.map_values(|k: &str| k@)
}

/// The trip id of every `stop_times.txt` row.
pub open spec fn trip_keys(st: Seq<StopTime>) -> Seq<Seq<char>> {
    st.map_values(|row: StopTime| row.trip_id@)
}

/// The route id of every `trips.txt` row.
pub open spec fn route_keys(trips: Seq<Trip>) -> Seq<Seq<char>> {
    trips.map_values(|trip: Trip| trip.route_id@)
}

/// A table's rows grouped by an id column, each group in file order.
pub struct RowIndex {
    by_key: StringHashMap<Vec<usize>>,
}

impl RowIndex {
    /// The rows holding `key`; none when no row does.
    pub closed spec fn group(&self, key: Seq<char>) -> Seq<usize> {
        if self.by_key@.contains_key(key) {
            self.by_key@[key]@
        } else {
            Seq::empty()
        }
    }

    /// `self` groups the rows of a table whose id column reads `keys`.
    pub open spec fn indexes(&self, keys: Seq<Seq<char>>) -> bool {
        forall|key: Seq<char>| #[trigger] self.group(key) == key_rows(keys, key, keys.len() as int)
    }

    fn from_keys(keys: &Vec<&str>) -> (r: RowIndex)
        ensures
            r.indexes(str_views(keys@)),
    {
        broadcast use vstd::string::group_string_axioms;

        let ghost ks = str_views(keys@);
        let mut by_key: StringHashMap<Vec<usize>> = StringHashMap::new();
        let mut k: usize = 0;
        while k < keys.len()
            invariant
                ks == str_views(keys@),
                k <= keys@.len(),
                forall|key: Seq<char>|
                    #[trigger] key_rows(ks, key, k as int) == (if by_key@.contains_key(key) {
                        by_key@[key]@
                    } else {
                        Seq::empty()
                    }),
            decreases keys@.len() - k,
        {
            let key = keys[k];
            let ghost before = by_key@;
            let grown = match by_key.get(key) {
                Some(rows) => {
                    let mut g = rows.clone();
                    assert(g@ =~= rows@);
                    g.push(k);
                    g
                },
                None => {
                    let mut g: Vec<usize> = Vec::new();
                    g.push(k);
                    g
                },
            };
            by_key.insert(key.to_string(), grown);
            proof {
                assert(ks[k as int] == key@);
                assert forall|t: Seq<char>|
                    #[trigger] key_rows(ks, t, k + 1) == (if by_key@.contains_key(t) {
                        by_key@[t]@
                    } else {
                        Seq::empty()
                    }) by {
                    assert(key_rows(ks, t, k as int) == (if before.contains_key(t) {
                        before[t]@
                    } else {
                        Seq::empty()
                    }));
                    if t == key@ {
                        assert(key_rows(ks, t, k + 1) == key_rows(ks, t, k as int).push(k));
                        assert(by_key@[t]@ =~= key_rows(ks, t, k + 1));
                    }
                }
            }
            k += 1;
        }
        let r = RowIndex { by_key };
        assert forall|key: Seq<char>| #[trigger] r.group(key) == key_rows(ks, key, ks.len() as int) by {
            assert(key_rows(ks, key, k as int) == r.group(key));
        }
        r
    }

    /// `stop_times.txt` grouped by trip.
    pub fn of_stop_times(stop_times: &[StopTime]) -> (r: RowIndex)
        ensures
            r.indexes(trip_keys(stop_times@)),
    {
        let mut keys: Vec<&str> = Vec::new();
        let mut i: usize = 0;
        while i < stop_times.len()
            invariant
                i <= stop_times@.len(),
                keys@.len() == i,
                str_views(keys@) == trip_keys(stop_times@).take(i as int),
            decreases stop_times@.len() - i,
        {
            let ghost before = keys@;
            let id = stop_times[i].trip_id.as_str();
            keys.push(id);
            assert(id@ == stop_times@[i as int].trip_id@);
            assert(keys@ == before.push(id));
            assert forall|j: int| 0 <= j < i + 1 implies #[trigger] str_views(keys@)[j] == trip_keys(stop_times@).take(i + 1)[j] by {
                if j < i {
                    assert(keys@[j] == before[j]);
                    assert(str_views(before)[j] == trip_keys(stop_times@).take(i as int)[j]);
                }
            }
            assert(str_views(keys@) =~= trip_keys(stop_times@).take(i + 1));
            i += 1;
        }
        assert(trip_keys(stop_times@).take(i as int) =~= trip_keys(stop_times@));
        RowIndex::from_keys(&keys)
    }

    /// `trips.txt` grouped by route.
    pub fn of_trips(trips: &[Trip]) -> (r: RowIndex)
        ensures
            r.indexes(route_keys(trips@)),
    {
        let mut keys: Vec<&str> = Vec::new();
        let mut i: usize = 0;
        while i < trips.len()
            invariant
                i <= trips@.len(),
                keys@.len() == i,
                str_views(keys@) == route_keys(trips@).take(i as int),
            decreases trips@.len() - i,
        {
            let ghost before = keys@;
            let id = trips[i].route_id.as_str();
            keys.push(id);
            assert(id@ == trips@[i as int].route_id@);
            assert(keys@ == before.push(id));
            assert forall|j: int| 0 <= j < i + 1 implies #[trigger] str_views(keys@)[j] == route_keys(trips@).take(i + 1)[j] by {
                if j < i {
                    assert(keys@[j] == before[j]);
                    assert(str_views(before)[j] == route_keys(trips@).take(i as int)[j]);
                }
            }
            assert(str_views(keys@) =~= route_keys(trips@).take(i + 1));
            i += 1;
        }
        assert(route_keys(trips@).take(i as int) =~= route_keys(trips@));
        RowIndex::from_keys(&keys)
    }

    /// The rows holding `key`, in file order.
    pub fn rows(&self, key: &str) -> (r: Vec<usize>)
        ensures
            r@ == self.group(key@),
    {
        match self.by_key.get(key) {
            Some(rows) => {
                let r = rows.clone();
                assert(r@ =~= rows@);
                r
            },
            None => Vec::new(),
        }
    }
}

} // verus!
