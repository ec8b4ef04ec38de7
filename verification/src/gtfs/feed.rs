//! The four tables a feed is read for, each row as plain values.

use vstd::prelude::*;

verus! {

/// One `stops.txt` row. Coordinates are the IEEE-754 bit patterns of the
/// degrees the feed states; an empty cell is `None`.
#[derive(Debug, Clone)]
pub struct Stop {
    pub stop_id: String,
    pub stop_name: Option<String>,
    pub stop_lat_bits: Option<u64>,
    pub stop_lon_bits: Option<u64>,
    pub location_type: Option<u8>,
    pub parent_station: Option<String>,
}

/// Whether a row is a stop, platform or station: location type empty, `0` or
/// `1`. Entrances, generic nodes and boarding areas are not read.
pub open spec fn read_row(s: Stop) -> bool {
    s.location_type is None || s.location_type == Some(0u8) || s.location_type == Some(1u8)
}

/// The display name of a stop: its name when non-empty, else its id.
pub open spec fn stop_display_name(s: Stop) -> Seq<char> {
    match s.stop_name {
        Some(name) => if name@.len() > 0 {
            name@
        } else {
            s.stop_id@
        },
        None => s.stop_id@,
    }
}

impl Stop {
    /// Whether the import reads this row at all.
    pub fn is_stop_or_station(&self) -> (r: bool)
        ensures
            r == read_row(*self),
    {
        match self.location_type {
            None => true,
            Some(t) => t == 0 || t == 1,
        }
    }

    /// The display name, falling back to the id so the written file stays
    /// readable by a person editing it.
    pub fn name(&self) -> (r: &str)
        ensures
            r@ == stop_display_name(*self),
            self.stop_name is Some && self.stop_name.unwrap()@.len() > 0 ==> r@ == self.stop_name.unwrap()@,
            !(self.stop_name is Some && self.stop_name.unwrap()@.len() > 0) ==> r@ == self.stop_id@,
    {
        match &self.stop_name {
            Some(name) => {
                if !name.as_str().is_empty() {
                    name.as_str()
                } else {
                    self.stop_id.as_str()
                }
            },
            None => self.stop_id.as_str(),
        }
    }
}

/// One `routes.txt` row.
#[derive(Debug, Clone)]
pub struct Route {
    pub route_id: String,
    pub route_short_name: Option<String>,
    pub route_long_name: Option<String>,
    pub route_type: u16,
    pub route_color: Option<String>,
}

/// Whether an optional cell holds a non-empty name.
pub open spec fn present(cell: Option<String>) -> bool {
    cell matches Some(name) && name@.len() > 0
}

/// `route_short_name`, then `route_long_name`, then `route_id`.
pub open spec fn route_display_name(r: Route) -> Seq<char> {
    if present(r.route_short_name) {
        r.route_short_name.unwrap()@
    } else if present(r.route_long_name) {
        r.route_long_name.unwrap()@
    } else {
        r.route_id@
    }
}

/// A route's name is its short name whenever that is present, whatever its
/// long name says; the long name only when there is no short one; and the id
/// only when neither name is there.
pub proof fn lemma_short_name_first(r: Route)
    ensures
        r.route_short_name is Some && r.route_short_name.unwrap()@.len() > 0 ==> route_display_name(r)
            == r.route_short_name.unwrap()@,
        !(r.route_short_name is Some && r.route_short_name.unwrap()@.len() > 0) && (r.route_long_name is Some
            && r.route_long_name.unwrap()@.len() > 0) ==> route_display_name(r) == r.route_long_name.unwrap()@,
        !(r.route_short_name is Some && r.route_short_name.unwrap()@.len() > 0) && !(r.route_long_name is Some
            && r.route_long_name.unwrap()@.len() > 0) ==> route_display_name(r) == r.route_id@,
{
}

/// A stop's name is its `stop_name` whenever that is non-empty, else its id.
pub proof fn lemma_stop_name_first(s: Stop)
    ensures
        s.stop_name is Some && s.stop_name.unwrap()@.len() > 0 ==> stop_display_name(s) == s.stop_name.unwrap()@,
        !(s.stop_name is Some && s.stop_name.unwrap()@.len() > 0) ==> stop_display_name(s) == s.stop_id@,
{
}

impl Route {
    /// `route_short_name`, then `route_long_name`, then `route_id`.
    pub fn name(&self) -> (r: &str)
        ensures
            r@ == route_display_name(*self),
            self.route_short_name is Some && self.route_short_name.unwrap()@.len() > 0 ==> r@
                == self.route_short_name.unwrap()@,
            !(self.route_short_name is Some && self.route_short_name.unwrap()@.len() > 0) && (self.route_long_name is Some
                && self.route_long_name.unwrap()@.len() > 0) ==> r@ == self.route_long_name.unwrap()@,
            !(self.route_short_name is Some && self.route_short_name.unwrap()@.len() > 0) && !(self.route_long_name is Some
                && self.route_long_name.unwrap()@.len() > 0) ==> r@ == self.route_id@,
    {
        if let Some(name) = &self.route_short_name {
            if !name.as_str().is_empty() {
                return name.as_str();
            }
        }
        if let Some(name) = &self.route_long_name {
            if !name.as_str().is_empty() {
                return name.as_str();
            }
        }
        self.route_id.as_str()
    }
}

/// One `trips.txt` row.
#[derive(Debug, Clone)]
pub struct Trip {
    pub route_id: String,
    pub trip_id: String,
}

/// One `stop_times.txt` row. Times are read past: this is a topology import.
#[derive(Debug, Clone)]
pub struct StopTime {
    pub trip_id: String,
    pub stop_id: Option<String>,
    pub stop_sequence: u32,
}

/// The four tables, each in file row order.
#[derive(Debug, Clone)]
pub struct Feed {
    pub stops: Vec<Stop>,
    pub routes: Vec<Route>,
    pub trips: Vec<Trip>,
    pub stop_times: Vec<StopTime>,
}

} // verus!
