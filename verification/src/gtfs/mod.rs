//! A published GTFS feed read as a **topology**: stops, routes, trips and stop
//! times become the stations and ordered line lists of a network file.
//!
//! The tables arrive here already parsed, in file row order; reading the
//! archive or directory is the caller's job.

use vstd::prelude::*;
use vstd::string::StringExecFns;

use crate::model::InputSchema;

pub mod convert;
pub mod feed;
pub mod index;
pub mod stations;
pub mod trips;

verus! {

/// What the import is asked to keep.
#[derive(Debug, Clone, PartialEq, Eq)]
pub struct ImportParams {
    /// The `route_type` values to keep. Filtering is mandatory: a city feed is
    /// mostly buses, and a schematic poster of a bus network is a different
    /// design problem. `u16` because the extended vehicle types run to `1700`.
    pub route_types: Vec<u16>,
}

impl Default for ImportParams {
    /// Tram, streetcar and light rail (`0`) plus subway and metro (`1`).
    fn default() -> (r: Self)
        ensures
            r.route_types@ == seq![0u16, 1u16],
    {
        let mut route_types: Vec<u16> = Vec::new();
        route_types.push(0);
        route_types.push(1);
        ImportParams { route_types }
    }
}

/// Why a kept route did not become a line.
#[derive(Debug, Clone, PartialEq, Eq)]
pub enum DropReason {
    /// Its representative trip resolves to fewer than two stations.
    LineTooShort { stations: usize },
}

/// A kept route that became no line, and why.
#[derive(Debug, Clone, PartialEq, Eq)]
pub struct DroppedRoute {
    pub route_id: String,
    pub reason: DropReason,
}

/// A kept route absorbed into the earlier line that draws the same stroke.
#[derive(Debug, Clone, PartialEq, Eq)]
pub struct MergedRoute {
    pub route_id: String,
    pub into: String,
}

/// What the import kept, and what it did not. Import is lossy by design, and
/// silence about that is how someone concludes the tool lost a line.
#[derive(Debug, Clone, PartialEq, Eq)]
pub struct ImportReport {
    pub routes_seen: usize,
    pub routes_kept: usize,
    pub routes_dropped: Vec<DroppedRoute>,
    pub routes_merged: Vec<MergedRoute>,
    pub stops_seen: usize,
    pub stations_emitted: usize,
}

/// What can stop an import once the tables are read. Each is a hard error
/// rather than a skip: a skip cascades into a network error one step later,
/// where the message names the wrong problem.
#[derive(Debug, Clone, PartialEq, Eq)]
pub enum ImportError {
    /// A route's trip stops at an id `stops.txt` does not define as a stop or
    /// a station.
    UnknownStop { route: String, stop_id: String },
    /// A stop some kept line references has no coordinates.
    MissingCoordinates { stop_id: String },
    /// A `parent_station` names something that is not a station.
    UnknownParentStation { stop_id: String, parent: String },
}

/// The views of a list of strings.
pub open spec fn views(v: Seq<String>) -> Seq<Seq<char>> {
    v.map_values(|s: String| s@)
}

/// Consecutive duplicates folded to one, keeping the first of each run.
pub open spec fn dedup(s: Seq<Seq<char>>) -> Seq<Seq<char>>
    decreases s.len(),
{
    if s.len() == 0 {
        s
    } else {
        let d = dedup(s.drop_last());
        if d.len() > 0 && d.last() == s.last() {
            d
        } else {
            d.push(s.last())
        }
    }
}

pub proof fn lemma_dedup_last(s: Seq<Seq<char>>)
    ensures
        s.len() > 0 ==> dedup(s).len() > 0 && dedup(s).last() == s.last(),
        s.len() == 0 ==> dedup(s).len() == 0,
        dedup(s).len() <= s.len(),
    decreases s.len(),
{
    if s.len() > 0 {
        lemma_dedup_last(s.drop_last());
    }
}

/// **A folded list repeats no entry consecutively.**
pub proof fn lemma_dedup_no_repeats(s: Seq<Seq<char>>)
    ensures
        forall|p: int| 0 <= p < dedup(s).len() - 1 ==> #[trigger] dedup(s)[p] != dedup(s)[p + 1],
    decreases s.len(),
{
    if s.len() > 0 {
        let d = dedup(s.drop_last());
        lemma_dedup_no_repeats(s.drop_last());
        if !(d.len() > 0 && d.last() == s.last()) {
            let r = d.push(s.last());
            assert forall|p: int| 0 <= p < r.len() - 1 implies #[trigger] r[p] != r[p + 1] by {
                if p < d.len() - 1 {
                    assert(r[p] == d[p] && r[p + 1] == d[p + 1]);
                }
            }
        }
    }
}

/// **Folding adds nothing.** Every entry of a folded list is an entry of the
/// list it was folded from.
pub proof fn lemma_dedup_keeps_entries(s: Seq<Seq<char>>)
    ensures
        forall|i: int| 0 <= i < dedup(s).len() ==> s.contains(#[trigger] dedup(s)[i]),
    decreases s.len(),
{
    if s.len() > 0 {
        let t = s.drop_last();
        let d = dedup(t);
        lemma_dedup_keeps_entries(t);
        assert forall|i: int| 0 <= i < dedup(s).len() implies s.contains(#[trigger] dedup(s)[i]) by {
            if i < d.len() {
                assert(dedup(s)[i] == d[i]);
                assert(t.contains(d[i]));
                let j = choose|j: int| 0 <= j < t.len() && t[j] == d[i];
                assert(s[j] == t[j]);
            } else {
                assert(dedup(s)[i] == s.last());
                assert(s[s.len() - 1] == s.last());
            }
        }
    }
}

/// `v` with consecutive duplicates folded, as `Vec::dedup` does.
pub fn dedup_strings(v: Vec<String>) -> (r: Vec<String>)
    ensures
        views(r@) == dedup(views(v@)),
{
    let mut r: Vec<String> = Vec::new();
    let mut i: usize = 0;
    while i < v.len()
        invariant
            i <= v@.len(),
            views(r@) == dedup(views(v@).take(i as int)),
        decreases v@.len() - i,
    {
        let ghost pre = views(v@).take(i as int);
        proof {
            assert(views(v@).take(i + 1).drop_last() =~= pre);
            lemma_dedup_last(pre);
        }
        let n = r.len();
        if n > 0 && r[n - 1] == v[i] {
            assert(views(r@).last() == r@[n - 1]@);
        } else {
            r.push(v[i].clone());
            assert(views(r@) =~= dedup(views(v@).take(i + 1)));
        }
        i += 1;
    }
    assert(views(v@).take(v@.len() as int) =~= views(v@));
    r
}

/// The character of a decimal digit.
pub open spec fn digit_char(d: int) -> char {
    if d == 0 {
        '0'
    } else if d == 1 {
        '1'
    } else if d == 2 {
        '2'
    } else if d == 3 {
        '3'
    } else if d == 4 {
        '4'
    } else if d == 5 {
        '5'
    } else if d == 6 {
        '6'
    } else if d == 7 {
        '7'
    } else if d == 8 {
        '8'
    } else {
        '9'
    }
}

/// `n` in decimal, without leading zeros.
pub open spec fn decimal(n: nat) -> Seq<char>
    decreases n,
{
    if n < 10 {
        seq![digit_char(n as int)]
    } else {
        decimal(n / 10) + seq![digit_char((n % 10) as int)]
    }
}

fn digit_str(d: usize) -> (r: &'static str)
    requires
        d < 10,
    ensures
        r@ == seq![digit_char(d as int)],
{
    proof {
        reveal_strlit("0");
        reveal_strlit("1");
        reveal_strlit("2");
        reveal_strlit("3");
        reveal_strlit("4");
        reveal_strlit("5");
        reveal_strlit("6");
        reveal_strlit("7");
        reveal_strlit("8");
        reveal_strlit("9");
    }
    match d {
        0 => "0",
        1 => "1",
        2 => "2",
        3 => "3",
        4 => "4",
        5 => "5",
        6 => "6",
        7 => "7",
        8 => "8",
        _ => "9",
    }
}

/// `n` written in decimal.
pub fn decimal_string(n: usize) -> (r: String)
    ensures
        r@ == decimal(n as nat),
    decreases n,
{
    if n < 10 {
        String::from_str(digit_str(n))
    } else {
        let mut r = decimal_string(n / 10);
        r.append(digit_str(n % 10));
        r
    }
}

/// The one-line account of an import: what was written, how many stations
/// and lines, and how many routes matched the filter, were dropped and were
/// merged.
pub open spec fn summary_text(
    output: Seq<char>,
    stations: nat,
    lines: nat,
    kept: nat,
    seen: nat,
    dropped: nat,
    merged: nat,
) -> Seq<char> {
    "wrote "@ + output + " \u{2014} "@ + decimal(stations) + " stations, "@ + decimal(lines) + " lines, "@ + decimal(kept)
        + " of "@ + decimal(seen) + " routes matched, "@ + decimal(dropped) + " dropped, "@ + decimal(merged)
        + " merged"@
}

/// The summary line an import prints.
///
/// `matched` counts the routes that passed the filter and `dropped` those
/// that then failed to become lines, so the two numbers bracket the line
/// count rather than restating it. Which route was dropped or merged stays
/// in the report; the line stays one line.
pub fn summary(output: &str, schema: &InputSchema, report: &ImportReport) -> (r: String)
    ensures
        r@ == summary_text(
            output@,
            schema.stations@.len(),
            schema.lines@.len(),
            report.routes_kept as nat,
            report.routes_seen as nat,
            report.routes_dropped@.len(),
            report.routes_merged@.len(),
        ),
{
    let mut r = String::from_str("wrote ");
    r.append(output);
    r.append(" \u{2014} ");
    r.append(decimal_string(schema.stations.len()).as_str());
    r.append(" stations, ");
    r.append(decimal_string(schema.lines.len()).as_str());
    r.append(" lines, ");
    r.append(decimal_string(report.routes_kept).as_str());
    r.append(" of ");
    r.append(decimal_string(report.routes_seen).as_str());
    r.append(" routes matched, ");
    r.append(decimal_string(report.routes_dropped.len()).as_str());
    r.append(" dropped, ");
    r.append(decimal_string(report.routes_merged.len()).as_str());
    r.append(" merged");
    r
}

} // verus!
