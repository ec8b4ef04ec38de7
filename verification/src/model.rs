//! The data model: stations, lines, the validated network, and the corridor
//! graph that joins them.
//!
//! Two invariants live here and everything downstream leans on them:
//!
//! 1. **Two lines over the same consecutive pair share one edge.** The edge is
//!    the corridor, so a shared trunk is a topological fact rather than a
//!    geometric guess.
//! 2. **Input order is the iteration order.** `stations` and `lines` keep
//!    input-file order, node indices coincide with station indices, and edges
//!    are numbered in the order the line walk first meets them.

use std::collections::BTreeSet;

use vstd::prelude::*;
use vstd::hash_map::StringHashMap;
use vstd::hash_set::StringHashSet;

use crate::graph::{
    graph_add_edge, graph_add_node, graph_edge_count, graph_edge_endpoints, graph_edge_weight, graph_edges, graph_find_edge,
    graph_new, graph_nodes, graph_update_edge, joins, CorridorGraph, LineSet,
};

verus! {

broadcast use vstd::laws_cmp::group_laws_cmp, vstd::std_specs::btree::group_btree_axioms;

/// One station. Its position is carried as the IEEE-754 bit patterns of its
/// latitude and longitude in degrees: nothing in this crate reads them, and
/// carrying the bits keeps a round trip exact.
#[derive(Debug, Clone)]
pub struct Station {
    pub id: String,
    pub name: String,
    pub lat_bits: u64,
    pub lon_bits: u64,
}

/// One line, as an **ordered** station list. The graph's edges are the
/// consecutive pairs of that list.
#[derive(Debug, Clone)]
pub struct Line {
    pub id: String,
    pub name: String,
    pub color: String,
    pub stations: Vec<String>,
}

/// The whole input file.
#[derive(Debug, Clone)]
pub struct InputSchema {
    pub stations: Vec<Station>,
    pub lines: Vec<Line>,
}

/// The five conditions [`Network::from_input`] rejects.
#[derive(Debug, Clone, PartialEq, Eq)]
pub enum InputError {
    /// There would be no node to attach the edge to.
    UnknownStation { line: String, station: String },
    /// Node identity would stop being a key.
    DuplicateStation { id: String },
    /// Line identity is the render-offset sort key.
    DuplicateLine { id: String },
    /// Contributes no edge, so it would silently vanish from the map.
    LineTooShort { id: String, count: usize },
    /// A self-loop, which has no angle.
    RepeatedStation { line: String, station: String },
}

// ---------------------------------------------------------------------------
// The specification of validation.
// ---------------------------------------------------------------------------

/// The index of the first station whose id is `id`, or `-1`.
pub open spec fn find_station(s: Seq<Station>, id: Seq<char>) -> int
    decreases s.len(),
{
    if s.len() == 0 {
        -1
    } else {
        let r = find_station(s.drop_last(), id);
        if r >= 0 {
            r
        } else if s.last().id@ == id {
            s.len() - 1
        } else {
            -1
        }
    }
}

/// The index of the first line whose id is `id`, or `-1`.
pub open spec fn find_line(s: Seq<Line>, id: Seq<char>) -> int
    decreases s.len(),
{
    if s.len() == 0 {
        -1
    } else {
        let r = find_line(s.drop_last(), id);
        if r >= 0 {
            r
        } else if s.last().id@ == id {
            s.len() - 1
        } else {
            -1
        }
    }
}

/// `index` maps each station id of `s` to the index of the first station
/// with that id, and knows no other id.
pub open spec fn is_id_index(index: Map<Seq<char>, usize>, s: Seq<Station>) -> bool {
    &&& forall|id: Seq<char>| #[trigger] index.contains_key(id) <==> find_station(s, id) >= 0
    &&& forall|id: Seq<char>| #[trigger] index.contains_key(id) ==> index[id] == find_station(s, id)
}

/// The first station whose id an earlier station already has, or `-1`.
pub open spec fn duplicate_station(s: Seq<Station>) -> int
    decreases s.len(),
{
    if s.len() == 0 {
        -1
    } else {
        let r = duplicate_station(s.drop_last());
        if r >= 0 {
            r
        } else if find_station(s.drop_last(), s.last().id@) >= 0 {
            s.len() - 1
        } else {
            -1
        }
    }
}

/// The first line whose id an earlier line already has, or `-1`.
pub open spec fn duplicate_line(s: Seq<Line>) -> int
    decreases s.len(),
{
    if s.len() == 0 {
        -1
    } else {
        let r = duplicate_line(s.drop_last());
        if r >= 0 {
            r
        } else if find_line(s.drop_last(), s.last().id@) >= 0 {
            s.len() - 1
        } else {
            -1
        }
    }
}

/// The pair at positions `p` and `p + 1` of `line` names one station twice.
pub open spec fn repeat_error(line: Line, p: int) -> Option<InputError> {
    let from = line.stations@[p];
    if from@ == line.stations@[p + 1]@ {
        Some(InputError::RepeatedStation { line: line.id, station: from })
    } else {
        None
    }
}

/// The first consecutive repeat among the first `n` pairs of `line`.
pub open spec fn repeats_error(line: Line, n: int) -> Option<InputError>
    decreases n,
{
    if n <= 0 {
        None
    } else {
        match repeats_error(line, n - 1) {
            Some(e) => Some(e),
            None => repeat_error(line, n - 1),
        }
    }
}

/// What the pair at positions `p` and `p + 1` of `line` references that no
/// station defines, if anything: the first station, then the second.
pub open spec fn pair_error(st: Seq<Station>, line: Line, p: int) -> Option<InputError> {
    let from = line.stations@[p];
    let to = line.stations@[p + 1];
    if find_station(st, from@) < 0 {
        Some(InputError::UnknownStation { line: line.id, station: from })
    } else if find_station(st, to@) < 0 {
        Some(InputError::UnknownStation { line: line.id, station: to })
    } else {
        None
    }
}

/// The first unknown reference among the first `n` pairs of `line`.
pub open spec fn pairs_error(st: Seq<Station>, line: Line, n: int) -> Option<InputError>
    decreases n,
{
    if n <= 0 {
        None
    } else {
        match pairs_error(st, line, n - 1) {
            Some(e) => Some(e),
            None => pair_error(st, line, n - 1),
        }
    }
}

/// What is wrong with one line: too short, else its first consecutive
/// repeat, else its first unknown reference.
pub open spec fn line_error(st: Seq<Station>, line: Line) -> Option<InputError> {
    if line.stations@.len() < 2 {
        Some(InputError::LineTooShort { id: line.id, count: line.stations@.len() as usize })
    } else {
        match repeats_error(line, line.stations@.len() - 1) {
            Some(e) => Some(e),
            None => pairs_error(st, line, line.stations@.len() - 1),
        }
    }
}

/// The first error among the first `n` lines.
pub open spec fn lines_error(st: Seq<Station>, lines: Seq<Line>, n: int) -> Option<InputError>
    decreases n,
{
    if n <= 0 {
        None
    } else {
        match lines_error(st, lines, n - 1) {
            Some(e) => Some(e),
            None => line_error(st, lines[n - 1]),
        }
    }
}

/// The error [`Network::from_input`] reports for an input, if any. Checks run
/// in a fixed order — duplicate station ids, duplicate line ids, then per line
/// in input order: too short, consecutive repeat, unknown reference — so an
/// input violating two conditions always reports the same one.
pub open spec fn input_error(st: Seq<Station>, lines: Seq<Line>) -> Option<InputError> {
    if duplicate_station(st) >= 0 {
        Some(InputError::DuplicateStation { id: st[duplicate_station(st)].id })
    } else if duplicate_line(lines) >= 0 {
        Some(InputError::DuplicateLine { id: lines[duplicate_line(lines)].id })
    } else {
        lines_error(st, lines, lines.len() as int)
    }
}

// ---------------------------------------------------------------------------
// The specification of the corridor graph.
// ---------------------------------------------------------------------------

/// The station index of an id.
pub open spec fn idx(st: Seq<Station>, id: String) -> usize {
    find_station(st, id@) as usize
}

/// One consecutive pair added to the corridors: the line joins the edge that
/// already joins the pair, or a new edge is appended.
pub open spec fn add_corridor(
    edges: Seq<(usize, usize, Set<usize>)>,
    line: usize,
    a: usize,
    b: usize,
) -> Seq<(usize, usize, Set<usize>)> {
    if exists|x: int| 0 <= x < edges.len() && joins(#[trigger] edges[x], a, b) {
        let x = choose|x: int| 0 <= x < edges.len() && joins(#[trigger] edges[x], a, b);
        edges.update(x, (edges[x].0, edges[x].1, edges[x].2.insert(line)))
    } else {
        edges.push((a, b, set![line]))
    }
}

/// The corridors after walking the first `p` pairs of line `li`, starting from
/// `base`.
pub open spec fn walk_line(
    st: Seq<Station>,
    line: Line,
    li: usize,
    base: Seq<(usize, usize, Set<usize>)>,
    p: int,
) -> Seq<(usize, usize, Set<usize>)>
    decreases p,
{
    if p <= 0 {
        base
    } else {
        add_corridor(
            walk_line(st, line, li, base, p - 1),
            li,
            idx(st, line.stations@[p - 1]),
            idx(st, line.stations@[p]),
        )
    }
}

/// The corridors of the first `n` lines, in the order the walk first meets
/// them.
pub open spec fn corridors_of(st: Seq<Station>, lines: Seq<Line>, n: int) -> Seq<(usize, usize, Set<usize>)>
    decreases n,
{
    if n <= 0 {
        Seq::empty()
    } else {
        walk_line(
            st,
            lines[n - 1],
            (n - 1) as usize,
            corridors_of(st, lines, n - 1),
            lines[n - 1].stations@.len() - 1,
        )
    }
}

/// Whether one of the first `p` pairs of `line` joins `a` and `b`.
pub open spec fn line_has_pair_upto(st: Seq<Station>, line: Line, a: usize, b: usize, p: int) -> bool {
    exists|q: int|
        0 <= q < p && {
            let x = idx(st, #[trigger] line.stations@[q]);
            let y = idx(st, line.stations@[q + 1]);
            (x == a && y == b) || (x == b && y == a)
        }
}

/// Whether `line` runs between `a` and `b` as a consecutive pair.
pub open spec fn line_has_pair(st: Seq<Station>, line: Line, a: usize, b: usize) -> bool {
    line_has_pair_upto(st, line, a, b, line.stations@.len() - 1)
}

/// The total number of station references across all lines.
pub open spec fn total_stops(lines: Seq<Line>, n: int) -> int
    decreases n,
{
    if n <= 0 {
        0
    } else {
        total_stops(lines, n - 1) + lines[n - 1].stations@.len()
    }
}

/// What the corridor graph's `u32` indices can hold.
pub open spec fn input_fits(input: InputSchema) -> bool {
    &&& input.stations@.len() < u32::MAX
    &&& total_stops(input.lines@, input.lines@.len() as int) < u32::MAX
}

/// The structural facts about a corridor sequence over `n` stations and the
/// given lines.
pub open spec fn corridors_sound(
    st: Seq<Station>,
    lines: Seq<Line>,
    edges: Seq<(usize, usize, Set<usize>)>,
) -> bool {
    &&& forall|e: int|
        #![trigger edges[e]]
        0 <= e < edges.len() ==> edges[e].0 < st.len() && edges[e].1 < st.len() && edges[e].0 != edges[e].1
    &&& forall|x: int, y: int|
        #![trigger edges[x], edges[y]]
        0 <= x < y < edges.len() ==> !joins(edges[y], edges[x].0, edges[x].1)
    &&& forall|e: int, l: usize|
        #![trigger edges[e].2.contains(l)]
        0 <= e < edges.len() ==> (edges[e].2.contains(l) <==> (l < lines.len() && line_has_pair(
            st,
            lines[l as int],
            edges[e].0,
            edges[e].1,
        )))
    &&& forall|l: int, p: int|
        #![trigger lines[l].stations@[p]]
        0 <= l < lines.len() && 0 <= p < lines[l].stations@.len() - 1 ==> exists|e: int|
            0 <= e < edges.len() && joins(
                #[trigger] edges[e],
                idx(st, lines[l].stations@[p]),
                idx(st, lines[l].stations@[p + 1]),
            )
}

/// What a validated input satisfies beyond being free of the five errors.
pub open spec fn lines_resolve(st: Seq<Station>, lines: Seq<Line>) -> bool {
    &&& forall|l: int| 0 <= l < lines.len() ==> #[trigger] lines[l].stations@.len() >= 2
    &&& forall|l: int, p: int|
        #![trigger lines[l].stations@[p]]
        0 <= l < lines.len() && 0 <= p < lines[l].stations@.len() ==> 0 <= find_station(
            st,
            lines[l].stations@[p]@,
        ) < st.len()
    &&& forall|l: int, p: int|
        #![trigger lines[l].stations@[p]]
        0 <= l < lines.len() && 0 <= p < lines[l].stations@.len() - 1 ==> lines[l].stations@[p]@
            != lines[l].stations@[p + 1]@
}

} // verus!

verus! {

// ---------------------------------------------------------------------------
// Lemmas about the validation specification.
// ---------------------------------------------------------------------------

pub proof fn lemma_find_station(s: Seq<Station>, id: Seq<char>)
    ensures
        -1 <= find_station(s, id) < s.len(),
        find_station(s, id) >= 0 ==> s[find_station(s, id)].id@ == id,
        find_station(s, id) >= 0 ==> forall|j: int| 0 <= j < find_station(s, id) ==> s[j].id@ != id,
        find_station(s, id) < 0 ==> forall|j: int| 0 <= j < s.len() ==> s[j].id@ != id,
    decreases s.len(),
{
    if s.len() > 0 {
        lemma_find_station(s.drop_last(), id);
        assert(forall|j: int| 0 <= j < s.len() - 1 ==> s.drop_last()[j] == s[j]);
    }
}

pub proof fn lemma_find_line(s: Seq<Line>, id: Seq<char>)
    ensures
        -1 <= find_line(s, id) < s.len(),
        find_line(s, id) >= 0 ==> s[find_line(s, id)].id@ == id,
        find_line(s, id) >= 0 ==> forall|j: int| 0 <= j < find_line(s, id) ==> s[j].id@ != id,
        find_line(s, id) < 0 ==> forall|j: int| 0 <= j < s.len() ==> s[j].id@ != id,
    decreases s.len(),
{
    if s.len() > 0 {
        lemma_find_line(s.drop_last(), id);
        assert(forall|j: int| 0 <= j < s.len() - 1 ==> s.drop_last()[j] == s[j]);
    }
}

proof fn lemma_duplicate_station_prefix(s: Seq<Station>, k: int)
    requires
        0 <= k <= s.len(),
        duplicate_station(s.take(k)) >= 0,
    ensures
        duplicate_station(s) == duplicate_station(s.take(k)),
    decreases s.len(),
{
    if k == s.len() {
        assert(s.take(k) =~= s);
    } else {
        assert(s.drop_last().take(k) =~= s.take(k));
        lemma_duplicate_station_prefix(s.drop_last(), k);
    }
}

proof fn lemma_duplicate_line_prefix(s: Seq<Line>, k: int)
    requires
        0 <= k <= s.len(),
        duplicate_line(s.take(k)) >= 0,
    ensures
        duplicate_line(s) == duplicate_line(s.take(k)),
    decreases s.len(),
{
    if k == s.len() {
        assert(s.take(k) =~= s);
    } else {
        assert(s.drop_last().take(k) =~= s.take(k));
        lemma_duplicate_line_prefix(s.drop_last(), k);
    }
}

pub proof fn lemma_duplicate_station(s: Seq<Station>)
    ensures
        duplicate_station(s) < 0 ==> forall|i: int, j: int| 0 <= i < j < s.len() ==> s[i].id@ != s[j].id@,
    decreases s.len(),
{
    if s.len() > 0 {
        lemma_duplicate_station(s.drop_last());
        lemma_find_station(s.drop_last(), s.last().id@);
        if duplicate_station(s) < 0 {
            assert forall|i: int, j: int| 0 <= i < j < s.len() implies s[i].id@ != s[j].id@ by {
                if j < s.len() - 1 {
                    assert(s.drop_last()[i] == s[i] && s.drop_last()[j] == s[j]);
                } else {
                    assert(s.drop_last()[i] == s[i]);
                }
            }
        }
    }
}

pub proof fn lemma_duplicate_line(s: Seq<Line>)
    ensures
        duplicate_line(s) < 0 ==> forall|i: int, j: int| 0 <= i < j < s.len() ==> s[i].id@ != s[j].id@,
    decreases s.len(),
{
    if s.len() > 0 {
        lemma_duplicate_line(s.drop_last());
        lemma_find_line(s.drop_last(), s.last().id@);
        if duplicate_line(s) < 0 {
            assert forall|i: int, j: int| 0 <= i < j < s.len() implies s[i].id@ != s[j].id@ by {
                if j < s.len() - 1 {
                    assert(s.drop_last()[i] == s[i] && s.drop_last()[j] == s[j]);
                } else {
                    assert(s.drop_last()[i] == s[i]);
                }
            }
        }
    }
}

proof fn lemma_pairs_error_prefix(st: Seq<Station>, line: Line, k: int, n: int)
    requires
        0 <= k <= n,
        pairs_error(st, line, k) is Some,
    ensures
        pairs_error(st, line, n) == pairs_error(st, line, k),
    decreases n - k,
{
    if n > k {
        lemma_pairs_error_prefix(st, line, k, n - 1);
    }
}

proof fn lemma_repeats_error_prefix(line: Line, k: int, n: int)
    requires
        0 <= k <= n,
        repeats_error(line, k) is Some,
    ensures
        repeats_error(line, n) == repeats_error(line, k),
    decreases n - k,
{
    if n > k {
        lemma_repeats_error_prefix(line, k, n - 1);
    }
}

proof fn lemma_repeats_clean(line: Line, n: int)
    requires
        0 <= n <= line.stations@.len() - 1,
        repeats_error(line, n) is None,
    ensures
        forall|p: int| #![trigger line.stations@[p]] 0 <= p < n ==> line.stations@[p]@ != line.stations@[p + 1]@,
    decreases n,
{
    if n > 0 {
        lemma_repeats_clean(line, n - 1);
    }
}

proof fn lemma_lines_error_prefix(st: Seq<Station>, lines: Seq<Line>, k: int, n: int)
    requires
        0 <= k <= n,
        lines_error(st, lines, k) is Some,
    ensures
        lines_error(st, lines, n) == lines_error(st, lines, k),
    decreases n - k,
{
    if n > k {
        lemma_lines_error_prefix(st, lines, k, n - 1);
    }
}

proof fn lemma_pairs_clean(st: Seq<Station>, line: Line, n: int)
    requires
        0 <= n <= line.stations@.len() - 1,
        pairs_error(st, line, n) is None,
    ensures
        forall|p: int| #![trigger line.stations@[p]] 0 <= p < n ==> pair_error(st, line, p) is None,
    decreases n,
{
    if n > 0 {
        lemma_pairs_clean(st, line, n - 1);
    }
}

proof fn lemma_lines_clean(st: Seq<Station>, lines: Seq<Line>, n: int)
    requires
        0 <= n <= lines.len(),
        lines_error(st, lines, n) is None,
    ensures
        forall|l: int| 0 <= l < n ==> #[trigger] line_error(st, lines[l]) is None,
    decreases n,
{
    if n > 0 {
        lemma_lines_clean(st, lines, n - 1);
    }
}

/// A clean input's lines all resolve.
pub proof fn lemma_clean_lines_resolve(st: Seq<Station>, lines: Seq<Line>)
    requires
        lines_error(st, lines, lines.len() as int) is None,
    ensures
        lines_resolve(st, lines),
{
    lemma_lines_clean(st, lines, lines.len() as int);
    assert forall|l: int| 0 <= l < lines.len() implies #[trigger] lines[l].stations@.len() >= 2 by {
        assert(line_error(st, lines[l]) is None);
    }
    assert forall|l: int, p: int|
        #![trigger lines[l].stations@[p]]
        0 <= l < lines.len() && 0 <= p < lines[l].stations@.len() - 1 implies {
        &&& 0 <= find_station(st, lines[l].stations@[p]@) < st.len()
        &&& 0 <= find_station(st, lines[l].stations@[p + 1]@) < st.len()
        &&& lines[l].stations@[p]@ != lines[l].stations@[p + 1]@
    } by {
        assert(line_error(st, lines[l]) is None);
        lemma_repeats_clean(lines[l], lines[l].stations@.len() - 1);
        lemma_pairs_clean(st, lines[l], lines[l].stations@.len() - 1);
        assert(pair_error(st, lines[l], p) is None);
        lemma_find_station(st, lines[l].stations@[p]@);
        lemma_find_station(st, lines[l].stations@[p + 1]@);
    }
    assert forall|l: int, p: int|
        #![trigger lines[l].stations@[p]]
        0 <= l < lines.len() && 0 <= p < lines[l].stations@.len() implies 0 <= find_station(
        st,
        lines[l].stations@[p]@,
    ) < st.len() by {
        if p < lines[l].stations@.len() - 1 {
        } else {
            assert(0 <= find_station(st, lines[l].stations@[p - 1]@) < st.len());
        }
    }
}

/// Stations whose ids are pairwise distinct hold no duplicate.
pub proof fn lemma_distinct_stations(s: Seq<Station>)
    requires
        forall|i: int, j: int| 0 <= i < j < s.len() ==> #[trigger] s[i].id@ != #[trigger] s[j].id@,
    ensures
        duplicate_station(s) < 0,
    decreases s.len(),
{
    if s.len() > 0 {
        let t = s.drop_last();
        assert forall|i: int, j: int| 0 <= i < j < t.len() implies #[trigger] t[i].id@ != #[trigger] t[j].id@ by {
            assert(t[i] == s[i] && t[j] == s[j]);
        }
        lemma_distinct_stations(t);
        lemma_find_station(t, s.last().id@);
        if find_station(t, s.last().id@) >= 0 {
            let f = find_station(t, s.last().id@);
            assert(t[f] == s[f]);
            assert(s[s.len() - 1] == s.last());
        }
    }
}

/// Lines whose ids are pairwise distinct hold no duplicate.
pub proof fn lemma_distinct_lines(s: Seq<Line>)
    requires
        forall|i: int, j: int| 0 <= i < j < s.len() ==> #[trigger] s[i].id@ != #[trigger] s[j].id@,
    ensures
        duplicate_line(s) < 0,
    decreases s.len(),
{
    if s.len() > 0 {
        let t = s.drop_last();
        assert forall|i: int, j: int| 0 <= i < j < t.len() implies #[trigger] t[i].id@ != #[trigger] t[j].id@ by {
            assert(t[i] == s[i] && t[j] == s[j]);
        }
        lemma_distinct_lines(t);
        lemma_find_line(t, s.last().id@);
        if find_line(t, s.last().id@) >= 0 {
            let f = find_line(t, s.last().id@);
            assert(t[f] == s[f]);
            assert(s[s.len() - 1] == s.last());
        }
    }
}

proof fn lemma_resolving_pairs(st: Seq<Station>, line: Line, n: int)
    requires
        0 <= n <= line.stations@.len() - 1,
        forall|p: int| 0 <= p <= n ==> 0 <= #[trigger] find_station(st, line.stations@[p]@),
        forall|p: int| 0 <= p < n ==> #[trigger] line.stations@[p]@ != line.stations@[p + 1]@,
    ensures
        repeats_error(line, n) is None,
        pairs_error(st, line, n) is None,
    decreases n,
{
    if n > 0 {
        lemma_resolving_pairs(st, line, n - 1);
        let p = n - 1;
        assert(0 <= find_station(st, line.stations@[p]@));
        assert(0 <= find_station(st, line.stations@[p + 1]@));
        assert(line.stations@[p]@ != line.stations@[p + 1]@);
    }
}

proof fn lemma_resolving_lines(st: Seq<Station>, lines: Seq<Line>, n: int)
    requires
        0 <= n <= lines.len(),
        lines_resolve(st, lines),
    ensures
        lines_error(st, lines, n) is None,
    decreases n,
{
    if n > 0 {
        lemma_resolving_lines(st, lines, n - 1);
        let line = lines[n - 1];
        let len = line.stations@.len();
        assert(len >= 2);
        assert forall|p: int| 0 <= p <= len - 1 implies 0 <= #[trigger] find_station(st, line.stations@[p]@) by {
            assert(0 <= find_station(st, lines[n - 1].stations@[p]@));
        }
        assert forall|p: int| 0 <= p < len - 1 implies #[trigger] line.stations@[p]@ != line.stations@[p + 1]@ by {
            assert(lines[n - 1].stations@[p]@ != lines[n - 1].stations@[p + 1]@);
        }
        lemma_resolving_pairs(st, line, len - 1);
    }
}

/// **Lines that resolve are clean**: every line of two stations or more, each
/// of them a known station and none repeated consecutively, raises no line
/// error. With [`lemma_clean_lines_resolve`], the two are one condition.
pub proof fn lemma_resolving_lines_are_clean(st: Seq<Station>, lines: Seq<Line>)
    requires
        lines_resolve(st, lines),
    ensures
        lines_error(st, lines, lines.len() as int) is None,
{
    lemma_resolving_lines(st, lines, lines.len() as int);
}

proof fn lemma_total_stops_grows(lines: Seq<Line>, k: int, n: int)
    requires
        0 <= k <= n,
    ensures
        total_stops(lines, k) <= total_stops(lines, n),
        total_stops(lines, k) >= 0,
    decreases n - k,
{
    if n > k {
        lemma_total_stops_grows(lines, k, n - 1);
    } else {
        lemma_total_stops_nonneg(lines, k);
    }
}

proof fn lemma_total_stops_nonneg(lines: Seq<Line>, k: int)
    ensures
        total_stops(lines, k) >= 0,
    decreases k,
{
    if k > 0 {
        lemma_total_stops_nonneg(lines, k - 1);
    }
}

} // verus!

verus! {

// ---------------------------------------------------------------------------
// Building the corridors.
// ---------------------------------------------------------------------------

/// Whether the pair at position `q` of `line` joins `a` and `b`.
pub open spec fn pair_joins(st: Seq<Station>, line: Line, q: int, a: usize, b: usize) -> bool {
    let x = idx(st, line.stations@[q]);
    let y = idx(st, line.stations@[q + 1]);
    (x == a && y == b) || (x == b && y == a)
}

/// The corridors' structure part-way through the walk: all pairs of lines
/// before `li`, and the first `p` pairs of line `li`, have been added.
pub open spec fn built_sound(
    st: Seq<Station>,
    lines: Seq<Line>,
    edges: Seq<(usize, usize, Set<usize>)>,
    li: int,
    p: int,
) -> bool {
    &&& forall|e: int|
        #![trigger edges[e]]
        0 <= e < edges.len() ==> edges[e].0 < st.len() && edges[e].1 < st.len() && edges[e].0 != edges[e].1
    &&& forall|x: int, y: int|
        #![trigger edges[x], edges[y]]
        0 <= x < y < edges.len() ==> !joins(edges[y], edges[x].0, edges[x].1)
    &&& forall|e: int, l: usize|
        #![trigger edges[e].2.contains(l)]
        0 <= e < edges.len() ==> (edges[e].2.contains(l) <==> ((l < li && line_has_pair(
            st,
            lines[l as int],
            edges[e].0,
            edges[e].1,
        )) || (l == li && line_has_pair_upto(st, lines[li], edges[e].0, edges[e].1, p))))
    &&& forall|l: int, q: int|
        #![trigger lines[l].stations@[q]]
        0 <= l < li && 0 <= q < lines[l].stations@.len() - 1 ==> exists|e: int|
            0 <= e < edges.len() && joins(
                #[trigger] edges[e],
                idx(st, lines[l].stations@[q]),
                idx(st, lines[l].stations@[q + 1]),
            )
    &&& forall|q: int|
        #![trigger lines[li].stations@[q]]
        0 <= q < p ==> exists|e: int|
            0 <= e < edges.len() && joins(
                #[trigger] edges[e],
                idx(st, lines[li].stations@[q]),
                idx(st, lines[li].stations@[q + 1]),
            )
}

proof fn lemma_unique_joiner(edges: Seq<(usize, usize, Set<usize>)>, x: int, y: int, a: usize, b: usize)
    requires
        forall|x: int, y: int|
            #![trigger edges[x], edges[y]]
            0 <= x < y < edges.len() ==> !joins(edges[y], edges[x].0, edges[x].1),
        0 <= x < edges.len(),
        0 <= y < edges.len(),
        joins(edges[x], a, b),
        joins(edges[y], a, b),
    ensures
        x == y,
{
    if x < y {
        assert(!joins(edges[y], edges[x].0, edges[x].1));
    } else if y < x {
        assert(!joins(edges[x], edges[y].0, edges[y].1));
    }
}

proof fn lemma_add_existing(
    st: Seq<Station>,
    lines: Seq<Line>,
    edges: Seq<(usize, usize, Set<usize>)>,
    li: usize,
    p: int,
    a: usize,
    b: usize,
    e: int,
)
    requires
        li < lines.len(),
        0 <= p < lines[li as int].stations@.len() - 1,
        built_sound(st, lines, edges, li as int, p),
        idx(st, lines[li as int].stations@[p]) == a,
        idx(st, lines[li as int].stations@[p + 1]) == b,
        0 <= e < edges.len(),
        joins(edges[e], a, b),
    ensures
        add_corridor(edges, li, a, b) == edges.update(
            e,
            (edges[e].0, edges[e].1, edges[e].2.insert(li)),
        ),
        built_sound(st, lines, add_corridor(edges, li, a, b), li as int, p + 1),
{
    let x = choose|x: int| 0 <= x < edges.len() && joins(#[trigger] edges[x], a, b);
    lemma_unique_joiner(edges, x, e, a, b);
    let n = edges.update(e, (edges[e].0, edges[e].1, edges[e].2.insert(li)));
    assert(add_corridor(edges, li, a, b) == n);
    assert forall|f: int, l: usize|
        #![trigger n[f].2.contains(l)]
        0 <= f < n.len() implies (n[f].2.contains(l) <==> ((l < li && line_has_pair(
            st,
            lines[l as int],
            n[f].0,
            n[f].1,
        )) || (l == li && line_has_pair_upto(st, lines[li as int], n[f].0, n[f].1, p + 1)))) by {
        assert(edges[f].2.contains(l) <==> ((l < li && line_has_pair(st, lines[l as int], edges[f].0, edges[f].1))
            || (l == li && line_has_pair_upto(st, lines[li as int], edges[f].0, edges[f].1, p))));
        if f == e {
            assert(n[f].2 == edges[e].2.insert(li));
            assert(n[f].0 == edges[e].0 && n[f].1 == edges[e].1);
            if l == li {
                assert(pair_joins(st, lines[li as int], p, n[f].0, n[f].1));
                let _ = lines[li as int].stations@[p];
                assert(line_has_pair_upto(st, lines[li as int], n[f].0, n[f].1, p + 1));
                assert(n[f].2.contains(l));
            } else {
                assert(n[f].2.contains(l) == edges[e].2.contains(l));
            }
        } else {
            if line_has_pair_upto(st, lines[li as int], n[f].0, n[f].1, p + 1) && !line_has_pair_upto(
                st,
                lines[li as int],
                n[f].0,
                n[f].1,
                p,
            ) {
                let q = choose|q: int|
                    0 <= q < p + 1 && {
                        let x = idx(st, #[trigger] lines[li as int].stations@[q]);
                        let y = idx(st, lines[li as int].stations@[q + 1]);
                        (x == n[f].0 && y == n[f].1) || (x == n[f].1 && y == n[f].0)
                    };
                assert(q == p);
                assert(joins(edges[f], a, b));
                lemma_unique_joiner(edges, f, e, a, b);
            }
        }
    }
    assert forall|q: int| #![trigger lines[li as int].stations@[q]] 0 <= q < p + 1 implies exists|f: int|
        0 <= f < n.len() && joins(
            #[trigger] n[f],
            idx(st, lines[li as int].stations@[q]),
            idx(st, lines[li as int].stations@[q + 1]),
        ) by {
        if q == p {
            assert(joins(n[e], a, b));
        } else {
            let f = choose|f: int|
                0 <= f < edges.len() && joins(
                    #[trigger] edges[f],
                    idx(st, lines[li as int].stations@[q]),
                    idx(st, lines[li as int].stations@[q + 1]),
                );
            assert(joins(n[f], idx(st, lines[li as int].stations@[q]), idx(st, lines[li as int].stations@[q + 1])));
        }
    }
    assert forall|l: int, q: int|
        #![trigger lines[l].stations@[q]]
        0 <= l < li && 0 <= q < lines[l].stations@.len() - 1 implies exists|f: int|
            0 <= f < n.len() && joins(
                #[trigger] n[f],
                idx(st, lines[l].stations@[q]),
                idx(st, lines[l].stations@[q + 1]),
            ) by {
        let f = choose|f: int|
            0 <= f < edges.len() && joins(
                #[trigger] edges[f],
                idx(st, lines[l].stations@[q]),
                idx(st, lines[l].stations@[q + 1]),
            );
        assert(joins(n[f], idx(st, lines[l].stations@[q]), idx(st, lines[l].stations@[q + 1])));
    }
    assert forall|x: int, y: int|
        #![trigger n[x], n[y]]
        0 <= x < y < n.len() implies !joins(n[y], n[x].0, n[x].1) by {
        assert(!joins(edges[y], edges[x].0, edges[x].1));
    }
}

proof fn lemma_add_new(
    st: Seq<Station>,
    lines: Seq<Line>,
    edges: Seq<(usize, usize, Set<usize>)>,
    li: usize,
    p: int,
    a: usize,
    b: usize,
)
    requires
        li < lines.len(),
        0 <= p < lines[li as int].stations@.len() - 1,
        built_sound(st, lines, edges, li as int, p),
        idx(st, lines[li as int].stations@[p]) == a,
        idx(st, lines[li as int].stations@[p + 1]) == b,
        a < st.len(),
        b < st.len(),
        a != b,
        forall|x: int| 0 <= x < edges.len() ==> !joins(#[trigger] edges[x], a, b),
    ensures
        add_corridor(edges, li, a, b) == edges.push((a, b, set![li])),
        built_sound(st, lines, add_corridor(edges, li, a, b), li as int, p + 1),
{
    let n = edges.push((a, b, set![li]));
    assert(add_corridor(edges, li, a, b) == n);
    let m = edges.len() as int;
    assert forall|f: int, l: usize|
        #![trigger n[f].2.contains(l)]
        0 <= f < n.len() implies (n[f].2.contains(l) <==> ((l < li && line_has_pair(
            st,
            lines[l as int],
            n[f].0,
            n[f].1,
        )) || (l == li && line_has_pair_upto(st, lines[li as int], n[f].0, n[f].1, p + 1)))) by {
        if f == m {
            if l < li && line_has_pair(st, lines[l as int], a, b) {
                let li2 = l as int;
                let q = choose|q: int|
                    0 <= q < lines[li2].stations@.len() - 1 && {
                        let x = idx(st, #[trigger] lines[li2].stations@[q]);
                        let y = idx(st, lines[li2].stations@[q + 1]);
                        (x == a && y == b) || (x == b && y == a)
                    };
                let g = choose|g: int|
                    0 <= g < edges.len() && joins(
                        #[trigger] edges[g],
                        idx(st, lines[li2].stations@[q]),
                        idx(st, lines[li2].stations@[q + 1]),
                    );
                assert(joins(edges[g], a, b));
            }
            if l == li {
                let _ = lines[li as int].stations@[p];
                assert(pair_joins(st, lines[li as int], p, a, b));
            }
        } else {
            assert(n[f] == edges[f]);
            assert(edges[f].2.contains(l) <==> ((l < li && line_has_pair(st, lines[l as int], edges[f].0, edges[f].1))
                || (l == li && line_has_pair_upto(st, lines[li as int], edges[f].0, edges[f].1, p))));
            if line_has_pair_upto(st, lines[li as int], n[f].0, n[f].1, p + 1) && !line_has_pair_upto(
                st,
                lines[li as int],
                n[f].0,
                n[f].1,
                p,
            ) {
                let q = choose|q: int|
                    0 <= q < p + 1 && {
                        let x = idx(st, #[trigger] lines[li as int].stations@[q]);
                        let y = idx(st, lines[li as int].stations@[q + 1]);
                        (x == n[f].0 && y == n[f].1) || (x == n[f].1 && y == n[f].0)
                    };
                assert(q == p);
                assert(joins(edges[f], a, b));
            }
        }
    }
    assert forall|q: int| #![trigger lines[li as int].stations@[q]] 0 <= q < p + 1 implies exists|f: int|
        0 <= f < n.len() && joins(
            #[trigger] n[f],
            idx(st, lines[li as int].stations@[q]),
            idx(st, lines[li as int].stations@[q + 1]),
        ) by {
        if q == p {
            assert(joins(n[m], a, b));
        } else {
            let f = choose|f: int|
                0 <= f < edges.len() && joins(
                    #[trigger] edges[f],
                    idx(st, lines[li as int].stations@[q]),
                    idx(st, lines[li as int].stations@[q + 1]),
                );
            assert(joins(n[f], idx(st, lines[li as int].stations@[q]), idx(st, lines[li as int].stations@[q + 1])));
        }
    }
    assert forall|l: int, q: int|
        #![trigger lines[l].stations@[q]]
        0 <= l < li && 0 <= q < lines[l].stations@.len() - 1 implies exists|f: int|
            0 <= f < n.len() && joins(
                #[trigger] n[f],
                idx(st, lines[l].stations@[q]),
                idx(st, lines[l].stations@[q + 1]),
            ) by {
        let f = choose|f: int|
            0 <= f < edges.len() && joins(
                #[trigger] edges[f],
                idx(st, lines[l].stations@[q]),
                idx(st, lines[l].stations@[q + 1]),
            );
        assert(joins(n[f], idx(st, lines[l].stations@[q]), idx(st, lines[l].stations@[q + 1])));
    }
    assert forall|x: int, y: int|
        #![trigger n[x], n[y]]
        0 <= x < y < n.len() implies !joins(n[y], n[x].0, n[x].1) by {
        if y < m {
            assert(!joins(edges[y], edges[x].0, edges[x].1));
        } else {
            assert(!joins(edges[x], a, b));
        }
    }
}

} // verus!

verus! {

// ---------------------------------------------------------------------------
// The network.
// ---------------------------------------------------------------------------

/// The station graph. Nodes are stations, edges are corridors.
pub struct Network {
    stations: Vec<Station>,
    lines: Vec<Line>,
    graph: CorridorGraph,
    /// Station index by id: looked up, never walked.
    index_by_id: StringHashMap<usize>,
}

impl Network {
    /// The stations, in input order.
    pub closed spec fn station_seq(&self) -> Seq<Station> {
        self.stations@
    }

    /// The lines, in input order.
    pub closed spec fn line_seq(&self) -> Seq<Line> {
        self.lines@
    }

    /// The corridors, in edge-index order: source, target, and the lines over
    /// them.
    pub closed spec fn corridor_seq(&self) -> Seq<(usize, usize, Set<usize>)> {
        graph_edges(self.graph)
    }

    /// A network built from a valid input.
    pub closed spec fn wf(&self) -> bool {
        &&& input_error(self.stations@, self.lines@) is None
        &&& graph_nodes(self.graph) == Seq::new(self.stations@.len(), |i: int| i as usize)
        &&& graph_edges(self.graph) == corridors_of(self.stations@, self.lines@, self.lines@.len() as int)
        &&& corridors_sound(self.stations@, self.lines@, graph_edges(self.graph))
        &&& self.stations@.len() < u32::MAX
        &&& graph_edges(self.graph).len() < u32::MAX
        &&& is_id_index(self.index_by_id@, self.stations@)
    }

    /// What every validated network satisfies.
    pub proof fn lemma_wf(&self)
        requires
            self.wf(),
        ensures
            input_error(self.station_seq(), self.line_seq()) is None,
            lines_resolve(self.station_seq(), self.line_seq()),
            corridors_sound(self.station_seq(), self.line_seq(), self.corridor_seq()),
            self.corridor_seq() == corridors_of(self.station_seq(), self.line_seq(), self.line_seq().len() as int),
            self.station_seq().len() < u32::MAX,
            self.corridor_seq().len() < u32::MAX,
            forall|i: int, j: int|
                0 <= i < j < self.station_seq().len() ==> self.station_seq()[i].id@ != self.station_seq()[j].id@,
            forall|i: int, j: int|
                0 <= i < j < self.line_seq().len() ==> self.line_seq()[i].id@ != self.line_seq()[j].id@,
    {
        lemma_clean_lines_resolve(self.stations@, self.lines@);
        lemma_duplicate_station(self.stations@);
        lemma_duplicate_line(self.lines@);
    }
}

} // verus!

verus! {

/// Walk one line's consecutive pairs into the corridor graph.
fn add_line_corridors(
    graph: &mut CorridorGraph,
    st: &Vec<Station>,
    index: &StringHashMap<usize>,
    lines: &Vec<Line>,
    li: usize,
) -> (r: Result<(), InputError>)
    requires
        is_id_index(index@, st@),
        li < lines@.len(),
        st@.len() < u32::MAX,
        total_stops(lines@, li as int + 1) < u32::MAX,
        graph_nodes(*old(graph)) == Seq::new(st@.len(), |k: int| k as usize),
        graph_edges(*old(graph)) == corridors_of(st@, lines@, li as int),
        built_sound(st@, lines@, graph_edges(*old(graph)), li as int, 0),
        graph_edges(*old(graph)).len() <= total_stops(lines@, li as int),
    ensures
        r matches Err(e) ==> line_error(st@, lines@[li as int]) == Some(e),
        r is Ok ==> {
            &&& line_error(st@, lines@[li as int]) is None
            &&& graph_nodes(*final(graph)) == graph_nodes(*old(graph))
            &&& graph_edges(*final(graph)) == corridors_of(st@, lines@, li as int + 1)
            &&& built_sound(st@, lines@, graph_edges(*final(graph)), li as int + 1, 0)
            &&& graph_edges(*final(graph)).len() <= total_stops(lines@, li as int + 1)
        },
{
    let ghost sts = st@;
    let ghost ls = lines@;
    let line = &lines[li];
    let ghost ln = ls[li as int];
    if line.stations.len() < 2 {
        return Err(InputError::LineTooShort { id: line.id.clone(), count: line.stations.len() });
    }
    // Every consecutive repeat is reported before any unknown reference.
    let mut q: usize = 0;
    while q < line.stations.len() - 1
        invariant
            sts == st@,
            ls == lines@,
            li < ls.len(),
            ln == ls[li as int],
            *line == ln,
            ln.stations@.len() >= 2,
            q + 1 <= ln.stations@.len(),
            repeats_error(ln, q as int) is None,
        decreases ln.stations@.len() - q,
    {
        if line.stations[q] == line.stations[q + 1] {
            proof {
                assert(repeats_error(ln, q + 1) is Some);
                lemma_repeats_error_prefix(ln, q + 1, ln.stations@.len() - 1);
            }
            return Err(InputError::RepeatedStation { line: line.id.clone(), station: line.stations[q].clone() });
        }
        q += 1;
    }
    proof {
        lemma_repeats_clean(ln, ln.stations@.len() - 1);
    }
    let ghost base = corridors_of(sts, ls, li as int);
    let mut p: usize = 0;
    while p < line.stations.len() - 1
        invariant
            repeats_error(ln, ln.stations@.len() - 1) is None,
            forall|r: int| #![trigger ln.stations@[r]] 0 <= r < ln.stations@.len() - 1 ==> ln.stations@[r]@ != ln.stations@[r + 1]@,
            sts == st@,
            ls == lines@,
            li < ls.len(),
            ln == ls[li as int],
            *line == ln,
            ln.stations@.len() >= 2,
            p + 1 <= ln.stations@.len(),
            total_stops(ls, li as int + 1) < u32::MAX,
            total_stops(ls, li as int + 1) == total_stops(ls, li as int) + ln.stations@.len(),
            sts.len() < u32::MAX,
            is_id_index(index@, sts),
            base == corridors_of(sts, ls, li as int),
            pairs_error(sts, ln, p as int) is None,
            graph_nodes(*graph) == Seq::new(sts.len(), |k: int| k as usize),
            graph_edges(*graph) == walk_line(sts, ln, li, base, p as int),
            built_sound(sts, ls, graph_edges(*graph), li as int, p as int),
            graph_edges(*graph).len() <= total_stops(ls, li as int) + p,
        decreases ln.stations@.len() - p,
    {
        let from = &line.stations[p];
        let to = &line.stations[p + 1];
        proof {
            assert(from@ != to@);
        }
        let a = match index.get(from.as_str()) {
            Some(a) => *a,
            None => {
                proof {
                    lemma_pairs_error_prefix(sts, ln, p + 1, ln.stations@.len() - 1);
                }
                return Err(InputError::UnknownStation { line: line.id.clone(), station: from.clone() });
            },
        };
        let b = match index.get(to.as_str()) {
            Some(b) => *b,
            None => {
                proof {
                    lemma_pairs_error_prefix(sts, ln, p + 1, ln.stations@.len() - 1);
                }
                return Err(InputError::UnknownStation { line: line.id.clone(), station: to.clone() });
            },
        };
        proof {
            lemma_find_station(sts, from@);
            lemma_find_station(sts, to@);
            assert(a != b);
            assert(pairs_error(sts, ln, p + 1) is None);
            assert(ls[li as int] == ln);
        }
        let ghost before = graph_edges(*graph);
        match graph_find_edge(graph, a, b) {
            Some(e) => {
                let mut set = match graph_edge_weight(graph, e) {
                    Some(w) => w.clone(),
                    None => BTreeSet::new(),
                };
                set.insert(li);
                let e2 = graph_update_edge(graph, a, b, set);
                proof {
                    lemma_add_existing(sts, ls, before, li, p as int, a, b, e as int);
                    lemma_unique_joiner(before, e as int, e2 as int, a, b);
                }
            },
            None => {
                let mut set = BTreeSet::new();
                set.insert(li);
                assert(set@ =~= set![li]);
                graph_add_edge(graph, a, b, set);
                proof {
                    lemma_add_new(sts, ls, before, li, p as int, a, b);
                }
            },
        }
        p += 1;
    }
    proof {
        lemma_total_stops_grows(ls, li as int, li as int + 1);
        assert forall|l: int, q: int|
            #![trigger ls[l].stations@[q]]
            0 <= l < li + 1 && 0 <= q < ls[l].stations@.len() - 1 implies exists|e: int|
                0 <= e < graph_edges(*graph).len() && joins(
                    #[trigger] graph_edges(*graph)[e],
                    idx(sts, ls[l].stations@[q]),
                    idx(sts, ls[l].stations@[q + 1]),
                ) by {
            if l == li {
                assert(ls[l].stations@[q] == ln.stations@[q]);
            }
        }
    }
    Ok(())
}

/// The stations indexed by id, or the first station whose id an earlier
/// station already has.
fn index_stations(st: &Vec<Station>) -> (r: Result<StringHashMap<usize>, usize>)
    ensures
        r matches Ok(index) ==> duplicate_station(st@) < 0 && is_id_index(index@, st@),
        r matches Err(i) ==> i == duplicate_station(st@) && i < st@.len(),
{
    broadcast use vstd::string::group_string_axioms;

    let ghost sts = st@;
    let mut index: StringHashMap<usize> = StringHashMap::new();
    let mut i: usize = 0;
    while i < st.len()
        invariant
            sts == st@,
            i <= sts.len(),
            duplicate_station(sts.take(i as int)) == -1,
            is_id_index(index@, sts.take(i as int)),
        decreases sts.len() - i,
    {
        let ghost pre = sts.take(i as int);
        let ghost next = sts.take(i + 1);
        proof {
            assert(next.drop_last() =~= pre);
            assert(next.last() == sts[i as int]);
        }
        if index.contains_key(st[i].id.as_str()) {
            proof {
                assert(find_station(pre, sts[i as int].id@) >= 0);
                assert(duplicate_station(next) == i);
                lemma_duplicate_station_prefix(sts, i + 1);
            }
            return Err(i);
        }
        let ghost before = index@;
        index.insert(st[i].id.clone(), i);
        proof {
            assert forall|id: Seq<char>| #[trigger] index@.contains_key(id) <==> find_station(next, id) >= 0 by {
                if id != sts[i as int].id@ {
                    assert(before.contains_key(id) == index@.contains_key(id));
                }
            }
            assert forall|id: Seq<char>| #[trigger] index@.contains_key(id) implies index@[id] == find_station(
                next,
                id,
            ) by {
                if id != sts[i as int].id@ {
                    assert(before.contains_key(id));
                }
            }
        }
        i += 1;
    }
    assert(sts.take(sts.len() as int) =~= sts);
    Ok(index)
}

/// The first line whose id an earlier line already has.
fn first_duplicate_line(ls: &Vec<Line>) -> (r: Option<usize>)
    ensures
        r matches Some(i) ==> i == duplicate_line(ls@) && i < ls@.len(),
        r is None ==> duplicate_line(ls@) < 0,
{
    broadcast use vstd::string::group_string_axioms;

    let ghost s = ls@;
    let mut seen = StringHashSet::new();
    let mut i: usize = 0;
    while i < ls.len()
        invariant
            s == ls@,
            i <= s.len(),
            duplicate_line(s.take(i as int)) == -1,
            forall|id: Seq<char>| #[trigger] seen@.contains(id) <==> find_line(s.take(i as int), id) >= 0,
        decreases s.len() - i,
    {
        let ghost pre = s.take(i as int);
        let ghost next = s.take(i + 1);
        proof {
            assert(next.drop_last() =~= pre);
            assert(next.last() == s[i as int]);
        }
        let ghost before = seen@;
        if !seen.insert(ls[i].id.clone()) {
            proof {
                assert(before.contains(s[i as int].id@));
                assert(duplicate_line(next) == i);
                lemma_duplicate_line_prefix(s, i + 1);
            }
            return Some(i);
        }
        proof {
            assert forall|id: Seq<char>| #[trigger] seen@.contains(id) <==> find_line(next, id) >= 0 by {
                if id != s[i as int].id@ {
                    assert(before.contains(id) == seen@.contains(id));
                }
            }
        }
        i += 1;
    }
    assert(s.take(s.len() as int) =~= s);
    None
}

impl Network {
    /// Validate an input file and build the graph.
    ///
    /// Checks run in a fixed order — duplicate station ids, duplicate line ids,
    /// then per line in input order: too short, consecutive repeat, unknown
    /// reference — so an input violating two conditions always reports the same
    /// one. A station referenced by no line is legal.
    ///
    /// Takes the input by value: the network keeps its stations and lines.
    pub fn from_input(input: InputSchema) -> (r: Result<Network, InputError>)
        requires
            input_fits(input),
        ensures
            r matches Err(e) ==> input_error(input.stations@, input.lines@) == Some(e),
            r is Ok <==> input_error(input.stations@, input.lines@) is None,
            r matches Ok(net) ==> {
                &&& net.wf()
                &&& net.station_seq() == input.stations@
                &&& net.line_seq() == input.lines@
                &&& net.corridor_seq() == corridors_of(
                    input.stations@,
                    input.lines@,
                    input.lines@.len() as int,
                )
            },
    {
        let st = &input.stations;
        let lines = &input.lines;
        let ghost sts = st@;
        let ghost ls = lines@;

        let index_by_id = match index_stations(st) {
            Ok(index) => index,
            Err(i) => {
                return Err(InputError::DuplicateStation { id: st[i].id.clone() });
            },
        };
        match first_duplicate_line(lines) {
            Some(i) => {
                return Err(InputError::DuplicateLine { id: lines[i].id.clone() });
            },
            None => {},
        }

        // One node per station, in input order.
        let mut graph = graph_new();
        let mut n: usize = 0;
        while n < st.len()
            invariant
                sts == st@,
                sts.len() < u32::MAX,
                n <= sts.len(),
                graph_nodes(graph) == Seq::new(n as nat, |k: int| k as usize),
                graph_edges(graph) == Seq::<(usize, usize, Set<usize>)>::empty(),
            decreases sts.len() - n,
        {
            graph_add_node(&mut graph, n);
            n += 1;
            assert(graph_nodes(graph) =~= Seq::new(n as nat, |k: int| k as usize));
        }

        // The lines, pair by pair.
        let mut li: usize = 0;
        while li < lines.len()
            invariant
                sts == st@,
                ls == lines@,
                sts == input.stations@,
                ls == input.lines@,
                input_fits(input),
                li <= ls.len(),
                duplicate_station(sts) < 0,
                duplicate_line(ls) < 0,
                is_id_index(index_by_id@, sts),
                lines_error(sts, ls, li as int) is None,
                graph_nodes(graph) == Seq::new(sts.len(), |k: int| k as usize),
                graph_edges(graph) == corridors_of(sts, ls, li as int),
                built_sound(sts, ls, graph_edges(graph), li as int, 0),
                graph_edges(graph).len() <= total_stops(ls, li as int),
            decreases ls.len() - li,
        {
            proof {
                lemma_total_stops_grows(ls, li as int + 1, ls.len() as int);
            }
            match add_line_corridors(&mut graph, st, &index_by_id, lines, li) {
                Err(e) => {
                    proof {
                        assert(lines_error(sts, ls, li + 1) == Some(e));
                        lemma_lines_error_prefix(sts, ls, li + 1, ls.len() as int);
                        assert(input_error(sts, ls) == Some(e));
                    }
                    return Err(e);
                },
                Ok(()) => {},
            }
            li += 1;
        }
        proof {
            lemma_total_stops_grows(ls, li as int, ls.len() as int);
            assert(corridors_sound(sts, ls, graph_edges(graph)));
        }
        Ok(Network { stations: input.stations, lines: input.lines, graph, index_by_id })
    }
}

} // verus!

verus! {

/// Whether a corridor meets station `s`.
pub open spec fn meets(s: usize) -> spec_fn((usize, usize, Set<usize>)) -> bool {
    |e: (usize, usize, Set<usize>)| e.0 == s || e.1 == s
}

/// The number of corridors in `edges` meeting at `s`.
pub open spec fn degree_of(edges: Seq<(usize, usize, Set<usize>)>, s: usize) -> nat {
    edges.filter(meets(s)).len()
}

/// The lines over any corridor in `edges` meeting at `s`.
pub open spec fn lines_meeting(edges: Seq<(usize, usize, Set<usize>)>, s: usize) -> Set<usize> {
    Set::new(
        |l: usize|
            exists|e: int| 0 <= e < edges.len() && (edges[e].0 == s || edges[e].1 == s) && #[trigger] edges[e].2.contains(l),
    )
}

proof fn lemma_filter_step(edges: Seq<(usize, usize, Set<usize>)>, s: usize, n: int)
    requires
        0 <= n < edges.len(),
    ensures
        edges.take(n + 1).filter(meets(s)).len() == edges.take(n).filter(meets(s)).len() + if edges[n].0 == s || edges[n].1 == s {
            1int
        } else {
            0int
        },
{
    reveal(Seq::filter);
    assert(edges.take(n + 1).drop_last() =~= edges.take(n));
    assert(edges.take(n + 1).last() == edges[n]);
}

impl Network {
    /// Stations in input-file order.
    pub fn stations(&self) -> (r: &[Station])
        ensures
            r@ == self.station_seq(),
    {
        self.stations.as_slice()
    }

    /// Lines in input-file order.
    pub fn lines(&self) -> (r: &[Line])
        ensures
            r@ == self.line_seq(),
    {
        self.lines.as_slice()
    }

    /// The corridor graph.
    pub fn graph(&self) -> (r: &CorridorGraph)
        ensures
            graph_edges(*r) == self.corridor_seq(),
            self.wf() ==> graph_nodes(*r) == Seq::new(self.station_seq().len(), |i: int| i as usize),
    {
        &self.graph
    }

    /// The deduped edge count: corridors, not line-segments.
    pub fn edge_count(&self) -> (n: usize)
        ensures
            n == self.corridor_seq().len(),
    {
        graph_edge_count(&self.graph)
    }

    /// The index of a station id, or `None`.
    pub fn station_index(&self, id: &str) -> (r: Option<usize>)
        requires
            self.wf(),
        ensures
            r matches Some(i) ==> i as int == find_station(self.station_seq(), id@),
            r is None ==> find_station(self.station_seq(), id@) < 0,
    {
        match self.index_by_id.get(id) {
            Some(i) => Some(*i),
            None => None,
        }
    }

    /// The corridors, as pairs of station indices, in edge-index order.
    pub fn corridors(&self) -> (r: Vec<(usize, usize)>)
        requires
            self.wf(),
        ensures
            r@.len() == self.corridor_seq().len(),
            forall|e: int|
                0 <= e < r@.len() ==> #[trigger] r@[e] == (self.corridor_seq()[e].0, self.corridor_seq()[e].1),
    {
        let n = graph_edge_count(&self.graph);
        let mut r: Vec<(usize, usize)> = Vec::new();
        let mut e: usize = 0;
        while e < n
            invariant
                self.wf(),
                n == self.corridor_seq().len(),
                e <= n,
                r@.len() == e,
                forall|k: int|
                    0 <= k < e ==> #[trigger] r@[k] == (self.corridor_seq()[k].0, self.corridor_seq()[k].1),
            decreases n - e,
        {
            match graph_edge_endpoints(&self.graph, e) {
                Some(pair) => r.push(pair),
                None => {},
            }
            e += 1;
        }
        r
    }

    /// The graph node of a station. Nodes are added in station order, so a
    /// station's node is its station index ([`Network::graph`] states it).
    pub fn node(&self, station: usize) -> (r: usize)
        ensures
            r == station,
    {
        station
    }

    /// The number of corridors meeting at a station. Two lines sharing a
    /// corridor count once, which is what makes degree 2 mean "passes through".
    pub fn degree(&self, station: usize) -> (d: usize)
        requires
            self.wf(),
        ensures
            d == degree_of(self.corridor_seq(), station),
    {
        let ghost edges = self.corridor_seq();
        let n = graph_edge_count(&self.graph);
        let mut d: usize = 0;
        let mut e: usize = 0;
        while e < n
            invariant
                self.wf(),
                edges == self.corridor_seq(),
                n == edges.len(),
                e <= n,
                d == edges.take(e as int).filter(meets(station)).len(),
                d <= e,
            decreases n - e,
        {
            proof {
                lemma_filter_step(edges, station, e as int);
            }
            match graph_edge_endpoints(&self.graph, e) {
                Some((a, b)) => {
                    if a == station || b == station {
                        d += 1;
                    }
                },
                None => {},
            }
            e += 1;
        }
        assert(edges.take(n as int) =~= edges);
        d
    }

    /// The lines crossing the corridor between two stations, or `None` when
    /// they are not adjacent.
    pub fn lines_between(&self, a: usize, b: usize) -> (r: Option<&LineSet>)
        requires
            self.wf(),
            a < self.station_seq().len(),
            b < self.station_seq().len(),
        ensures
            r is None <==> !(exists|e: int|
                0 <= e < self.corridor_seq().len() && joins(#[trigger] self.corridor_seq()[e], a, b)),
            r matches Some(w) ==> exists|e: int|
                0 <= e < self.corridor_seq().len() && joins(#[trigger] self.corridor_seq()[e], a, b)
                    && w@ == self.corridor_seq()[e].2,
    {
        match graph_find_edge(&self.graph, a, b) {
            Some(e) => {
                let w = graph_edge_weight(&self.graph, e);
                proof {
                    assert(joins(self.corridor_seq()[e as int], a, b));
                }
                w
            },
            None => None,
        }
    }

    /// The lines over corridor `e`.
    pub fn corridor_lines(&self, e: usize) -> (r: &LineSet)
        requires
            self.wf(),
            e < self.corridor_seq().len(),
        ensures
            r@ == self.corridor_seq()[e as int].2,
    {
        graph_edge_weight(&self.graph, e).unwrap()
    }

    /// The union of the line sets on a station's incident corridors.
    #[verifier::spinoff_prover]
    pub fn lines_at_station(&self, station: usize) -> (r: LineSet)
        requires
            self.wf(),
        ensures
            r@ == lines_meeting(self.corridor_seq(), station),
    {
        let ghost edges = self.corridor_seq();
        proof {
            self.lemma_wf();
        }
        let n = graph_edge_count(&self.graph);
        let nl = self.lines.len();
        let mut r: LineSet = BTreeSet::new();
        let mut e: usize = 0;
        while e < n
            invariant
                self.wf(),
                edges == self.corridor_seq(),
                corridors_sound(self.station_seq(), self.line_seq(), edges),
                n == edges.len(),
                nl == self.line_seq().len(),
                e <= n,
                forall|l: usize|
                    r@.contains(l) <==> exists|k: int|
                        0 <= k < e && (edges[k].0 == station || edges[k].1 == station) && #[trigger] edges[k].2.contains(l),
            decreases n - e,
        {
            let ghost before = r@;
            match graph_edge_endpoints(&self.graph, e) {
                Some((a, b)) => {
                    if a == station || b == station {
                        match graph_edge_weight(&self.graph, e) {
                            Some(w) => {
                                let mut l: usize = 0;
                                while l < nl
                                    invariant
                                        e < n,
                                        n == edges.len(),
                                        nl == self.line_seq().len(),
                                        corridors_sound(self.station_seq(), self.line_seq(), edges),
                                        w@ == edges[e as int].2,
                                        l <= nl,
                                        forall|x: usize|
                                            r@.contains(x) <==> (before.contains(x) || (x < l && w@.contains(x))),
                                    decreases nl - l,
                                {
                                    let ghost rr = r@;
                                    if w.contains(&l) {
                                        assert(w@.contains(l));
                                        r.insert(l);
                                        assert(r@ == rr.insert(l));
                                    } else {
                                        assert(!w@.contains(l));
                                    }
                                    l += 1;
                                }
                                proof {
                                    assert forall|x: usize| w@.contains(x) implies x < nl by {
                                        assert(edges[e as int].2.contains(x));
                                    }
                                }
                            },
                            None => {},
                        }
                    }
                },
                None => {},
            }
            proof {
                let inc = edges[e as int].0 == station || edges[e as int].1 == station;
                assert(inc ==> r@ =~= before.union(edges[e as int].2));
                assert(!inc ==> r@ =~= before);
                assert forall|x: usize|
                    r@.contains(x) <==> exists|k: int|
                        0 <= k < e + 1 && (edges[k].0 == station || edges[k].1 == station) && #[trigger] edges[k].2.contains(x) by {
                    if r@.contains(x) && !before.contains(x) {
                        assert(edges[e as int].2.contains(x));
                    }
                }
            }
            e += 1;
        }
        proof {
            assert(r@ =~= lines_meeting(edges, station));
        }
        r
    }
}

} // verus!
