# Llika

A schematic transit-map generator. Stations with real coordinates and lines as
ordered station lists go in; a straight-line, mostly-45-degree poster map comes
out. A second command turns a published GTFS feed into the network file the
first one draws.

The library under `src/` is verified with Verus. Everything it decides is
stated in contracts over mathematical models and proved:

- `geometry` — exact orientation, closed-segment intersection and collinear
  overlap on integer grid cells.
- `grid` — grid cells, the rings of the candidate spiral, and the occupancy that
  keeps one station per cell.
- `model` — validation of a network file and the corridor graph built from it
  (held in a `petgraph` graph behind the trusted wrappers of `graph`).
- `layout` — the candidate moves of the search: the spiral of offsets, the
  angular order of a station's edges, the fold-back test, bridge clusters and
  their rigid translation, and the edge-crossing count.
- `render` — the structure of the drawing: runs of corridors carrying one line
  set, how a closed run is directed, and each station's place in its run.
- `gtfs` — a feed as a topology: platforms collapsed into stations, each route's
  modal trip pattern, and the conversion into a network file with its report.

`app/` is the program around it: reading and writing files, the command line,
the projection from degrees to metres, the real-valued cost criteria, the
hill-climbing loop that weighs them, and the SVG writer.
