//! Llika: a transit network in, a schematic map out.
//!
//! This crate holds the integer heart of the pipeline: the grid the stations are
//! snapped onto, the exact geometry of cells, the validated network model, the
//! structural moves the layout search makes, the run decomposition the bundling
//! renderer draws from, and the GTFS topology import.
//!
//! Everything here is verified, except the calls into `petgraph` that hold
//! the corridor graph: those sit behind the trusted wrappers of [`graph`],
//! whose contracts state what each call does. Work on real numbers
//! (projection, the floating-point cost criteria, the SVG) sits around the
//! crate and talks to it through plain values.

pub mod geometry;
pub mod graph;
pub mod grid;
pub mod gtfs;
pub mod layout;
pub mod model;
pub mod render;
