//! The candidates of a stop and the hops between stops.

use crate::geometry::Point;
use crate::graph::EdgeIndex;
use vstd::prelude::*;

verus! {

/// The whole length of an edge, in the unit in which progress along an edge is counted.
pub const WHOLE_EDGE: u32 = 1_000_000_000;

/// A place on the network where a trip may serve a stop, or the stop itself if `edge` is none.
#[derive(Clone, Debug)]
pub struct EdgeCand {
    pub edge: Option<EdgeIndex>,
    pub point: Option<Point>,
    /// The penalty for using the candidate, in units of `1e-8`.
    pub pen: u64,
    /// The time at the stop, in nanoseconds.
    pub time: i64,
    /// How far along the edge the place lies, `WHOLE_EDGE` being its end.
    pub progr: u32,
    /// For a departure, the candidates of the arrival from which it may be reached.
    pub dep_prede: Vec<usize>,
}

/// The way between two stops.
#[derive(Debug)]
pub struct EdgeHop {
    /// The edges, from the start edge to the end edge. None if no way is known.
    pub edges: Vec<EdgeIndex>,
    pub start_edge: Option<EdgeIndex>,
    pub end_edge: Option<EdgeIndex>,
    pub start_progr: u32,
    pub end_progr: u32,
    pub start_point: Option<Point>,
    pub end_point: Option<Point>,
}

pub type EdgeCandGroup = Vec<EdgeCand>;

pub type EdgeCandMap = Vec<EdgeCandGroup>;

pub type EdgeListHops = Vec<EdgeHop>;

} // verus!
