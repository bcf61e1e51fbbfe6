//! The objects of a map extract.

use crate::geometry::Point;
use crate::tags::Tags;
use vstd::prelude::*;

verus! {

/// A reference to a map object.
#[derive(Debug, Clone, Copy, PartialEq, Eq, Structural)]
pub enum OsmId {
    Node(i64),
    Way(i64),
    Relation(i64),
}

/// A node of a map extract.
#[derive(Debug)]
pub struct OsmNode {
    pub id: i64,
    pub point: Point,
    pub tags: Tags,
}

/// A way of a map extract: the identifiers of its nodes, in order.
#[derive(Debug)]
pub struct Way {
    pub id: i64,
    pub nodes: Vec<i64>,
    pub tags: Tags,
}

/// A member of a relation.
#[derive(Debug)]
pub struct Member {
    pub member: OsmId,
    pub role: String,
}

/// A relation of a map extract.
#[derive(Debug)]
pub struct Relation {
    pub id: i64,
    pub members: Vec<Member>,
    pub tags: Tags,
}

/// An object of a map extract.
#[derive(Debug)]
pub enum OsmObj {
    Node(OsmNode),
    Way(Way),
    Relation(Relation),
}

} // verus!
