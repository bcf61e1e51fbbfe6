//! Matching of transit trips to a street and rail network.

use vstd::prelude::*;

pub mod agencies;
pub mod batches;
pub mod collapse;
pub mod color;
pub mod components;
pub mod edge_attrs;
pub mod edge_shape;
pub mod finish;
pub mod geometry;
pub mod graph;
pub mod grouping;
pub mod gtfs_load;
pub mod hashed;
pub mod heap;
pub mod hilbert;
pub mod id_list;
pub mod light_osm;
pub mod lines;
pub mod matcher;
pub mod mots;
pub mod multi_target;
pub mod network;
pub mod network_build;
pub mod network_routes;
pub mod osm;
pub mod osm_builder;
pub mod osm_filter;
pub mod osm_load;
pub mod osm_profile;
pub mod osm_split;
pub mod pathfinding;
pub mod profiles;
pub mod records;
pub mod resources;
pub mod route_color;
pub mod router;
pub mod rules;
pub mod search;
pub mod segment_matcher;
pub mod sequence;
pub mod shape_ids;
pub mod snapping;
pub mod tables;
pub mod tags;
pub mod text;
pub mod tile;
pub mod tile_graph;
pub mod tile_loader;

verus! {

} // verus!
