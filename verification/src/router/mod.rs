//! Routing of whole trips along candidate edges of their stops.

pub mod dag;
pub mod edge_search;
pub mod hop_cache;
pub mod hops;
pub mod hops_fast;
pub mod router_impl;
pub mod trip_trie;
pub mod types;
pub mod weights;
