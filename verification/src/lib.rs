//! Planning and pathfinding core for a grid-based terrain simulation.
//!
//! The library models a multi-layer weighted graph (terrain cells plus
//! directed lift edges), finds shortest paths within and across layers, and
//! drives a bounded-depth lookahead that alternates "ride a lift up" and
//! "ski down to a lift" decisions.

pub mod asset_manager;
pub mod behavior_tree;
pub mod bindable;
pub mod circular_buffer;
pub mod graph;
pub mod grid;
pub mod node_map;
pub mod pgm_parser;
pub mod pqueue;
pub mod follow_path;
pub mod search;
pub mod shader_meta;
pub mod terrain;
