//! A verified core for a card board: rectangular cards on an integer plane,
//! range queries over their rectangles, and a directed labeled relation
//! graph between cards that is kept acyclic at all times.

pub mod codec;
pub mod graph;
pub mod models;
pub mod store;
pub mod errors;
pub mod response;
pub mod tags;
pub mod geometry;
