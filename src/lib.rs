//! A bicycle routing engine over street data derived from OpenStreetMap.
//!
//! The library holds the verified core: way labels and the tag rules that
//! derive them, the cost model, the in-memory edge store, snapping, and the
//! best-first traversal that produces routes and bounded explorations.
pub mod compression;
pub mod cost;
pub mod error;
pub mod etl;
pub mod geojson;
pub mod graph;
pub mod labels;
pub mod mapping;
pub mod navigation;
pub mod search;
pub mod snap;
pub mod text;
pub mod traversal;
