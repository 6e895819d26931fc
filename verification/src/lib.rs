//! Hierarchical aggregation trees for flow (Sankey) diagrams.
//!
//! Flat classification records — each a (chapter, sub-chapter, leaf title)
//! triple with an integer count — are grouped into a three-level tree,
//! aggregate values are rolled up bottom-up, low-magnitude branches can be
//! coalesced into synthetic "Other" nodes, and the finished tree is emitted
//! as an ordered list of flow edges.

pub mod builder;
pub mod coalesce;
pub mod counties;
pub mod laws;
pub mod rollup;
pub mod serialize;
pub mod sort;
pub mod tree;
pub mod unique;
