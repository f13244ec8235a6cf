//! Road-network graph construction, cell-keyed snapping and k-path routing.
//!
//! - `graphbuild` turns OSM nodes and highway ways into the intersection graph
//!   (`graph`), with the cell polylines of its edges.
//! - `snapbuild` groups the edges into snap files and buckets by cell, and `snap`
//!   finds the nearest edge to a cell.
//! - `search` finds a least-cost route over the edge-dual of the graph, and
//!   `route` finds up to k alternate routes with it.
//! - `cell` holds the cell hierarchy, `order` the sorting the builds rely on.

pub mod cell;
pub mod clock;
pub mod graph;
pub mod route;
pub mod search;
pub mod order;
pub mod snap;
pub mod snapbuild;
pub mod graphbuild;
pub mod tiles;
pub mod model;
pub mod source;
