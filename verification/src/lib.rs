//! Data lineage: extract how data assets connect, persist the graph,
//! validate it and render it.
//!
//! - `graph`, `strand`: nodes, edges and the lineage graph with cycle
//!   detection.
//! - `sql`, `shaver`: lineage from SQL sources and the registry of shavers.
//! - `interlace`: the transitive edges implied by staged edges.
//! - `store`, `cell`, `query`, `messages`: the logic of the metadata store,
//!   its query output and what the commands report.
//! - `render`, `html`, `mesh`: SVG drawings, the HTML page and the browser
//!   visualiser's settings.
//! - `text`: character-level helpers shared by the others.
pub mod cell;
pub mod graph;
pub mod html;
pub mod interlace;
pub mod mesh;
pub mod messages;
pub mod query;
pub mod render;
pub mod shaver;
pub mod sql;
pub mod store;
pub mod strand;
pub mod text;
