//! A surging object di-graph: an in-memory store of vertices joined by
//! labelled edges, where a vertex whose data has been read and which no
//! other vertex points to any more is reclaimed on its own.
pub mod graph;
pub mod clone;
pub mod gc;
pub mod hex;
pub mod label;
pub mod laws;
pub mod ops;
pub mod slice;

pub use graph::{Alert, Edge, Sodg, SodgError, Vertex};
pub use hex::Hex;
pub use label::Label;
