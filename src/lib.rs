//! Construction of a hierarchical navigable small-world (HNSW) proximity graph
//! over a fixed set of integer vectors, with every step of the construction
//! proved against its contract.

pub mod error;
pub mod storage;
pub mod order;
pub mod graph;
pub mod select;
pub mod search;
pub mod level;
pub mod builder;
mod random;

pub use builder::{HNSWBuilder, HNSW};
pub use error::HnswError;
pub use graph::GraphBuilder;
pub use level::{ceil_log, level_for_draw};
pub use search::beam_search;
pub use select::{select_neighbors, select_neighbors_heuristic};
pub use storage::InMemoryVectorStorage;
