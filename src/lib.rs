//! Graphs read from a bracketed edge list, and searches over them.
pub mod cycle;
pub mod graph;
pub mod parse;
pub mod search;
pub mod walks;

pub use cycle::has_cycle;
pub use graph::{
    Edge, Graph, GraphErrorKind, GraphType, InvalidGraphError, UnitWeightedGraph, WeightedGraph,
};
pub use parse::{parse_array, ArrParseError, ArrParseErrorKind};
pub use search::{find_distance, find_path, topological_sort, SearchType};
