//! Bounded enumeration of closed walks through a start vertex of a directed
//! multigraph, together with the assembly of the subgraph that the start
//! vertex is weakly connected to.
//!
//! [`create_graph`] builds a [`Graph`] from raw edge records around a seed
//! node, and [`find_elementary_cycles`] lists the closed walks through a node
//! of it; a [`CycleEnumerator`] hands out the same walks one at a time. What
//! they compute is defined in [`builder`] and [`search`]; what holds of it is
//! proved in [`reach`] and [`walks`].

pub mod builder;
pub mod enumerator;
pub mod graph;
pub mod reach;
pub mod search;
pub mod walks;

pub use builder::create_graph;
pub use enumerator::CycleEnumerator;
pub use graph::{Edge, Graph, Node};
pub use search::{dfs1, find_elementary_cycles, SearchError};
