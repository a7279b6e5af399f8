//! Objects: the nodes of a graph, reached through their handles.
pub use crate::graph::{Connection, ConnectionPair, Error, Object, ObjectPosition};
