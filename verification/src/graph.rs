//! Graph queries.

pub mod cypher;
