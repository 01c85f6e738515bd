//! An embedded document-oriented key-value database with a SQL-like query
//! frontend. Queries are tokenized, parsed, compiled to a linear program and
//! run by a small virtual machine against named storages whose JSON fields
//! can be indexed.

pub mod error;
pub mod json;
pub mod index;
pub mod text;
pub mod database;
pub mod sql;
pub mod witchvm_kv;
pub mod query_handler;
pub mod laws;
pub mod graph;
