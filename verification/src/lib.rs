//! A small single-node SQL database engine: a verified core.
//!
//! The crate is organised as the engine's data flows:
//! - [`schema`] holds the catalog entities: rows and tables;
//! - [`text`] holds the string and integer primitives the other modules share;
//! - [`parser`] lifts one SQL statement into a typed syntax tree;
//! - [`query`] lowers the tree into a costed execution plan and validates it;
//! - [`storage_engine`] owns the tables, enforces the schema and primary-key
//!   invariants, and tracks metadata counters;
//! - [`snapshot`] round-trips the whole engine through a binary snapshot;
//! - [`executor`] interprets a statement against the storage engine.

pub mod executor;
pub mod parser;
pub mod query;
pub mod schema;
pub mod snapshot;
pub mod storage_engine;
pub mod text;
