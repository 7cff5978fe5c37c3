//! Typed result decoding and join flattening over a raw row stream.
//!
//! A relational client hands back rows as arrays of nullable text cells,
//! together with per-column metadata (column name and owning table).  This
//! crate turns that stream into typed records: a per-row ledger of
//! not-yet-claimed columns resolves names to cell positions with
//! consume-once semantics, a splitter partitions a row into the two sides
//! of a join, and a grouping combinator flattens a LEFT JOIN's
//! duplicated-parent row stream into `(parent, children)` pairs in one
//! forward pass.

pub mod dsn;
pub mod error;
pub mod fields;
pub mod join;
pub mod mapper;
pub mod num;
pub mod row;
pub mod split;
