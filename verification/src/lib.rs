//! An embeddable, schema-typed, in-memory table store with a line-oriented,
//! escaping-aware text codec.
//!
//! A [`table::Table`] holds a fixed list of named, typed columns (some marked
//! as key columns) and an ordered list of rows.  Rows are inserted and removed
//! under schema and key-uniqueness checks, a table can be projected onto a
//! subset of its columns, and the whole table round-trips through a single
//! text blob via [`serializer::Serializable`] and `Table::deserialize`.

pub mod column;
pub mod deserialization;
pub mod entry;
pub mod errors;
pub mod laws;
pub mod serializer;
pub mod table;
pub mod text;
pub mod types;
pub mod values;
