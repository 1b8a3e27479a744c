//! An embeddable, in-process structured-object store.
//!
//! Callers register a record schema, then insert, query, update and delete
//! typed records through a composable query builder.  Each indexable field is
//! backed by an ordered index tree; mutations can be journalled into an
//! append-only log whose replay rebuilds a compacted offset table.

pub mod encoder;
pub mod error;
pub mod item;
pub mod loader;
pub mod memory;
pub mod persistence;
pub mod query;
pub mod schema;
pub mod store;
pub mod tree;
pub mod value;

pub use value::DataType;
pub use value::Id;
pub use value::Value;
pub use query::Query;
pub use error::Error;
