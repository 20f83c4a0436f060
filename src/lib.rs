//! An in-process document store: documents keyed by string, with
//! equality filters, field sorting and offset pagination.
pub mod value;
pub mod query;
pub mod store;

pub use query::Query;
pub use store::{DataStore, FindResults, QueryResultItem, StoreError};
pub use value::Value;
