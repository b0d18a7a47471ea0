//! A compact, read-only key-value store: a builder that serializes a sorted
//! stream of byte-string keys and values into an index (a finite-state
//! transducer holding byte offsets) and a flat value blob, and a cache that
//! navigates the index by key: point lookup, range streaming, and the
//! bounded-key searches `first`, `last` and `last_le`.

pub mod order;
pub mod fst_ext;
pub mod model;
pub mod error;
pub mod builder;
pub mod cache;
pub mod laws;

pub use builder::Builder;
pub use cache::Cache;
pub use cache::KeyBound;
pub use error::StoreError;
