//! A verified columnar shredding library: schema analysis for nested
//! schemas, encoding of nested values into flat per-column buffers and
//! back, an order-preserving multi-column sort-key codec, and the
//! decision logic of a size-bounded external sort/merge pipeline.

pub mod error;
pub mod reconstruct;
pub mod schema;
pub mod shred;
pub mod sort;
pub mod sortkey;
pub mod store;
pub mod value;
pub mod write;
