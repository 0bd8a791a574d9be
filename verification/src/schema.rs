//! The schema resolver: a tree to typed records.
//!
//! A field that is absent takes its default. A field that is present must
//! convert to its declared shape, or resolution fails with a
//! `SchemaMismatch` that names the field, the shape expected and the shape
//! found; nothing is coerced. The tree is only read.

pub mod convert;
pub mod fields;
pub mod lookup;
pub mod records;
