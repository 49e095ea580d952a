//! Physical-execution core of a columnar query engine: segmented ingestion,
//! string-to-number coercion, and a row-limit operator, with verified
//! contracts over mathematical models of the data.

pub mod cast;
pub mod ingest;
pub mod limit;
pub mod schema;
