//! Incremental synchronisation of a file tree: the verified decisions of the
//! detect, negotiate, encode, upload and commit pipeline.

pub mod baseline;
pub mod channel;
pub mod decimal;
pub mod detect;
pub mod encode;
pub mod negotiate;
pub mod path;
pub mod pipeline;
pub mod scan;
pub mod snapshot;
pub mod text;
