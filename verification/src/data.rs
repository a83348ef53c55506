//! From text to batches.

pub mod batch;
pub mod corpus;
pub mod description;
pub mod path;
pub mod prepare;
pub mod shard;
pub mod tokenizer;
