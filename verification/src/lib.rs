//! Quasar: the arithmetic, the data pipeline and the decisions behind a small
//! hybrid language model, each stated as a contract and proved.

pub mod config;
pub mod data;
pub mod decimal;
pub mod eval;
pub mod generate;
pub mod json;
pub mod math;
pub mod model;
pub mod preset;
pub mod probe;
pub mod prompts;
pub mod text;
pub mod train;
