//! Device telemetry sampling and a path query language over snapshot trees.

pub mod cpu;
pub mod readings;
pub mod resolve;
pub mod sampler;
pub mod text;
pub mod tree;
pub mod types;
