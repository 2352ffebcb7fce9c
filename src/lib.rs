//! A directed acyclic graph whose node depths stay within `ceil(log2(n))`,
//! with a three-stage observe / consume / watch pipeline run over its nodes.

pub mod bound;
pub mod error;
pub mod graph;
pub mod dag;
pub mod pipeline;
pub mod design;
pub mod topology;
