//! A 16x16 mesh of cells that route around failed neighbours: the grid model,
//! its seeded generator, failure patterns, shortest-path routing and the
//! bookkeeping of routing experiments.

pub mod episode;
pub mod failures;
pub mod grid;
pub mod local;
pub mod metrics;
pub mod rng;
pub mod routing;
