//! A small simulation of ants: disc-shaped bodies and pheromone markers, a
//! decaying scent field, path charting over a sampled grid, and a rule
//! engine that drives each ant once per tick.

pub mod geometry;
pub mod shape;
pub mod ant;
pub mod world;
pub mod chart;
pub mod decide;
