pub mod graph;
pub mod paths;
pub mod cycle;
pub mod sort;
