//! A similarity graph over named time series.
//!
//! The crate ingests rows of tabular data, accumulates one observation
//! sequence per entity key, and maintains an undirected weighted graph whose
//! edges connect entities with strongly correlated sequences.  Structural
//! analysis (degree distribution, highest-degree nodes) is provided over the
//! finished graph.

pub mod dataset;
pub mod graph;
