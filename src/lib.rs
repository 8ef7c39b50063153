//! Directory size visualisation: a scanned file tree, its aggregated sizes,
//! a slice-and-dice treemap layout over integer canvas units, the selection
//! of the largest entries for a proportional chart, and a size formatter.
pub mod tree;
pub mod rank;
pub mod layout;
pub mod chart;
pub mod error;
pub mod builder;
pub mod format;
