//! Dependency-graph reporting for the `km` code-metrics tool: the command-line
//! argument model, the ordering of resolved imports, the ordering and selection of
//! per-file dependency entries, the Go module lookup, the tabular report layout and
//! the Graphviz DOT export.

pub mod cli;
pub mod dot;
pub mod edges;
pub mod gomod;
pub mod imports;
pub mod model;
pub mod ranking;
pub mod report;
pub mod text;
