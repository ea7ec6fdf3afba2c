//! Reachability queries over directed graphs whose nodes carry labels.
//!
//! The library maps labels to dense node ids, splits the graph into strongly
//! connected components with Kosaraju's two-pass depth-first search, and reports
//! the components that no other component enters, apart from the start's own.
pub mod graph;
pub mod labels;
pub mod postorder;
pub mod scc;
pub mod roots;
pub mod query;
