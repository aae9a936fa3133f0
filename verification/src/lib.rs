//! Building a network graph from captured TCP connection snapshots.

pub mod text;
pub mod address;
pub mod order;
pub mod model;
pub mod seqs;
pub mod merge;
pub mod ipmap;
pub mod edges;
pub mod graph;
pub mod trim;
pub mod capture;
pub mod cli;
pub mod laws;
pub mod report;
pub mod unmerged;
