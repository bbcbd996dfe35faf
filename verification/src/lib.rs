//! A task-runner text pipeline: a segment scanner, two desugaring rewrites
//! (groups and glob dependencies), and a reachability-based resolver that
//! turns named script segments into one concatenated script.

pub mod chars;
pub mod config;
pub mod dependencies_collector;
pub mod glob_ext;
pub mod glob_pattern;
pub mod graph;
pub mod groups;
pub mod groups_desugarer;
pub mod printer;
pub mod syntax;
pub mod node;
pub mod segments_scanner;
