//! duflow core: the flow-graph model, KDL reading, lint, queries, diff and UI export.

pub mod text;
pub mod model;
pub mod strset;
pub mod table;
pub mod expr;
pub mod parse;
pub mod graph;
pub mod lint;
pub mod lint_node;
pub mod lint_defs;
pub mod lint_src;
pub mod diff;
pub mod query;
pub mod brief;
pub mod prereq;
pub mod export;
pub mod edit;
pub mod ws;
pub mod select;
pub mod changes;
pub mod summary;
pub mod cli;
pub mod ui;
pub mod hook;
