//! codescratch — a local code-structure graph for AI agents: extraction facts,
//! honest edge resolution, trust axes, change impact and graph analyses.

pub mod text;
pub mod model;
pub mod module;
pub mod resolve;
pub mod changes;
pub mod trust;
pub mod paths;
pub mod walk;
pub mod watch;
pub mod git;
pub mod mcp;
pub mod group;
pub mod scope;
pub mod plugins;
pub mod heuristics;
pub mod blast;
pub mod order;
pub mod analysis;
pub mod communities;
pub mod explore;
pub mod embeddings;
pub mod extract;
pub mod index;
pub mod query;
pub mod host;
pub mod db;
pub mod setup;
