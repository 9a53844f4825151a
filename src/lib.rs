//! Structural change analysis for a workspace of source files: a shallow
//! declaration scanner with a name-keyed structural diff, and a file
//! dependency graph with reverse-reachability impact analysis.
pub mod ast;
pub mod dep_graph;
pub mod engine;
pub mod laws;
pub mod scanner;
pub mod text;
pub mod tracker;

pub use ast::{AstChange, AstDiff, AstDiffEngine, AstNode, ChangeType, DiffError};
pub use engine::{Engine, EngineError, Session, SessionStatus};
pub use dep_graph::{DependencyGraph, DependencyGraphBuilder, GraphNode, ImpactAnalysis, RiskLevel};
pub use scanner::{AstParser, TypeScriptParser};
pub use tracker::{DiffTracker, FileDiff};
