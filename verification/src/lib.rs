//! Dependency-closed runtime assurance: evidence with expiry, threshold rules
//! over an acyclic assurance graph, and a deterministic runtime with an audit log.
pub mod clock;
pub mod ids;
pub mod evidence;
pub mod assurance;
pub mod graph;
pub mod evaluator;
pub mod runtime;
