//! Prompt assembly from a graph of labeled template nodes: `{{name}}`
//! interpolation with an execution trace, resolution of static and
//! resolver-backed variables, a deterministic topological order of the
//! nodes, and per-row replay of a dataset with content digests.
pub mod assets;
pub mod crypto;
pub mod engine;
pub mod graph;
pub mod milvus;
pub mod model;
pub mod order;
pub mod render;
pub mod replay;
pub mod resolve;
pub mod session;
pub mod sql;
pub mod text;
pub mod vars;
