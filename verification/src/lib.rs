//! Migration-commit orchestrator for a sharded, multi-domain streaming
//! dataflow graph: accumulates pending graph edits (new operators, new base
//! tables, schema changes, reader requests) against a running graph and
//! splices them in with stable per-domain addressing, swap-table resolution,
//! domain lifecycle planning and ordered schema propagation.

pub mod graph;
pub mod builder;
pub mod swap;
pub mod commit;
pub mod assoc;
