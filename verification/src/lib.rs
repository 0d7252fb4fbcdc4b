//! XFlow: a serializable directed-graph representation of an executable
//! workflow, together with a read-only query engine over the graph and a
//! structural validator that decides whether a flow is sound enough to hand
//! to an execution engine.

pub mod xflow;
pub mod validation;
