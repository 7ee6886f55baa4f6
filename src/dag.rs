//! The dataflow graph attached to a job.
use vstd::prelude::*;

verus! {

/// Operators and the edges between them; the graph is acyclic.
pub struct Dag {
    pub nodes: Vec<DagNode>,
    /// Directed pairs `(from, to)` of node ids.
    pub edges: Vec<(String, String)>,
}

/// One operator of a [`Dag`].
pub struct DagNode {
    pub id: String,
    /// `read_csv`, `read_jsonl`, `read_text`, `map`, `flat_map`,
    /// `reduce_by_key`, ...
    pub op: String,
    /// A path or glob; meaningful on read nodes.
    pub path: Option<String>,
    /// Parallelism hint of a read node.
    pub partitions: Option<u32>,
    /// A built-in function such as `tokenize`, `to_lower` or `sum`.
    pub fn_name: Option<String>,
    /// The key field of a keyed operator.
    pub key: Option<String>,
}

} // verus!
