//! A distributed pipeline node that concatenates the row streams of two
//! child nodes, modeled by the plain values its construction reads: the ids,
//! names and partition counts of its children, its schema, and its own ids.
//! Running the node belongs to the distributed execution layer, outside this
//! crate.

use vstd::prelude::*;
use vstd::string::StringExecFns;

use std::sync::Arc;

verus! {

/// The concatenation node: its output is the rows of `child` followed by the
/// rows of `other`, with the given schema, partitioned into the two inputs'
/// partitions one after the other.
#[derive(Debug)]
pub struct ConcatNode {
    /// This node's id.
    pub node_id: u64,
    /// The id of the logical node this node was planned from, if any.
    pub logical_node_id: Option<u64>,
    /// The ordered column names of the concatenated output.
    pub schema: Vec<String>,
    /// How many partitions the output has: the partitions of both inputs,
    /// one after the other.
    pub num_partitions: usize,
    /// The ids of the two children, first `child` then `other`.
    pub child_ids: Vec<u64>,
    /// The names of the two children, first `child` then `other`.
    pub child_names: Vec<String>,
}

impl ConcatNode {
    /// Builds the node over two children given by id, name and partition
    /// count. The output partition count is the sum of the children's.
    pub fn new(
        node_id: u64,
        logical_node_id: Option<u64>,
        schema: Vec<String>,
        other_id: u64,
        other_name: String,
        other_partitions: usize,
        child_id: u64,
        child_name: String,
        child_partitions: usize,
    ) -> (r: Self)
        requires
            child_partitions + other_partitions <= usize::MAX,
        ensures
            r.node_id == node_id,
            r.logical_node_id == logical_node_id,
            r.schema == schema,
            r.num_partitions == child_partitions + other_partitions,
            r.child_ids@ == seq![child_id, other_id],
            r.child_names@.len() == 2,
            r.child_names@[0]@ == child_name@,
            r.child_names@[1]@ == other_name@,
    {
        let mut child_ids: Vec<u64> = Vec::new();
        child_ids.push(child_id);
        child_ids.push(other_id);
        let mut child_names: Vec<String> = Vec::new();
        child_names.push(child_name);
        child_names.push(other_name);
        proof {
            assert(child_ids@ =~= seq![child_id, other_id]);
        }
        ConcatNode {
            node_id,
            logical_node_id,
            schema,
            num_partitions: child_partitions + other_partitions,
            child_ids,
            child_names,
        }
    }

    /// Wraps the node for shared ownership across the pipeline.
    pub fn arced(self) -> (r: Arc<ConcatNode>)
        ensures
            r == self,
    {
        Arc::new(self)
    }

    /// The tree rendering of this node: one line reading `Concat`, whatever
    /// the display level, since the compact name and the multiline form
    /// coincide for this node.
    pub fn display_as(&self, compact: bool) -> (r: String)
        ensures
            r@ == "Concat\n"@,
    {
        if compact {
            "Concat\n".to_owned()
        } else {
            let lines = self.multiline_display();
            let mut display = String::new();
            let n = lines.len();
            let mut i: usize = 0;
            while i < n
                invariant
                    n == lines.len(),
                    i <= n,
                    n == 1,
                    lines@[0]@ == "Concat"@,
                    i == 0 ==> display@ == Seq::<char>::empty(),
                    i == 1 ==> display@ == "Concat"@ + "\n"@,
                decreases n - i,
            {
                display.append(lines[i].as_str());
                display.append("\n");
                i += 1;
            }
            proof {
                assert(display@ =~= "Concat\n"@) by {
                    reveal_strlit("Concat");
                    reveal_strlit("\n");
                    reveal_strlit("Concat\n");
                }
            }
            display
        }
    }

    /// The lines a tree rendering of this node shows.
    pub fn multiline_display(&self) -> (r: Vec<String>)
        ensures
            r@.len() == 1,
            r@[0]@ == "Concat"@,
    {
        let mut lines: Vec<String> = Vec::new();
        lines.push("Concat".to_owned());
        lines
    }
}

} // verus!
