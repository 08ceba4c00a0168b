//! The builder of a node: an operator that collects its inputs, in order,
//! before it is added to a graph.

use crate::graph::Graph;
use crate::graph::GraphError;
use crate::graph::Node;
use crate::graph::NodeIndex;
use crate::graph::Op;
use crate::tracker::ShapeTracker;
use vstd::prelude::*;

verus! {

/// A node that is being built: its operator, and the inputs attached so far.
pub struct NewOp<T> {
    pub op: Op<T>,
    pub inputs: Vec<(NodeIndex, usize, ShapeTracker)>,
}

impl<T> NewOp<T> {
    /// A node with the operator `op` and no input yet.
    pub fn new(op: Op<T>) -> (r: NewOp<T>)
        ensures
            r.op == op,
            r.inputs@ == Seq::<(NodeIndex, usize, ShapeTracker)>::empty(),
    {
        NewOp { op, inputs: Vec::new() }
    }

    /// Attaches one more input: output `from_output` of node `id`, read
    /// through `shape`.
    pub fn input(self, id: NodeIndex, from_output: usize, shape: ShapeTracker) -> (r: NewOp<T>)
        ensures
            r.op == self.op,
            r.inputs@ == self.inputs@.push((id, from_output, shape)),
    {
        let mut inputs = self.inputs;
        inputs.push((id, from_output, shape));
        NewOp { op: self.op, inputs }
    }

    /// Adds the node to `graph`, with its inputs in the order in which they
    /// were attached, and gives its id. Refused, with the graph unchanged,
    /// when an input names no node of the graph.
    pub fn finish(self, graph: &mut Graph<T>) -> (r: Result<NodeIndex, GraphError>)
        requires
            old(graph).wf(),
        ensures
            final(graph).wf(),
            final(graph).dyn_map == old(graph).dyn_map,
            match r {
                Err(e) => {
                    &&& e == GraphError::MissingNode
                    &&& exists|k: int|
                        0 <= k < self.inputs.len() && !old(graph).contains(self.inputs[k].0 as int)
                    &&& *final(graph) == *old(graph)
                },
                Ok(id) => {
                    &&& forall|k: int|
                        0 <= k < self.inputs.len() ==> old(graph).contains(
                            self.inputs[k].0 as int,
                        )
                    &&& id == old(graph).nodes.len()
                    &&& final(graph).nodes@ == old(graph).nodes@.push(
                        Some(Node { op: self.op, keep: false, outputs: None }),
                    )
                    &&& final(graph).edges.len() == old(graph).edges.len() + self.inputs.len()
                    &&& forall|e: int|
                        0 <= e < old(graph).edges.len() ==> final(graph).edges[e] == old(
                            graph,
                        ).edges[e]
                    &&& forall|k: int|
                        0 <= k < self.inputs.len() ==> {
                            let e = #[trigger] final(graph).edges[old(graph).edges.len() + k];
                            &&& e is Some
                            &&& e->Some_0.source == self.inputs[k].0
                            &&& e->Some_0.output == self.inputs[k].1
                            &&& e->Some_0.target == id
                            &&& e->Some_0.shape@ == self.inputs[k].2@
                        }
                },
            },
    {
        graph.add_op(self.op, &self.inputs)
    }
}

} // verus!
