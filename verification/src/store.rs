//! The results that the nodes of a graph hold during an execution: how the
//! inputs of a node are gathered from them, and when they are freed.

use crate::graph::Graph;
use crate::graph::Node;
use crate::graph::NodeIndex;
use crate::query::around;
use crate::query::belongs;
use crate::query::lemma_around;
use crate::tensor::InputTensor;
use crate::tensor::Tensor;
use crate::topo::closed;
use crate::topo::has_link;
use crate::topo::head;
use crate::topo::is_alive;
use crate::topo::tail;
use crate::tracker::LayerSpec;
use crate::tracker::ShapeTracker;
use petgraph::Direction;
use vstd::prelude::*;

verus! {

/// The content of a list of tensors.
pub open spec fn tensors_model<T>(v: Vec<Tensor<T>>) -> Seq<Seq<T>> {
    v@.map_values(|t: Tensor<T>| t.data@)
}

/// A node slot with the results of its node dropped.
pub open spec fn cleared<T>(n: Option<Node<T>>) -> Option<Node<T>> {
    match n {
        Some(x) => Some(Node { op: x.op, keep: x.keep, outputs: None }),
        None => None,
    }
}

impl<T> Graph<T> {
    /// Whether the two graphs differ in the results of their nodes only.
    pub open spec fn same_frame(&self, other: &Graph<T>) -> bool {
        &&& self.edges == other.edges
        &&& self.dyn_map == other.dyn_map
        &&& self.nodes.len() == other.nodes.len()
        &&& forall|v: int|
            0 <= v < self.nodes.len() ==> match (#[trigger] self.nodes[v], other.nodes[v]) {
                (Some(a), Some(b)) => a.op == b.op && a.keep == b.keep,
                (None, None) => true,
                _ => false,
            }
    }

    /// The results that node `v` holds, if it holds any.
    pub open spec fn results(&self, v: int) -> Option<Vec<Tensor<T>>> {
        self.nodes[v]->Some_0.outputs
    }

    /// Whether node `v` is retained.
    pub open spec fn kept(&self, v: int) -> bool {
        self.nodes[v]->Some_0.keep
    }

    /// Whether every node that reads a result of node `s` has been visited.
    pub open spec fn consumed(&self, s: int, visited: Seq<bool>) -> bool {
        forall|e: int| #[trigger]
            has_link(self.links(), e) && tail(self.links(), e) == s ==> visited[head(
                self.links(),
                e,
            )]
    }

    /// Whether node `s` is an input of node `v`.
    pub open spec fn feeds(&self, s: int, v: int) -> bool {
        exists|e: int| #[trigger]
            has_link(self.links(), e) && tail(self.links(), e) == s && head(self.links(), e) == v
    }

    /// The inputs of node `v`, when every node holds the results that
    /// `vals` gives it.
    pub open spec fn inputs_under(&self, v: int, vals: Map<int, Seq<Seq<T>>>) -> Seq<
        (Seq<T>, Seq<LayerSpec>),
    > {
        let ins = around(self.edges@, v, false);
        Seq::new(
            ins.len(),
            |k: int|
                {
                    let e = self.edges[ins[k] as int]->Some_0;
                    (vals[e.source as int][e.output as int], e.shape@)
                },
        )
    }

    /// Whether every output that node `v` reads exists under `vals`.
    pub open spec fn inputs_present(&self, v: int, vals: Map<int, Seq<Seq<T>>>) -> bool {
        let ins = around(self.edges@, v, false);
        forall|k: int|
            0 <= k < ins.len() ==> {
                let e = self.edges[#[trigger] ins[k] as int]->Some_0;
                vals.contains_key(e.source as int) && e.output < vals[e.source as int].len()
            }
    }

    /// Whether node `v` holds results.
    pub fn has_results(&self, v: NodeIndex) -> (r: bool)
        requires
            self.contains(v as int),
        ensures
            r == self.results(v as int) is Some,
    {
        match &self.nodes[v] {
            Some(n) => n.outputs.is_some(),
            None => false,
        }
    }

    /// Whether every node that reads a result of node `s` has been visited.
    pub fn all_consumed(&self, s: NodeIndex, visited: &Vec<bool>) -> (r: bool)
        requires
            visited.len() == self.nodes.len(),
            closed(self.alive(), self.links()),
        ensures
            r == self.consumed(s as int, visited@),
    {
        let mut e: usize = 0;
        while e < self.edges.len()
            invariant
                e <= self.edges.len(),
                visited.len() == self.nodes.len(),
                closed(self.alive(), self.links()),
                forall|x: int|
                    0 <= x < e && #[trigger] has_link(self.links(), x) && tail(self.links(), x)
                        == s ==> visited[head(self.links(), x)],
            decreases self.edges.len() - e,
        {
            match &self.edges[e] {
                Some(x) => {
                    assert(has_link(self.links(), e as int));
                    assert(is_alive(self.alive(), head(self.links(), e as int)));
                    if x.source == s && !visited[x.target] {
                        return false;
                    }
                },
                None => {},
            }
            e += 1;
        }
        true
    }

    /// Drops the results of node `s`.
    pub fn clear_results(&mut self, s: NodeIndex)
        requires
            s < old(self).nodes.len(),
        ensures
            final(self).edges == old(self).edges,
            final(self).dyn_map == old(self).dyn_map,
            final(self).nodes@ == old(self).nodes@.update(s as int, cleared(old(self).nodes[s as int])),
    {
        match &mut self.nodes[s] {
            Some(n) => {
                n.outputs = None;
            },
            None => {},
        }
        assert(self.nodes@ =~= old(self).nodes@.update(s as int, cleared(old(self).nodes[s as int])));
    }

    /// Whether input `k` of node `v` is the first that cannot be read: it is
    /// an output of node `s`, which does not hold it, and the nodes of the
    /// inputs before it hold the outputs that are read.
    pub open spec fn first_missing(&self, v: int, k: int, s: int) -> bool {
        let ins = around(self.edges@, v, false);
        &&& self.edges[ins[k] as int]->Some_0.source == s
        &&& !(self.results(s) is Some && self.edges[ins[k] as int]->Some_0.output < self.results(
            s,
        )->Some_0.len())
        &&& forall|j: int|
            0 <= j < k ==> {
                let e = self.edges[#[trigger] ins[j] as int]->Some_0;
                self.results(e.source as int) is Some && e.output < self.results(
                    e.source as int,
                )->Some_0.len()
            }
    }

    /// Whether node `s` is the node of the first input of node `v` that
    /// cannot be read.
    pub open spec fn starved_by(&self, v: int, s: int) -> bool {
        exists|k: int|
            0 <= k < around(self.edges@, v, false).len() && #[trigger] self.first_missing(v, k, s)
    }

    /// The inputs of node `v`, read from the results that their nodes hold,
    /// or the first input node that does not hold the output that is read.
    pub fn gather_inputs<'a>(&'a self, v: NodeIndex) -> (r: Result<
        Vec<(InputTensor<'a, T>, ShapeTracker)>,
        NodeIndex,
    >)
        requires
            closed(self.alive(), self.links()),
        ensures
            match r {
                Ok(inp) => {
                    let ins = around(self.edges@, v as int, false);
                    &&& inp.len() == ins.len()
                    &&& forall|k: int|
                        0 <= k < ins.len() ==> {
                            let e = self.edges[#[trigger] ins[k] as int]->Some_0;
                            &&& self.results(e.source as int) is Some
                            &&& e.output < self.results(e.source as int)->Some_0.len()
                            &&& inp[k].0.elements() == self.results(
                                e.source as int,
                            )->Some_0[e.output as int].data@
                            &&& inp[k].1@ == e.shape@
                        }
                },
                Err(s) => {
                    &&& self.contains(s as int)
                    &&& self.feeds(s as int, v as int)
                    &&& exists|e: int|
                        #![trigger has_link(self.links(), e)]
                        has_link(self.links(), e) && self.edges[e]->Some_0.source == s
                            && self.edges[e]->Some_0.target == v && !(self.results(s as int)
                            is Some && self.edges[e]->Some_0.output < self.results(
                            s as int,
                        )->Some_0.len())
                    &&& self.starved_by(v as int, s as int)
                },
            },
    {
        let ids = self.edges_directed(v, Direction::Incoming);
        proof {
            assert(self.edges@.len() == self.edges.len());
            lemma_around(self.edges@, v as int, false);
        }
        let mut out: Vec<(InputTensor<'a, T>, ShapeTracker)> = Vec::new();
        let mut k: usize = 0;
        while k < ids.len()
            invariant
                k <= ids.len(),
                closed(self.alive(), self.links()),
                ids@ == around(self.edges@, v as int, false),
                forall|j: int|
                    0 <= j < ids.len() ==> (#[trigger] ids[j]) < self.edges.len() && belongs(
                        self.edges[ids[j] as int],
                        v as int,
                        false,
                    ),
                out.len() == k,
                forall|j: int|
                    0 <= j < k ==> {
                        let e = self.edges[#[trigger] ids[j] as int]->Some_0;
                        &&& self.results(e.source as int) is Some
                        &&& e.output < self.results(e.source as int)->Some_0.len()
                        &&& out[j].0.elements() == self.results(
                            e.source as int,
                        )->Some_0[e.output as int].data@
                        &&& out[j].1@ == e.shape@
                    },
            decreases ids.len() - k,
        {
            let id: usize = ids[k];
            assert(ids[k as int] < self.edges.len());
            assert(has_link(self.links(), id as int));
            assert(is_alive(self.alive(), tail(self.links(), id as int)));
            match &self.edges[id] {
                Some(e) => {
                    let found: Option<&'a Tensor<T>> = match &self.nodes[e.source] {
                        Some(n) => match &n.outputs {
                            Some(ts) => if e.output < ts.len() {
                                Some(&ts[e.output])
                            } else {
                                None
                            },
                            None => None,
                        },
                        None => None,
                    };
                    match found {
                        Some(t) => {
                            out.push((InputTensor::Borrowed(t), e.shape.duplicate()));
                        },
                        None => {
                            assert(self.first_missing(v as int, k as int, e.source as int));
                            return Err(e.source);
                        },
                    }
                },
                None => {
                    assert(false);
                },
            }
            k += 1;
        }
        Ok(out)
    }
}

} // verus!
