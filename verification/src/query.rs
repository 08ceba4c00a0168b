//! Looking into a graph: the edges around a node, its inputs in order, its
//! results and its retention mark.

use crate::graph::Edge;
use crate::graph::EdgeIndex;
use crate::graph::Graph;
use crate::graph::Node;
use crate::graph::NodeIndex;
use crate::tensor::Tensor;
use crate::tracker::ShapeTracker;
use petgraph::Direction;
use vstd::prelude::*;

verus! {

/// The direction of an edge as seen from a node, as `petgraph::Direction`
/// declares it: `Outgoing` or `Incoming`.
#[verifier::external_type_specification]
pub struct ExDirection(Direction);

/// Whether an edge slot holds an edge that, looked at in direction `out`,
/// belongs to node `v`: one that leaves `v`, or one that enters it.
pub open spec fn belongs(e: Option<Edge>, v: int, out: bool) -> bool {
    e is Some && (if out {
        e->Some_0.source == v
    } else {
        e->Some_0.target == v
    })
}

/// The ids of the edges that leave node `v`, or that enter it, in
/// increasing order.
pub open spec fn around(edges: Seq<Option<Edge>>, v: int, out: bool) -> Seq<usize>
    decreases edges.len(),
{
    if edges.len() == 0 {
        Seq::empty()
    } else if belongs(edges.last(), v, out) {
        around(edges.drop_last(), v, out).push((edges.len() - 1) as usize)
    } else {
        around(edges.drop_last(), v, out)
    }
}

/// Every id in the list names an edge of the node, and every edge of the
/// node is in the list.
pub proof fn lemma_around(edges: Seq<Option<Edge>>, v: int, out: bool)
    requires
        edges.len() <= usize::MAX,
    ensures
        forall|k: int|
            0 <= k < around(edges, v, out).len() ==> (#[trigger] around(edges, v, out)[k])
                < edges.len() && belongs(edges[around(edges, v, out)[k] as int], v, out),
        forall|e: int|
            0 <= e < edges.len() && belongs(#[trigger] edges[e], v, out) ==> around(
                edges,
                v,
                out,
            ).contains(e as usize),
    decreases edges.len(),
{
    if edges.len() > 0 {
        let rest = edges.drop_last();
        lemma_around(rest, v, out);
        let a = around(edges, v, out);
        let b = around(rest, v, out);
        assert forall|k: int| 0 <= k < a.len() implies (#[trigger] a[k]) < edges.len() && belongs(
            edges[a[k] as int],
            v,
            out,
        ) by {
            if k < b.len() {
                assert(a[k] == b[k]);
                assert(rest[b[k] as int] == edges[b[k] as int]);
            }
        }
        assert forall|e: int| 0 <= e < edges.len() && belongs(#[trigger] edges[e], v, out)
            implies a.contains(e as usize) by {
            if e < rest.len() {
                assert(rest[e] == edges[e]);
                assert(b.contains(e as usize));
                let k = choose|k: int| 0 <= k < b.len() && b[k] == e as usize;
                assert(a[k] == e as usize);
            } else {
                assert(a[a.len() - 1] == e as usize);
            }
        }
    }
}

impl<T> Graph<T> {
    /// The ids of the edges that leave node `node`, or that enter it, in
    /// increasing order.
    pub fn edges_directed(&self, node: NodeIndex, dir: Direction) -> (r: Vec<EdgeIndex>)
        ensures
            r@ == around(self.edges@, node as int, dir == Direction::Outgoing),
    {
        let out: bool = match dir {
            Direction::Outgoing => true,
            Direction::Incoming => false,
        };
        let mut ids: Vec<usize> = Vec::new();
        let mut e: usize = 0;
        assert(self.edges@.take(0) =~= Seq::<Option<Edge>>::empty());
        while e < self.edges.len()
            invariant
                e <= self.edges.len(),
                ids@ == around(self.edges@.take(e as int), node as int, out),
            decreases self.edges.len() - e,
        {
            let hit = match &self.edges[e] {
                Some(x) => if out {
                    x.source == node
                } else {
                    x.target == node
                },
                None => false,
            };
            proof {
                let next = self.edges@.take(e + 1);
                assert(next.drop_last() =~= self.edges@.take(e as int));
                assert(next.last() == self.edges[e as int]);
            }
            if hit {
                ids.push(e);
            }
            e += 1;
        }
        assert(self.edges@.take(e as int) =~= self.edges@);
        ids
    }

    /// The inputs of node `node`, in order: for each, the node and the
    /// output that is read, and the tracker that it is read through.
    pub fn get_sources(&self, node: NodeIndex) -> (r: Vec<(NodeIndex, usize, ShapeTracker)>)
        ensures
            r.len() == around(self.edges@, node as int, false).len(),
            forall|k: int|
                0 <= k < r.len() ==> {
                    let e = self.edges[around(self.edges@, node as int, false)[k] as int];
                    &&& e is Some
                    &&& (#[trigger] r[k]).0 == e->Some_0.source
                    &&& r[k].1 == e->Some_0.output
                    &&& r[k].2@ == e->Some_0.shape@
                },
    {
        let ids = self.edges_directed(node, Direction::Incoming);
        proof {
            assert(self.edges@.len() == self.edges.len());
            lemma_around(self.edges@, node as int, false);
        }
        let mut out: Vec<(usize, usize, ShapeTracker)> = Vec::new();
        let mut k: usize = 0;
        while k < ids.len()
            invariant
                k <= ids.len(),
                ids@ == around(self.edges@, node as int, false),
                forall|j: int|
                    0 <= j < ids.len() ==> (#[trigger] ids[j]) < self.edges.len() && belongs(
                        self.edges[ids[j] as int],
                        node as int,
                        false,
                    ),
                out.len() == k,
                forall|j: int|
                    0 <= j < k ==> {
                        let e = self.edges[ids[j] as int];
                        &&& e is Some
                        &&& (#[trigger] out[j]).0 == e->Some_0.source
                        &&& out[j].1 == e->Some_0.output
                        &&& out[j].2@ == e->Some_0.shape@
                    },
            decreases ids.len() - k,
        {
            assert(ids[k as int] < self.edges.len());
            match &self.edges[ids[k]] {
                Some(e) => {
                    out.push((e.source, e.output, e.shape.duplicate()));
                },
                None => {
                    assert(false);
                },
            }
            k += 1;
        }
        out
    }

    /// Marks node `node` as retained, if there is such a node: its results
    /// outlive an execution.
    pub fn retain(&mut self, node: NodeIndex)
        ensures
            final(self).edges == old(self).edges,
            final(self).dyn_map == old(self).dyn_map,
            final(self).nodes.len() == old(self).nodes.len(),
            forall|v: int|
                0 <= v < old(self).nodes.len() && v != node ==> final(self).nodes[v] == old(
                    self,
                ).nodes[v],
            node < old(self).nodes.len() ==> final(self).nodes[node as int] == (match old(
                self,
            ).nodes[node as int] {
                Some(n) => Some(Node { op: n.op, keep: true, outputs: n.outputs }),
                None => None,
            }),
            final(self).alive() == old(self).alive(),
    {
        if node < self.nodes.len() {
            match &mut self.nodes[node] {
                Some(n) => {
                    n.keep = true;
                },
                None => {},
            }
        }
        assert(self.alive() =~= old(self).alive());
    }

    /// Whether node `node` is retained.
    pub fn is_retained(&self, node: NodeIndex) -> (r: bool)
        ensures
            r == (self.contains(node as int) && self.nodes[node as int]->Some_0.keep),
    {
        if node < self.nodes.len() {
            match &self.nodes[node] {
                Some(n) => n.keep,
                None => false,
            }
        } else {
            false
        }
    }

    /// Supplies the results of node `node`, and says whether there is such a
    /// node.
    pub fn set_tensors(&mut self, node: NodeIndex, tensors: Vec<Tensor<T>>) -> (r: bool)
        ensures
            r == old(self).contains(node as int),
            final(self).edges == old(self).edges,
            final(self).dyn_map == old(self).dyn_map,
            final(self).nodes.len() == old(self).nodes.len(),
            final(self).alive() == old(self).alive(),
            forall|v: int|
                0 <= v < old(self).nodes.len() && v != node ==> final(self).nodes[v] == old(
                    self,
                ).nodes[v],
            r ==> final(self).nodes[node as int] == Some(
                Node {
                    op: old(self).nodes[node as int]->Some_0.op,
                    keep: old(self).nodes[node as int]->Some_0.keep,
                    outputs: Some(tensors),
                },
            ),
    {
        let mut found: bool = false;
        if node < self.nodes.len() {
            match &mut self.nodes[node] {
                Some(n) => {
                    n.outputs = Some(tensors);
                    found = true;
                },
                None => {},
            }
        }
        assert(self.alive() =~= old(self).alive());
        found
    }

    /// Supplies the first result of node `node`, and says whether there is
    /// such a node.
    pub fn set_tensor(&mut self, node: NodeIndex, tensor: Tensor<T>) -> (r: bool)
        ensures
            r == old(self).contains(node as int),
            final(self).edges == old(self).edges,
            final(self).dyn_map == old(self).dyn_map,
            final(self).nodes.len() == old(self).nodes.len(),
            final(self).alive() == old(self).alive(),
            forall|v: int|
                0 <= v < old(self).nodes.len() && v != node ==> final(self).nodes[v] == old(
                    self,
                ).nodes[v],
            r ==> {
                let n = final(self).nodes[node as int];
                &&& n is Some
                &&& n->Some_0.op == old(self).nodes[node as int]->Some_0.op
                &&& n->Some_0.keep == old(self).nodes[node as int]->Some_0.keep
                &&& n->Some_0.outputs is Some
                &&& n->Some_0.outputs->Some_0@ == seq![tensor]
            },
    {
        let mut tensors: Vec<Tensor<T>> = Vec::new();
        tensors.push(tensor);
        assert(tensors@ =~= seq![tensor]);
        self.set_tensors(node, tensors)
    }

    /// Result `slot` of node `node`, if the node has one.
    pub fn get_tensor<'a>(&'a self, node: NodeIndex, slot: usize) -> (r: Option<&'a Tensor<T>>)
        ensures
            match r {
                Some(t) => {
                    &&& self.contains(node as int)
                    &&& self.nodes[node as int]->Some_0.outputs is Some
                    &&& slot < self.nodes[node as int]->Some_0.outputs->Some_0.len()
                    &&& *t == self.nodes[node as int]->Some_0.outputs->Some_0[slot as int]
                },
                None => !(self.contains(node as int) && self.nodes[node as int]->Some_0.outputs
                    is Some && slot < self.nodes[node as int]->Some_0.outputs->Some_0.len()),
            },
    {
        if node >= self.nodes.len() {
            return None;
        }
        match &self.nodes[node] {
            Some(n) => match &n.outputs {
                Some(v) => if slot < v.len() {
                    Some(&v[slot])
                } else {
                    None
                },
                None => None,
            },
            None => None,
        }
    }

    /// Binds the named extent `name` to `value`.
    pub fn set_dyn_dim(&mut self, name: char, value: usize)
        ensures
            final(self).nodes == old(self).nodes,
            final(self).edges == old(self).edges,
            final(self).dyn_map@ == old(self).dyn_map@.insert(name, value),
    {
        self.dyn_map.set(name, value);
    }
}

} // verus!
