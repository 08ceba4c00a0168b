//! The execution engine: the nodes of the graph, visited in topological
//! order, each run on the results of its inputs; results that nothing will
//! read again are freed, unless their node is retained.

use crate::elementwise::OpError;
use crate::graph::Graph;
use crate::graph::NodeIndex;
use crate::graph::Op;
use crate::kernel::Arith;
use crate::kernel::BinaryKind;
use crate::kernel::UnaryKind;
use crate::query::around;
use crate::query::belongs;
use crate::query::lemma_around;
use crate::step::step_outcome;
use crate::step::StepError;
use crate::store::cleared;
use crate::store::tensors_model;
use crate::tensor::InputTensor;
use crate::tensor::Tensor;
use crate::topo::closed;
use crate::topo::has_link;
use crate::topo::head;
use crate::topo::is_alive;
use crate::topo::tail;
use crate::tracker::ShapeTracker;
use petgraph::Direction;
use vstd::prelude::*;

verus! {

/// Why an execution was abandoned.
#[derive(Debug)]
pub enum ExecError {
    /// This node does not hold an output that a node after it reads.
    MissingTensor(NodeIndex),
    /// The operator of this node refused its inputs.
    Op(NodeIndex, OpError),
    /// The host failed on the operator of this node; the cause is in its
    /// words.
    Backend(NodeIndex, String),
}

/// Whether the results that `vals` gives to node `v` are right, in the graph
/// as it was before the execution: results that the node held already are
/// taken as they are, and others are what the operator yields on the results
/// of its inputs.
pub open spec fn justified<
    T,
    U: Fn(UnaryKind, T) -> T,
    B: Fn(BinaryKind, T, T) -> T,
    H: for <'a> Fn(&'a Op<T>, Vec<(InputTensor<'a, T>, ShapeTracker)>) -> Result<
        Vec<Tensor<T>>,
        String,
    >,
>(g: Graph<T>, v: int, vals: Map<int, Seq<Seq<T>>>, arith: Arith<T, U, B>, host: H) -> bool {
    match g.results(v) {
        Some(ts) => vals[v] == tensors_model(ts),
        None => g.inputs_present(v, vals) && step_outcome(
            g.nodes[v]->Some_0.op,
            g.inputs_under(v, vals),
            g.dyn_map@,
            arith,
            host,
            Ok::<Seq<Seq<T>>, StepError>(vals[v]),
        ),
    }
}

/// Whether `vals` explains the graph `after` an execution of the graph
/// `before`: it gives every node results that are right, every result that
/// a node holds afterwards is the one that `vals` gives it, and the nodes
/// that hold no results afterwards are those that are not retained and
/// that some node reads.
pub open spec fn explained<
    T,
    U: Fn(UnaryKind, T) -> T,
    B: Fn(BinaryKind, T, T) -> T,
    H: for <'a> Fn(&'a Op<T>, Vec<(InputTensor<'a, T>, ShapeTracker)>) -> Result<
        Vec<Tensor<T>>,
        String,
    >,
>(
    before: Graph<T>,
    after: Graph<T>,
    vals: Map<int, Seq<Seq<T>>>,
    arith: Arith<T, U, B>,
    host: H,
) -> bool {
    forall|v: int| #[trigger]
        before.contains(v) ==> {
            &&& vals.contains_key(v)
            &&& justified(before, v, vals, arith, host)
            &&& (after.results(v) is Some ==> tensors_model(after.results(v)->Some_0) == vals[v])
            &&& (after.results(v) is None <==> !before.kept(v) && exists|e: int| #[trigger]
                has_link(before.links(), e) && tail(before.links(), e) == v)
        }
}

/// Whether `vals` gives results that are right to every node that it gives
/// results to.
pub open spec fn sound<
    T,
    U: Fn(UnaryKind, T) -> T,
    B: Fn(BinaryKind, T, T) -> T,
    H: for <'a> Fn(&'a Op<T>, Vec<(InputTensor<'a, T>, ShapeTracker)>) -> Result<
        Vec<Tensor<T>>,
        String,
    >,
>(g: Graph<T>, vals: Map<int, Seq<Seq<T>>>, arith: Arith<T, U, B>, host: H) -> bool {
    forall|u: int|
        g.contains(u) && #[trigger] vals.contains_key(u) ==> justified(g, u, vals, arith, host)
}

/// Whether `vals` explains why an execution of the graph `g` was abandoned
/// with the error `err`: the results that it gives are right, and on them
///
/// - a node that had to be run reads an output that the node named by the
///   error does not have; or
/// - the operator of the node named by the error, which had to be run,
///   refuses its inputs for the reason given; or
/// - the host fails on the operator of the node named by the error, which
///   had to be run, with the cause given.
pub open spec fn abandoned<
    T,
    U: Fn(UnaryKind, T) -> T,
    B: Fn(BinaryKind, T, T) -> T,
    H: for <'a> Fn(&'a Op<T>, Vec<(InputTensor<'a, T>, ShapeTracker)>) -> Result<
        Vec<Tensor<T>>,
        String,
    >,
>(
    g: Graph<T>,
    vals: Map<int, Seq<Seq<T>>>,
    arith: Arith<T, U, B>,
    host: H,
    err: ExecError,
) -> bool {
    &&& sound(g, vals, arith, host)
    &&& match err {
        ExecError::MissingTensor(s) => exists|e: int|
            {
                &&& #[trigger] has_link(g.links(), e)
                &&& tail(g.links(), e) == s
                &&& g.results(head(g.links(), e)) is None
                &&& vals.contains_key(s as int)
                &&& g.edges[e]->Some_0.output >= vals[s as int].len()
            },
        ExecError::Op(v, why) => {
            &&& g.contains(v as int)
            &&& g.results(v as int) is None
            &&& g.inputs_present(v as int, vals)
            &&& step_outcome(
                g.nodes[v as int]->Some_0.op,
                g.inputs_under(v as int, vals),
                g.dyn_map@,
                arith,
                host,
                Err::<Seq<Seq<T>>, StepError>(StepError::Op(why)),
            )
        },
        ExecError::Backend(v, cause) => {
            &&& g.contains(v as int)
            &&& g.results(v as int) is None
            &&& g.inputs_present(v as int, vals)
            &&& step_outcome(
                g.nodes[v as int]->Some_0.op,
                g.inputs_under(v as int, vals),
                g.dyn_map@,
                arith,
                host,
                Err::<Seq<Seq<T>>, StepError>(StepError::Backend(cause)),
            )
        },
    }
}

/// Whether node `u` is among the first `i` nodes of the order.
pub open spec fn reached(order: Seq<usize>, i: int, u: int) -> bool {
    exists|j: int| 0 <= j < i && #[trigger] order[j] == u
}

impl<T: Copy> Graph<T> {
    /// Frees the results of the inputs of node `v` that nothing will read
    /// again: the inputs that are not retained, and whose readers have all
    /// been visited.
    pub fn release_inputs(&mut self, v: NodeIndex, visited: &Vec<bool>)
        requires
            visited.len() == old(self).nodes.len(),
            closed(old(self).alive(), old(self).links()),
        ensures
            final(self).edges == old(self).edges,
            final(self).dyn_map == old(self).dyn_map,
            final(self).nodes.len() == old(self).nodes.len(),
            forall|u: int|
                0 <= u < old(self).nodes.len() ==> #[trigger] final(self).nodes[u] == (if old(
                    self,
                ).contains(u) && old(self).feeds(u, v as int) && !old(self).kept(u) && old(
                    self,
                ).consumed(u, visited@) {
                    cleared(old(self).nodes[u])
                } else {
                    old(self).nodes[u]
                }),
    {
        let ids = self.edges_directed(v, Direction::Incoming);
        proof {
            assert(self.edges@.len() == self.edges.len());
            lemma_around(self.edges@, v as int, false);
        }
        let ghost g0 = *self;
        let mut k: usize = 0;
        while k < ids.len()
            invariant
                k <= ids.len(),
                self.edges == g0.edges,
                self.dyn_map == g0.dyn_map,
                self.nodes.len() == g0.nodes.len(),
                visited.len() == g0.nodes.len(),
                closed(g0.alive(), g0.links()),
                self.alive() == g0.alive(),
                ids@ == around(g0.edges@, v as int, false),
                forall|j: int|
                    0 <= j < ids.len() ==> (#[trigger] ids[j]) < g0.edges.len() && belongs(
                        g0.edges[ids[j] as int],
                        v as int,
                        false,
                    ),
                forall|u: int|
                    0 <= u < g0.nodes.len() ==> #[trigger] self.nodes[u] == (if g0.contains(u)
                        && (exists|j: int|
                        0 <= j < k && g0.edges[#[trigger] ids[j] as int]->Some_0.source == u)
                        && !g0.kept(u) && g0.consumed(u, visited@) {
                        cleared(g0.nodes[u])
                    } else {
                        g0.nodes[u]
                    }),
            decreases ids.len() - k,
        {
            let id: usize = ids[k];
            assert(ids[k as int] < g0.edges.len());
            assert(has_link(g0.links(), id as int));
            assert(is_alive(g0.alive(), tail(g0.links(), id as int)));
            let s: usize = match &self.edges[id] {
                Some(e) => e.source,
                None => 0,
            };
            assert(self.nodes[s as int] == g0.nodes[s as int] || self.nodes[s as int] == cleared(
                g0.nodes[s as int],
            ));
            assert(self.links() == g0.links());
            let ghost before = *self;
            if !self.is_retained(s) && self.all_consumed(s, visited) {
                self.clear_results(s);
            }
            proof {
                assert(self.alive() =~= g0.alive());
                assert forall|u: int| 0 <= u < g0.nodes.len() implies #[trigger] self.nodes[u]
                    == (if g0.contains(u) && (exists|j: int|
                    0 <= j < k + 1 && g0.edges[#[trigger] ids[j] as int]->Some_0.source == u)
                    && !g0.kept(u) && g0.consumed(u, visited@) {
                    cleared(g0.nodes[u])
                } else {
                    g0.nodes[u]
                }) by {
                    let was = exists|j: int|
                        0 <= j < k && g0.edges[#[trigger] ids[j] as int]->Some_0.source == u;
                    let now = exists|j: int|
                        0 <= j < k + 1 && g0.edges[#[trigger] ids[j] as int]->Some_0.source == u;
                    if u == s {
                        assert(g0.edges[ids[k as int] as int]->Some_0.source == u);
                        assert(now);
                    } else {
                        if now {
                            let j = choose|j: int|
                                0 <= j < k + 1 && g0.edges[#[trigger] ids[j] as int]->Some_0.source
                                    == u;
                            assert(j < k);
                            assert(was);
                        }
                        assert(self.nodes[u] == before.nodes[u]);
                    }
                }
            }
            k += 1;
        }
        proof {
            assert forall|u: int| 0 <= u < g0.nodes.len() implies (g0.feeds(u, v as int) <==> (
            exists|j: int|
                0 <= j < ids.len() && g0.edges[#[trigger] ids[j] as int]->Some_0.source == u)) by {
                if g0.feeds(u, v as int) {
                    let e = choose|e: int| #[trigger]
                        has_link(g0.links(), e) && tail(g0.links(), e) == u && head(
                            g0.links(),
                            e,
                        ) == v;
                    assert(belongs(g0.edges[e], v as int, false));
                    assert(ids@.contains(e as usize));
                    let j = choose|j: int| 0 <= j < ids.len() && ids[j] == e as usize;
                    assert(g0.edges[ids[j] as int]->Some_0.source == u);
                }
                if exists|j: int|
                    0 <= j < ids.len() && g0.edges[#[trigger] ids[j] as int]->Some_0.source == u {
                    let j = choose|j: int|
                        0 <= j < ids.len() && g0.edges[#[trigger] ids[j] as int]->Some_0.source
                            == u;
                    let e = ids[j] as int;
                    assert(belongs(g0.edges[e], v as int, false));
                    assert(has_link(g0.links(), e) && tail(g0.links(), e) == u && head(
                        g0.links(),
                        e,
                    ) == v);
                }
            }
        }
    }
}

} // verus!
