//! An operator run ahead of time: the host runs a program on the results
//! that the inputs of a node hold already, and the node is replaced by one
//! that holds the outcome.

use crate::elementwise::model_of;
use crate::elementwise::OpError;
use crate::engine::ExecError;
use crate::graph::Delegate;
use crate::graph::Graph;
use crate::graph::NodeIndex;
use crate::graph::Op;
use crate::graph::OpCategory;
use crate::ops::arity;
use crate::ops::lemma_fed_node;
use crate::query::around;
use crate::query::belongs;
use crate::query::lemma_around;
use crate::replace::replaces;
use crate::step::host_outcome;
use crate::step::host_total;
use crate::step::StepError;
use crate::store::tensors_model;
use crate::tensor::InputTensor;
use crate::tensor::Tensor;
use crate::topo::has_link;
use crate::tracker::LayerSpec;
use crate::tracker::ShapeTracker;
use vstd::prelude::*;

verus! {

/// Whether every output that node `v` reads is held by the node that
/// produces it.
pub open spec fn operands_held<T>(g: Graph<T>, v: int) -> bool {
    let ins = around(g.edges@, v, false);
    forall|k: int|
        0 <= k < ins.len() ==> {
            let e = g.edges[#[trigger] ins[k] as int]->Some_0;
            g.results(e.source as int) is Some && e.output < g.results(
                e.source as int,
            )->Some_0.len()
        }
}

/// The inputs of node `v`, read from the results that their nodes hold.
pub open spec fn operands<T>(g: Graph<T>, v: int) -> Seq<(Seq<T>, Seq<LayerSpec>)> {
    let ins = around(g.edges@, v, false);
    Seq::new(
        ins.len(),
        |k: int|
            {
                let e = g.edges[ins[k] as int]->Some_0;
                (g.results(e.source as int)->Some_0[e.output as int].data@, e.shape@)
            },
    )
}

/// The operator that runs the program `name` on the elements of its inputs.
pub open spec fn elementwise_program<T>(name: String) -> Op<T> {
    Op::Delegated(Delegate { program: name, category: OpCategory::Unary })
}

/// Whether the graph `after` is the graph `before` in which node `node` has
/// been replaced, by the rewrite protocol, with the new node `new`, which
/// has the operator `op` and holds results of the content `out`.
pub open spec fn precomputed<T>(
    before: Graph<T>,
    after: Graph<T>,
    node: usize,
    op: Op<T>,
    new: usize,
    out: Seq<Seq<T>>,
) -> bool {
    exists|mid: Graph<T>|
        {
            &&& #[trigger] replaces(
                before,
                Seq::<usize>::empty(),
                mid,
                Seq::<usize>::empty(),
                node,
                op,
                new,
            )
            &&& after.edges == mid.edges
            &&& after.dyn_map == mid.dyn_map
            &&& after.nodes.len() == mid.nodes.len()
            &&& forall|v: int|
                0 <= v < mid.nodes.len() && v != new ==> after.nodes[v] == mid.nodes[v]
            &&& after.nodes[new as int] is Some
            &&& after.nodes[new as int]->Some_0.op == op
            &&& after.nodes[new as int]->Some_0.keep == mid.nodes[new as int]->Some_0.keep
            &&& after.results(new as int) is Some
            &&& tensors_model(after.results(new as int)->Some_0) == out
        }
}

/// Runs the addition at `node` ahead of time: the host runs the program
/// `sierra_file` on the results that the two inputs of the node hold, and the
/// node is replaced by a node that holds what the host returned.
///
/// Refused, with nothing changed, when the node does not have exactly two
/// inputs, when an input does not hold the output that the node reads, and
/// when the host fails.
pub fn compile_add<
    T,
    H: for <'a> Fn(&'a Op<T>, Vec<(InputTensor<'a, T>, ShapeTracker)>) -> Result<
        Vec<Tensor<T>>,
        String,
    >,
>(graph: &mut Graph<T>, node: NodeIndex, host: &H, sierra_file: String) -> (r: Result<
    (),
    ExecError,
>)
    requires
        old(graph).wf(),
        host_total(*host),
    ensures
        final(graph).wf(),
        match r {
            Ok(_) => {
                &&& arity(*old(graph), node) == 2
                &&& operands_held(*old(graph), node as int)
                &&& exists|out: Seq<Seq<T>>|
                    {
                        &&& #[trigger] host_outcome(
                            elementwise_program(sierra_file),
                            operands(*old(graph), node as int),
                            *host,
                            Ok::<Seq<Seq<T>>, StepError>(out),
                        )
                        &&& precomputed(
                            *old(graph),
                            *final(graph),
                            node,
                            elementwise_program(sierra_file),
                            old(graph).nodes.len(),
                            out,
                        )
                    }
            },
            Err(e) => {
                &&& *final(graph) == *old(graph)
                &&& match e {
                    ExecError::Op(n, why) => {
                        &&& n == node
                        &&& why == OpError::Arity
                        &&& arity(*old(graph), node) != 2
                    },
                    ExecError::MissingTensor(s) => {
                        &&& arity(*old(graph), node) == 2
                        &&& !operands_held(*old(graph), node as int)
                        &&& old(graph).contains(s as int)
                        &&& old(graph).feeds(s as int, node as int)
                        &&& old(graph).starved_by(node as int, s as int)
                    },
                    ExecError::Backend(n, cause) => {
                        &&& n == node
                        &&& arity(*old(graph), node) == 2
                        &&& operands_held(*old(graph), node as int)
                        &&& host_outcome(
                            elementwise_program(sierra_file),
                            operands(*old(graph), node as int),
                            *host,
                            Err::<Seq<Seq<T>>, StepError>(StepError::Backend(cause)),
                        )
                    },
                }
            },
        },
{
    let ghost g0 = *graph;
    let srcs = graph.get_sources(node);
    if srcs.len() != 2 {
        return Err(ExecError::Op(node, OpError::Arity));
    }
    proof {
        lemma_fed_node(*graph, node);
    }
    let op: Op<T> = Op::Delegated(Delegate { program: sierra_file, category: OpCategory::Unary });
    let inputs = match graph.gather_inputs(node) {
        Ok(x) => x,
        Err(s) => {
            proof {
                let e = choose|e: int|
                    #![trigger has_link(g0.links(), e)]
                    has_link(g0.links(), e) && g0.edges[e]->Some_0.source == s
                        && g0.edges[e]->Some_0.target == node && !(g0.results(s as int) is Some
                        && g0.edges[e]->Some_0.output < g0.results(s as int)->Some_0.len());
                let ins = around(g0.edges@, node as int, false);
                assert(g0.edges@.len() == g0.edges.len());
                lemma_around(g0.edges@, node as int, false);
                assert(belongs(g0.edges@[e], node as int, false));
                assert(ins.contains(e as usize));
                let k = choose|k: int| 0 <= k < ins.len() && ins[k] == e as usize;
                assert(ins[k] as int == e);
                assert(!operands_held(g0, node as int));
            }
            return Err(ExecError::MissingTensor(s));
        },
    };
    let ghost given = inputs;
    assert(model_of(inputs@) =~= operands(g0, node as int));
    let res = host(&op, inputs);
    let ts = match res {
        Ok(ts) => ts,
        Err(cause) => {
            return Err(ExecError::Backend(node, cause));
        },
    };
    let ghost out = tensors_model(ts);
    assert(host_outcome(op, operands(g0, node as int), *host, Ok::<Seq<Seq<T>>, StepError>(out)))
        by {
        assert(call_ensures(*host, (&op, given), res));
    }
    let mut none: Vec<NodeIndex> = Vec::new();
    let new: usize = match graph.replace_node(node, op, &mut none) {
        Ok(id) => id,
        Err(_) => {
            assert(false);
            return Err(ExecError::MissingTensor(node));
        },
    };
    let ghost mid = *graph;
    proof {
        assert(none@ =~= Seq::<usize>::empty());
    }
    graph.set_tensors(new, ts);
    proof {
        assert(graph.links() == mid.links());
        assert(replaces(g0, Seq::<usize>::empty(), mid, Seq::<usize>::empty(), node, op, new));
        assert(precomputed(g0, *graph, node, op, new, out));
    }
    Ok(())
}

} // verus!
