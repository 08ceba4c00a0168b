//! The lowering of one node: the node is replaced, by the rewrite protocol,
//! with an operator that runs a program outside the library.

use crate::compiler::input_tracker;
use crate::graph::Delegate;
use crate::graph::Graph;
use crate::graph::NodeIndex;
use crate::graph::Op;
use crate::graph::OpCategory;
use crate::lower::binary_lowering;
use crate::lower::lower_binary;
use crate::lower::lower_reduce;
use crate::lower::reduce_lowering;
use crate::lower::CompileError;
use crate::query::around;
use crate::query::belongs;
use crate::query::lemma_around;
use crate::replace::replaces;
use crate::topo::has_link;
use crate::topo::head;
use crate::topo::is_alive;
use crate::tracker::ShapeError;
use vstd::prelude::*;

verus! {

/// The number of inputs of node `v`.
pub open spec fn arity<T>(g: Graph<T>, v: usize) -> nat {
    around(g.edges@, v as int, false).len()
}

/// A node with an input is a node of the graph.
pub proof fn lemma_fed_node<T>(g: Graph<T>, v: usize)
    requires
        g.wf(),
        arity(g, v) > 0,
    ensures
        g.contains(v as int),
{
    assert(g.edges@.len() == g.edges.len());
    lemma_around(g.edges@, v as int, false);
    let e = around(g.edges@, v as int, false)[0] as int;
    assert(belongs(g.edges[e], v as int, false));
    assert(has_link(g.links(), e));
    assert(is_alive(g.alive(), head(g.links(), e)));
}

/// Replaces the unary operator at `node` by the operator that runs the
/// program `sierra_file`. Refused, with nothing changed, unless the node has
/// exactly one input.
pub fn compile_unary<T>(
    graph: &mut Graph<T>,
    node: NodeIndex,
    ids: &mut Vec<NodeIndex>,
    sierra_file: String,
) -> (r: Result<(), CompileError>)
    requires
        old(graph).wf(),
    ensures
        final(graph).wf(),
        match r {
            Ok(_) => {
                &&& arity(*old(graph), node) == 1
                &&& replaces(
                    *old(graph),
                    old(ids)@,
                    *final(graph),
                    final(ids)@,
                    node,
                    Op::Delegated(Delegate { program: sierra_file, category: OpCategory::Unary }),
                    old(graph).nodes.len(),
                )
            },
            Err(e) => {
                &&& arity(*old(graph), node) != 1
                &&& e == CompileError::UnsupportedOperation(node)
                &&& *final(graph) == *old(graph)
                &&& *final(ids) == *old(ids)
            },
        },
{
    let srcs = graph.get_sources(node);
    if srcs.len() != 1 {
        return Err(CompileError::UnsupportedOperation(node));
    }
    proof {
        lemma_fed_node(*graph, node);
    }
    let op = Op::Delegated(Delegate { program: sierra_file, category: OpCategory::Unary });
    match graph.replace_node(node, op, ids) {
        Ok(_) => Ok(()),
        Err(_) => {
            assert(false);
            Err(CompileError::UnsupportedOperation(node))
        },
    }
}

/// Replaces the binary operator at `node` by the operator that runs the
/// program `sierra_file`, with the tables of its two operands. Refused, with
/// nothing changed, unless the node has exactly two inputs, whose shapes
/// resolve and can be broadcast to one another.
pub fn compile_binary<T>(
    graph: &mut Graph<T>,
    node: NodeIndex,
    ids: &mut Vec<NodeIndex>,
    sierra_file: String,
) -> (r: Result<(), CompileError>)
    requires
        old(graph).wf(),
    ensures
        final(graph).wf(),
        match r {
            Ok(_) => {
                &&& arity(*old(graph), node) == 2
                &&& exists|op: Op<T>|
                    {
                        &&& #[trigger] binary_lowering(
                            sierra_file@,
                            input_tracker(*old(graph), node as int, 0),
                            input_tracker(*old(graph), node as int, 1),
                            old(graph).dyn_map@,
                            Ok::<Op<T>, ShapeError>(op),
                        )
                        &&& replaces(
                            *old(graph),
                            old(ids)@,
                            *final(graph),
                            final(ids)@,
                            node,
                            op,
                            old(graph).nodes.len(),
                        )
                    }
            },
            Err(e) => {
                &&& *final(graph) == *old(graph)
                &&& *final(ids) == *old(ids)
                &&& if arity(*old(graph), node) != 2 {
                    e == CompileError::UnsupportedOperation(node)
                } else {
                    &&& e is Shape
                    &&& e->Shape_0 == node
                    &&& binary_lowering(
                        sierra_file@,
                        input_tracker(*old(graph), node as int, 0),
                        input_tracker(*old(graph), node as int, 1),
                        old(graph).dyn_map@,
                        Err::<Op<T>, ShapeError>(e->Shape_1),
                    )
                }
            },
        },
{
    let srcs = graph.get_sources(node);
    if srcs.len() != 2 {
        return Err(CompileError::UnsupportedOperation(node));
    }
    proof {
        lemma_fed_node(*graph, node);
    }
    let res = lower_binary::<T>(sierra_file, &srcs[0].2, &srcs[1].2, &graph.dyn_map);
    assert(srcs[0].2@ == input_tracker(*graph, node as int, 0));
    assert(srcs[1].2@ == input_tracker(*graph, node as int, 1));
    match res {
        Err(e) => Err(CompileError::Shape(node, e)),
        Ok(op) => match graph.replace_node(node, op, ids) {
            Ok(_) => Ok(()),
            Err(_) => {
                assert(false);
                Err(CompileError::UnsupportedOperation(node))
            },
        },
    }
}

/// Replaces the multiplication at `node` by the operator that runs the
/// program `sierra_file`, with the tables of its two operands: a binary
/// operator like any other.
pub fn compile_mul<T>(
    graph: &mut Graph<T>,
    node: NodeIndex,
    ids: &mut Vec<NodeIndex>,
    sierra_file: String,
) -> (r: Result<(), CompileError>)
    requires
        old(graph).wf(),
    ensures
        final(graph).wf(),
        match r {
            Ok(_) => {
                &&& arity(*old(graph), node) == 2
                &&& exists|op: Op<T>|
                    {
                        &&& #[trigger] binary_lowering(
                            sierra_file@,
                            input_tracker(*old(graph), node as int, 0),
                            input_tracker(*old(graph), node as int, 1),
                            old(graph).dyn_map@,
                            Ok::<Op<T>, ShapeError>(op),
                        )
                        &&& replaces(
                            *old(graph),
                            old(ids)@,
                            *final(graph),
                            final(ids)@,
                            node,
                            op,
                            old(graph).nodes.len(),
                        )
                    }
            },
            Err(e) => {
                &&& *final(graph) == *old(graph)
                &&& *final(ids) == *old(ids)
                &&& if arity(*old(graph), node) != 2 {
                    e == CompileError::UnsupportedOperation(node)
                } else {
                    &&& e is Shape
                    &&& e->Shape_0 == node
                    &&& binary_lowering(
                        sierra_file@,
                        input_tracker(*old(graph), node as int, 0),
                        input_tracker(*old(graph), node as int, 1),
                        old(graph).dyn_map@,
                        Err::<Op<T>, ShapeError>(e->Shape_1),
                    )
                }
            },
        },
{
    compile_binary(graph, node, ids, sierra_file)
}

/// Replaces the reduction along `axis` at `node`, a maximum if `max` and a
/// sum otherwise, by the operator that runs its program, with the table of
/// output positions where the input has more than one axis. Refused, with
/// nothing changed, unless the node has exactly one input, whose shape
/// resolves and has the axis.
pub fn compile_reduce<T>(
    graph: &mut Graph<T>,
    node: NodeIndex,
    ids: &mut Vec<NodeIndex>,
    max: bool,
    axis: usize,
) -> (r: Result<(), CompileError>)
    requires
        old(graph).wf(),
    ensures
        final(graph).wf(),
        match r {
            Ok(_) => {
                &&& arity(*old(graph), node) == 1
                &&& exists|op: Op<T>|
                    {
                        &&& #[trigger] reduce_lowering(
                            max,
                            axis,
                            input_tracker(*old(graph), node as int, 0),
                            old(graph).dyn_map@,
                            Ok::<Op<T>, ShapeError>(op),
                        )
                        &&& replaces(
                            *old(graph),
                            old(ids)@,
                            *final(graph),
                            final(ids)@,
                            node,
                            op,
                            old(graph).nodes.len(),
                        )
                    }
            },
            Err(e) => {
                &&& *final(graph) == *old(graph)
                &&& *final(ids) == *old(ids)
                &&& if arity(*old(graph), node) != 1 {
                    e == CompileError::UnsupportedOperation(node)
                } else {
                    &&& e is Shape
                    &&& e->Shape_0 == node
                    &&& reduce_lowering(
                        max,
                        axis,
                        input_tracker(*old(graph), node as int, 0),
                        old(graph).dyn_map@,
                        Err::<Op<T>, ShapeError>(e->Shape_1),
                    )
                }
            },
        },
{
    let srcs = graph.get_sources(node);
    if srcs.len() != 1 {
        return Err(CompileError::UnsupportedOperation(node));
    }
    proof {
        lemma_fed_node(*graph, node);
    }
    let res = lower_reduce::<T>(max, axis, &srcs[0].2, &graph.dyn_map);
    assert(srcs[0].2@ == input_tracker(*graph, node as int, 0));
    match res {
        Err(e) => Err(CompileError::Shape(node, e)),
        Ok(op) => match graph.replace_node(node, op, ids) {
            Ok(_) => Ok(()),
            Err(_) => {
                assert(false);
                Err(CompileError::UnsupportedOperation(node))
            },
        },
    }
}

} // verus!
