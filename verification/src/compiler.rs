//! The lowering pass: every primitive operator that has a program is
//! replaced, by the rewrite protocol, with an operator that runs outside the
//! library; every constant is given its result ahead of time.
//!
//! The pass first plans what it will do with every node, and changes
//! nothing; only when every node can be handled does it change the graph. A
//! pass that gives up leaves the graph as it was.

use crate::graph::Delegate;
use crate::graph::Graph;
use crate::graph::NodeIndex;
use crate::graph::Op;
use crate::graph::OpCategory;
use crate::lower::binary_lowering;
use crate::lower::binary_program;
use crate::lower::binary_program_name;
use crate::lower::lower_binary;
use crate::lower::lower_reduce;
use crate::lower::reduce_lowering;
use crate::lower::unary_program;
use crate::lower::unary_program_name;
use crate::lower::Action;
use crate::lower::CompileError;
use crate::query::around;
use crate::replace::replaces;
use crate::store::tensors_model;
use crate::tracker::LayerSpec;
use crate::tracker::ShapeError;
use vstd::prelude::*;

verus! {

/// The outcome of lowering one operator, as the outcome of planning a node.
pub open spec fn from_lowering<T>(v: usize, r: Result<Op<T>, ShapeError>) -> Result<
    Option<Action<T>>,
    CompileError,
> {
    match r {
        Ok(op) => Ok(Some(Action::Replace(op))),
        Err(e) => Err(CompileError::Shape(v, e)),
    }
}

/// The tracker through which node `v` reads its input `k`.
pub open spec fn input_tracker<T>(g: Graph<T>, v: int, k: int) -> Seq<LayerSpec> {
    g.edges[around(g.edges@, v, false)[k] as int]->Some_0.shape@
}

/// Whether `r` is what the pass plans for node `v`:
///
/// - an opaque function, a diagnostic, an operator that already runs outside
///   the library and an operator without a program are left alone;
/// - a constant is folded;
/// - a contiguous copy is replaced by a fresh one;
/// - a primitive operator with a program is replaced by the operator that
///   runs the program, with its tables;
/// - a wrong number of inputs, and a shape that does not resolve or does
///   not suit the operator, make the pass give up.
pub open spec fn plans<T>(g: Graph<T>, v: usize, r: Result<Option<Action<T>>, CompileError>) -> bool {
    let arity = around(g.edges@, v as int, false).len();
    let env = g.dyn_map@;
    match g.nodes[v as int]->Some_0.op {
        Op::Function(_) => r == Ok::<Option<Action<T>>, CompileError>(None),
        Op::Print(_) => r == Ok::<Option<Action<T>>, CompileError>(None),
        Op::Delegated(_) => r == Ok::<Option<Action<T>>, CompileError>(None),
        Op::Constant(c) => r == Ok::<Option<Action<T>>, CompileError>(Some(Action::Fold(c))),
        Op::Contiguous => if arity != 1 {
            r == Err::<Option<Action<T>>, CompileError>(CompileError::UnsupportedOperation(v))
        } else {
            r == Ok::<Option<Action<T>>, CompileError>(Some(Action::Replace(Op::Contiguous)))
        },
        Op::Unary(k) => if arity != 1 {
            r == Err::<Option<Action<T>>, CompileError>(CompileError::UnsupportedOperation(v))
        } else {
            &&& r is Ok
            &&& r->Ok_0 is Some
            &&& r->Ok_0->Some_0 is Replace
            &&& r->Ok_0->Some_0->Replace_0 is Delegated
            &&& r->Ok_0->Some_0->Replace_0->Delegated_0.program@ == unary_program(k)
            &&& r->Ok_0->Some_0->Replace_0->Delegated_0.category is Unary
        },
        Op::Binary(k) => if binary_program(k) is None {
            r == Ok::<Option<Action<T>>, CompileError>(None)
        } else if arity != 2 {
            r == Err::<Option<Action<T>>, CompileError>(CompileError::UnsupportedOperation(v))
        } else {
            exists|res: Result<Op<T>, ShapeError>| #[trigger]
                binary_lowering(
                    binary_program(k)->Some_0,
                    input_tracker(g, v as int, 0),
                    input_tracker(g, v as int, 1),
                    env,
                    res,
                ) && r == from_lowering(v, res)
        },
        Op::SumReduce(axis) => if arity != 1 {
            r == Err::<Option<Action<T>>, CompileError>(CompileError::UnsupportedOperation(v))
        } else {
            exists|res: Result<Op<T>, ShapeError>| #[trigger]
                reduce_lowering(false, axis, input_tracker(g, v as int, 0), env, res) && r
                    == from_lowering(v, res)
        },
        Op::MaxReduce(axis) => if arity != 1 {
            r == Err::<Option<Action<T>>, CompileError>(CompileError::UnsupportedOperation(v))
        } else {
            exists|res: Result<Op<T>, ShapeError>| #[trigger]
                reduce_lowering(true, axis, input_tracker(g, v as int, 0), env, res) && r
                    == from_lowering(v, res)
        },
    }
}

/// Whether the pass can handle node `v`: it leaves the node alone, or knows
/// what to do with it.
pub open spec fn planned<T>(g: Graph<T>, v: usize) -> bool {
    exists|x: Option<Action<T>>| #[trigger] plans(g, v, Ok::<Option<Action<T>>, CompileError>(x))
}

/// Whether the graph `after` is the graph `before` in which the constant
/// node `v` has been given its result `c`.
pub open spec fn folded<T>(before: Graph<T>, after: Graph<T>, v: usize, c: T) -> bool {
    &&& before.contains(v as int)
    &&& after.edges == before.edges
    &&& after.dyn_map == before.dyn_map
    &&& after.nodes.len() == before.nodes.len()
    &&& forall|u: int|
        0 <= u < before.nodes.len() && u != v ==> after.nodes[u] == before.nodes[u]
    &&& after.nodes[v as int] is Some
    &&& after.nodes[v as int]->Some_0.op == before.nodes[v as int]->Some_0.op
    &&& after.nodes[v as int]->Some_0.keep == before.nodes[v as int]->Some_0.keep
    &&& after.results(v as int) is Some
    &&& tensors_model(after.results(v as int)->Some_0) == seq![seq![c]]
}

/// Whether one step of the pass leads from one graph, with the caller's
/// references, to the next.
pub open spec fn step_done<T>(
    before: (Graph<T>, Seq<usize>),
    after: (Graph<T>, Seq<usize>),
    step: (usize, Action<T>),
) -> bool {
    match step.1 {
        Action::Fold(c) => folded(before.0, after.0, step.0, c) && after.1 == before.1,
        Action::Replace(op) => replaces(
            before.0,
            before.1,
            after.0,
            after.1,
            step.0,
            op,
            before.0.nodes.len(),
        ),
    }
}

/// Whether the pass leads from the graph `g0` and the references `ids0` to
/// the graph `g` and the references `ids`, by the steps of `plan`, through
/// the graphs of `trail`: the plan holds, in the order of their ids, exactly
/// the nodes that the pass handles, each with what the pass plans for it in
/// `g0`, and every step leads from one graph of the trail to the next.
pub open spec fn lowered<T>(
    g0: Graph<T>,
    ids0: Seq<usize>,
    plan: Seq<(usize, Action<T>)>,
    trail: Seq<(Graph<T>, Seq<usize>)>,
    g: Graph<T>,
    ids: Seq<usize>,
) -> bool {
    &&& trail.len() == plan.len() + 1
    &&& trail[0] == (g0, ids0)
    &&& trail[plan.len() as int] == (g, ids)
    &&& forall|j: int|
        0 <= j < plan.len() ==> g0.contains((#[trigger] plan[j]).0 as int) && plans(
            g0,
            plan[j].0,
            Ok::<Option<Action<T>>, CompileError>(Some(plan[j].1)),
        ) && step_done(trail[j], trail[j + 1], plan[j])
    &&& forall|j: int, k: int| 0 <= j < k < plan.len() ==> plan[j].0 < plan[k].0
    &&& forall|v: int| #[trigger]
        g0.contains(v) ==> (exists|j: int| 0 <= j < plan.len() && plan[j].0 == v) || plans(
            g0,
            v as usize,
            Ok::<Option<Action<T>>, CompileError>(None),
        )
}

impl<T: Copy> Graph<T> {
    /// What the pass plans for node `v`.
    pub fn plan_node(&self, v: NodeIndex) -> (r: Result<Option<Action<T>>, CompileError>)
        requires
            self.contains(v as int),
        ensures
            plans(*self, v, r),
    {
        let srcs = self.get_sources(v);
        match self.op_of(v) {
            Op::Function(_) => Ok(None),
            Op::Print(_) => Ok(None),
            Op::Delegated(_) => Ok(None),
            Op::Constant(c) => Ok(Some(Action::Fold(*c))),
            Op::Contiguous => {
                if srcs.len() != 1 {
                    Err(CompileError::UnsupportedOperation(v))
                } else {
                    Ok(Some(Action::Replace(Op::Contiguous)))
                }
            },
            Op::Unary(k) => {
                if srcs.len() != 1 {
                    Err(CompileError::UnsupportedOperation(v))
                } else {
                    Ok(
                        Some(
                            Action::Replace(
                                Op::Delegated(
                                    Delegate {
                                        program: unary_program_name(*k),
                                        category: OpCategory::Unary,
                                    },
                                ),
                            ),
                        ),
                    )
                }
            },
            Op::Binary(k) => {
                match binary_program_name(*k) {
                    None => Ok(None),
                    Some(name) => {
                        if srcs.len() != 2 {
                            Err(CompileError::UnsupportedOperation(v))
                        } else {
                            assert(binary_program(*k)->Some_0 == name@);
                            let res = lower_binary::<T>(
                                name,
                                &srcs[0].2,
                                &srcs[1].2,
                                &self.dyn_map,
                            );
                            assert(srcs[0].2@ == input_tracker(*self, v as int, 0));
                            assert(srcs[1].2@ == input_tracker(*self, v as int, 1));
                            match res {
                                Ok(op) => Ok(Some(Action::Replace(op))),
                                Err(e) => Err(CompileError::Shape(v, e)),
                            }
                        }
                    },
                }
            },
            Op::SumReduce(axis) => {
                if srcs.len() != 1 {
                    Err(CompileError::UnsupportedOperation(v))
                } else {
                    let res = lower_reduce::<T>(false, *axis, &srcs[0].2, &self.dyn_map);
                    assert(srcs[0].2@ == input_tracker(*self, v as int, 0));
                    match res {
                        Ok(op) => Ok(Some(Action::Replace(op))),
                        Err(e) => Err(CompileError::Shape(v, e)),
                    }
                }
            },
            Op::MaxReduce(axis) => {
                if srcs.len() != 1 {
                    Err(CompileError::UnsupportedOperation(v))
                } else {
                    let res = lower_reduce::<T>(true, *axis, &srcs[0].2, &self.dyn_map);
                    assert(srcs[0].2@ == input_tracker(*self, v as int, 0));
                    match res {
                        Ok(op) => Ok(Some(Action::Replace(op))),
                        Err(e) => Err(CompileError::Shape(v, e)),
                    }
                }
            },
        }
    }
}

} // verus!
