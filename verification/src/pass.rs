//! The run of the lowering pass over a whole graph.

use crate::compiler::folded;
use crate::compiler::lowered;
use crate::compiler::planned;
use crate::compiler::plans;
use crate::compiler::step_done;
use crate::graph::Graph;
use crate::graph::NodeIndex;
use crate::lower::Action;
use crate::lower::CompileError;
use crate::store::tensors_model;
use crate::tensor::Tensor;
use vstd::prelude::*;

verus! {

/// Runs the lowering pass on `graph`. `ids` are the references to nodes
/// that the caller holds; those to a node that is replaced are made to name
/// its replacement.
///
/// The pass either handles every node, or gives up and leaves the graph and
/// the references exactly as they were; it then reports the node with the
/// lowest id that it cannot handle.
pub fn compile<T: Copy>(graph: &mut Graph<T>, ids: &mut Vec<NodeIndex>) -> (r: Result<
    (),
    CompileError,
>)
    requires
        old(graph).wf(),
    ensures
        final(graph).wf(),
        match r {
            Ok(_) => exists|plan: Seq<(usize, Action<T>)>, trail: Seq<(Graph<T>, Seq<usize>)>|
                lowered(*old(graph), old(ids)@, plan, trail, *final(graph), final(ids)@),
            Err(e) => {
                &&& *final(graph) == *old(graph)
                &&& *final(ids) == *old(ids)
                &&& exists|v: usize|
                    {
                        &&& old(graph).contains(v as int)
                        &&& #[trigger] plans(
                            *old(graph),
                            v,
                            Err::<Option<Action<T>>, CompileError>(e),
                        )
                        &&& forall|u: int|
                            0 <= u < v && #[trigger] old(graph).contains(u) ==> planned(
                                *old(graph),
                                u as usize,
                            )
                    }
            },
        },
{
    let ghost g0 = *graph;
    let ghost ids0 = ids@;
    let n: usize = graph.nodes.len();
    let mut found: Vec<(usize, Action<T>)> = Vec::new();
    let mut v: usize = 0;
    while v < n
        invariant
            v <= n,
            n == g0.nodes.len(),
            *graph == g0,
            g0 == *old(graph),
            g0.wf(),
            *ids == *old(ids),
            forall|j: int|
                0 <= j < found.len() ==> (#[trigger] found[j]).0 < v && g0.contains(
                    found[j].0 as int,
                ) && plans(g0, found[j].0, Ok::<Option<Action<T>>, CompileError>(Some(found[j].1))),
            forall|j: int, k: int| 0 <= j < k < found.len() ==> found[j].0 < found[k].0,
            forall|u: int|
                0 <= u < v && #[trigger] g0.contains(u) ==> (exists|j: int|
                    0 <= j < found.len() && found[j].0 == u) || plans(
                    g0,
                    u as usize,
                    Ok::<Option<Action<T>>, CompileError>(None),
                ),
        decreases n - v,
    {
        let ghost before = found@;
        if graph.has_node(v) {
            match graph.plan_node(v) {
                Err(e) => {
                    proof {
                        assert forall|u: int| 0 <= u < v && #[trigger] g0.contains(u) implies planned(
                            g0,
                            u as usize,
                        ) by {
                            if exists|j: int| 0 <= j < found.len() && found[j].0 == u {
                                let j = choose|j: int| 0 <= j < found.len() && found[j].0 == u;
                                assert(plans(
                                    g0,
                                    found[j].0,
                                    Ok::<Option<Action<T>>, CompileError>(Some(found[j].1)),
                                ));
                            } else {
                                assert(plans(
                                    g0,
                                    u as usize,
                                    Ok::<Option<Action<T>>, CompileError>(None),
                                ));
                            }
                        }
                    }
                    return Err(e);
                },
                Ok(None) => {},
                Ok(Some(a)) => {
                    found.push((v, a));
                },
            }
        }
        proof {
            assert forall|u: int| 0 <= u < v + 1 && #[trigger] g0.contains(u) implies (exists|
                j: int,
            |
                0 <= j < found.len() && found[j].0 == u) || plans(
                g0,
                u as usize,
                Ok::<Option<Action<T>>, CompileError>(None),
            ) by {
                if u == v {
                    if found.len() > before.len() {
                        assert(found[found.len() - 1].0 == u);
                    }
                } else {
                    if exists|j: int| 0 <= j < before.len() && before[j].0 == u {
                        let j = choose|j: int| 0 <= j < before.len() && before[j].0 == u;
                        assert(found[j].0 == u);
                    }
                }
            }
        }
        v += 1;
    }
    // the nodes are handled from the lowest id up: the last found is put first
    let ghost rising = found@;
    let mut todo: Vec<(usize, Action<T>)> = Vec::new();
    while found.len() > 0
        invariant
            found.len() + todo.len() == rising.len(),
            forall|j: int| 0 <= j < found.len() ==> found[j] == rising[j],
            forall|j: int| 0 <= j < todo.len() ==> todo[j] == rising[rising.len() - 1 - j],
        decreases found.len(),
    {
        match found.pop() {
            Some(x) => {
                todo.push(x);
            },
            None => {},
        }
    }
    proof {
        assert forall|j: int| 0 <= j < todo.len() implies (#[trigger] todo[j]).0 < n && g0.contains(
            todo[j].0 as int,
        ) && plans(g0, todo[j].0, Ok::<Option<Action<T>>, CompileError>(Some(todo[j].1))) by {
            assert(todo[j] == rising[rising.len() - 1 - j]);
        }
        assert forall|j: int, k: int| 0 <= j < k < todo.len() implies todo[j].0 > todo[k].0 by {
            assert(todo[j] == rising[rising.len() - 1 - j]);
            assert(todo[k] == rising[rising.len() - 1 - k]);
        }
        assert forall|u: int| #[trigger] g0.contains(u) implies (exists|j: int|
            0 <= j < todo.len() && todo[j].0 == u) || plans(
            g0,
            u as usize,
            Ok::<Option<Action<T>>, CompileError>(None),
        ) by {
            if exists|j: int| 0 <= j < rising.len() && rising[j].0 == u {
                let j = choose|j: int| 0 <= j < rising.len() && rising[j].0 == u;
                assert(todo[rising.len() - 1 - j] == rising[j]);
            }
        }
    }
    let ghost full = todo@;
    let ghost mut plan: Seq<(usize, Action<T>)> = Seq::empty();
    let ghost mut trail: Seq<(Graph<T>, Seq<usize>)> = seq![(g0, ids0)];
    while todo.len() > 0
        invariant
            graph.wf(),
            n == g0.nodes.len(),
            graph.nodes.len() >= n,
            todo.len() + plan.len() == full.len(),
            forall|j: int| 0 <= j < todo.len() ==> todo[j] == full[j],
            forall|j: int| 0 <= j < plan.len() ==> plan[j] == full[full.len() - 1 - j],
            forall|j: int| 0 <= j < full.len() ==> (#[trigger] full[j]).0 < n,
            forall|j: int, k: int| 0 <= j < k < full.len() ==> full[j].0 > full[k].0,
            forall|j: int|
                0 <= j < todo.len() ==> graph.nodes[(#[trigger] todo[j]).0 as int]
                    == g0.nodes[todo[j].0 as int],
            forall|j: int| 0 <= j < full.len() ==> g0.contains((#[trigger] full[j]).0 as int),
            trail.len() == plan.len() + 1,
            trail[0] == (g0, ids0),
            trail[plan.len() as int] == (*graph, ids@),
            forall|j: int|
                0 <= j < plan.len() ==> step_done(trail[j], trail[j + 1], #[trigger] plan[j]),
        decreases todo.len(),
    {
        let ghost before = *graph;
        let ghost ids_before = ids@;
        let ghost rest = todo@.drop_last();
        let ghost step = todo@.last();
        let (v, a) = match todo.pop() {
            Some(x) => x,
            None => {
                assert(false);
                return Ok(());
            },
        };
        assert(step == (v, a));
        assert(before.contains(v as int)) by {
            assert(full[rest.len() as int].0 == v);
            assert(g0.contains(v as int));
        }
        match a {
            Action::Fold(c) => {
                let mut data: Vec<T> = Vec::new();
                data.push(c);
                assert(data@ =~= seq![c]);
                graph.set_tensor(v, Tensor::new(data));
                proof {
                    assert(graph.links() == before.links());
                    let outs = graph.results(v as int)->Some_0;
                    assert(tensors_model(outs) =~= seq![seq![c]]);
                    assert(folded(before, *graph, v, c));
                }
            },
            Action::Replace(op) => {
                match graph.replace_node(v, op, ids) {
                    Ok(_) => {},
                    Err(_) => {
                        assert(false);
                    },
                }
            },
        }
        proof {
            assert(step_done((before, ids_before), (*graph, ids@), step));
            assert forall|j: int| 0 <= j < todo.len() implies graph.nodes[(
            #[trigger] todo[j]).0 as int] == g0.nodes[todo[j].0 as int] by {
                assert(todo[j] == full[j]);
                assert(full[j].0 > full[rest.len() as int].0);
                assert(full[j].0 < n);
            }
            let old_plan = plan;
            let old_trail = trail;
            plan = plan.push(step);
            trail = trail.push((*graph, ids@));
            assert forall|j: int| 0 <= j < plan.len() implies step_done(
                trail[j],
                trail[j + 1],
                #[trigger] plan[j],
            ) by {
                if j < old_plan.len() {
                    assert(plan[j] == old_plan[j]);
                    assert(trail[j] == old_trail[j]);
                    assert(trail[j + 1] == old_trail[j + 1]);
                    assert(step_done(old_trail[j], old_trail[j + 1], old_plan[j]));
                }
            }
        }
    }
    proof {
        assert forall|v: int| #[trigger] g0.contains(v) implies (exists|j: int|
            0 <= j < plan.len() && plan[j].0 == v) || plans(
            g0,
            v as usize,
            Ok::<Option<Action<T>>, CompileError>(None),
        ) by {
            if exists|j: int| 0 <= j < full.len() && full[j].0 == v {
                let j = choose|j: int| 0 <= j < full.len() && full[j].0 == v;
                assert(plan[full.len() - 1 - j] == full[j]);
            }
        }
        assert forall|j: int, k: int| 0 <= j < k < plan.len() implies plan[j].0 < plan[k].0 by {
            assert(plan[j] == full[full.len() - 1 - j]);
            assert(plan[k] == full[full.len() - 1 - k]);
        }
        assert forall|j: int| 0 <= j < plan.len() implies g0.contains(
            (#[trigger] plan[j]).0 as int,
        ) && plans(g0, plan[j].0, Ok::<Option<Action<T>>, CompileError>(Some(plan[j].1)))
            && step_done(trail[j], trail[j + 1], plan[j]) by {
            assert(plan[j] == full[full.len() - 1 - j]);
        }
        assert(lowered(g0, ids0, plan, trail, *graph, ids@));
    }
    Ok(())
}

} // verus!
