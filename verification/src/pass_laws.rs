//! Laws of the passes: what one pass does is a chain of rewrites, and two
//! chains, one after the other, are one chain.

use crate::compiler::lowered;
use crate::compiler::step_done;
use crate::graph::Graph;
use crate::lower::Action;
use vstd::prelude::*;

verus! {

/// Whether the steps lead, one after the other, from the first graph of the
/// trail to the last: every step is a fold of a constant or a replacement by
/// the rewrite protocol.
pub open spec fn rewrites<T>(
    steps: Seq<(usize, Action<T>)>,
    trail: Seq<(Graph<T>, Seq<usize>)>,
) -> bool {
    &&& trail.len() == steps.len() + 1
    &&& forall|j: int|
        0 <= j < steps.len() ==> step_done(trail[j], trail[j + 1], #[trigger] steps[j])
}

/// What the lowering pass does is a chain of rewrites from the graph that
/// it is given to the graph that it leaves.
pub proof fn lemma_lowered_rewrites<T>(
    g0: Graph<T>,
    ids0: Seq<usize>,
    plan: Seq<(usize, Action<T>)>,
    trail: Seq<(Graph<T>, Seq<usize>)>,
    g: Graph<T>,
    ids: Seq<usize>,
)
    requires
        lowered(g0, ids0, plan, trail, g, ids),
    ensures
        rewrites(plan, trail),
        trail[0] == (g0, ids0),
        trail.last() == (g, ids),
{
}

/// Passes compose. A chain of rewrites that ends where another begins
/// makes, with it, one chain of rewrites: its steps are the steps of the
/// first followed by those of the second.
pub proof fn lemma_rewrites_compose<T>(
    first: Seq<(usize, Action<T>)>,
    first_trail: Seq<(Graph<T>, Seq<usize>)>,
    second: Seq<(usize, Action<T>)>,
    second_trail: Seq<(Graph<T>, Seq<usize>)>,
)
    requires
        rewrites(first, first_trail),
        rewrites(second, second_trail),
        first_trail.last() == second_trail[0],
    ensures
        rewrites(first + second, first_trail.drop_last() + second_trail),
        (first_trail.drop_last() + second_trail)[0] == first_trail[0],
        (first_trail.drop_last() + second_trail).last() == second_trail.last(),
{
    let steps = first + second;
    let trail = first_trail.drop_last() + second_trail;
    let n = first.len() as int;
    assert forall|j: int| 0 <= j < steps.len() implies step_done(
        trail[j],
        trail[j + 1],
        #[trigger] steps[j],
    ) by {
        if j < n {
            assert(steps[j] == first[j]);
            assert(trail[j] == first_trail[j]);
            if j + 1 < n {
                assert(trail[j + 1] == first_trail[j + 1]);
            } else {
                assert(trail[j + 1] == second_trail[0]);
                assert(first_trail[j + 1] == first_trail.last());
            }
            assert(step_done(first_trail[j], first_trail[j + 1], first[j]));
        } else {
            assert(steps[j] == second[j - n]);
            assert(trail[j] == second_trail[j - n]);
            assert(trail[j + 1] == second_trail[j - n + 1]);
            assert(step_done(second_trail[j - n], second_trail[j - n + 1], second[j - n]));
        }
    }
    if n > 0 {
        assert(trail[0] == first_trail[0]);
    } else {
        assert(trail[0] == second_trail[0]);
        assert(first_trail[0] == first_trail.last());
    }
}

} // verus!
