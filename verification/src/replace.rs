//! The replacement of a node, by the four steps of the rewrite protocol.

use crate::graph::Graph;
use crate::graph::GraphError;
use crate::graph::Node;
use crate::graph::NodeIndex;
use crate::graph::Op;
use crate::query::around;
use crate::query::belongs;
use crate::query::lemma_around;
use crate::rewrite::moved;
use crate::rewrite::remapped;
use crate::rewrite::replaced;
use crate::topo::has_link;
use crate::topo::head;
use crate::topo::is_alive;
use crate::topo::ranked;
use crate::topo::tail;
use vstd::prelude::*;

verus! {

/// Whether the graph `after`, with the references `ids_after`, is the graph
/// `before`, with the references `ids_before`, in which node `node` has been
/// replaced by the new node `new` with operator `op`:
///
/// - the old node is gone, and the new node, in a new slot, has the
///   operator, the retention mark of the old node, and no results;
/// - every other node is as it was;
/// - every reference to the old node is one to the new node;
/// - every edge that entered the old node is gone, and every edge that left
///   it leaves the new node, in the same slot;
/// - the new node has the inputs that the old node had, in the same order,
///   on new edges.
pub open spec fn replaces<T>(
    before: Graph<T>,
    ids_before: Seq<usize>,
    after: Graph<T>,
    ids_after: Seq<usize>,
    node: usize,
    op: Op<T>,
    new: usize,
) -> bool {
    &&& before.contains(node as int)
    &&& new == before.nodes.len()
    &&& after.dyn_map == before.dyn_map
    &&& after.nodes.len() == before.nodes.len() + 1
    &&& !after.contains(node as int)
    &&& after.nodes[new as int] == Some(
        Node { op, keep: before.nodes[node as int]->Some_0.keep, outputs: None },
    )
    &&& forall|v: int|
        0 <= v < before.nodes.len() && v != node ==> after.nodes[v] == before.nodes[v]
    &&& ids_after == remapped(ids_before, node, new)
    &&& after.edges.len() == before.edges.len() + around(before.edges@, node as int, false).len()
    &&& forall|e: int|
        0 <= e < before.edges.len() ==> #[trigger] after.edges[e] == replaced(
            before.edges[e],
            node as int,
            new,
        )
    &&& forall|k: int|
        0 <= k < around(before.edges@, node as int, false).len() ==> {
            let was = before.edges[around(before.edges@, node as int, false)[k] as int];
            let now = #[trigger] after.edges[before.edges.len() + k];
            &&& was is Some
            &&& now is Some
            &&& now->Some_0.source == was->Some_0.source
            &&& now->Some_0.output == was->Some_0.output
            &&& now->Some_0.target == new
            &&& now->Some_0.shape@ == was->Some_0.shape@
        }
}

/// A replacement preserves references. Where a reference of the caller
/// named the old node before the replacement, it names the new node after
/// it; the new node is a node of the graph, retained if the old node was,
/// and the old node is no node of the graph any more.
pub proof fn lemma_reference_follows<T>(
    before: Graph<T>,
    ids_before: Seq<usize>,
    after: Graph<T>,
    ids_after: Seq<usize>,
    node: usize,
    op: Op<T>,
    new: usize,
    k: int,
)
    requires
        replaces(before, ids_before, after, ids_after, node, op, new),
        0 <= k < ids_before.len(),
        ids_before[k] == node,
    ensures
        ids_after.len() == ids_before.len(),
        ids_after[k] == new,
        after.contains(new as int),
        after.kept(new as int) == before.kept(node as int),
        !after.contains(node as int),
{
}

impl<T> Graph<T> {
    /// Replaces node `node` by a new node with operator `op`:
    ///
    /// 1. the new node is built on the inputs of the old one, in order;
    /// 2. every edge that leaves the old node is moved to leave the new one;
    /// 3. every reference to the old node in `ids` becomes one to the new
    ///    node, which also takes over the retention mark;
    /// 4. the old node is deleted, with the edges that entered it.
    ///
    /// Refused, with the graph and `ids` unchanged, when `node` names no
    /// node; otherwise the id of the new node is returned.
    pub fn replace_node(&mut self, node: NodeIndex, op: Op<T>, ids: &mut Vec<NodeIndex>) -> (r:
        Result<NodeIndex, GraphError>)
        requires
            old(self).wf(),
        ensures
            final(self).wf(),
            final(self).dyn_map == old(self).dyn_map,
            match r {
                Err(e) => {
                    &&& e == GraphError::MissingNode
                    &&& !old(self).contains(node as int)
                    &&& *final(self) == *old(self)
                    &&& *final(ids) == *old(ids)
                },
                Ok(new) => replaces(
                    *old(self),
                    old(ids)@,
                    *final(self),
                    final(ids)@,
                    node,
                    op,
                    new,
                ),
            },
    {
        if !self.has_node(node) {
            return Err(GraphError::MissingNode);
        }
        let ghost g0 = *self;
        let ghost rank0 = choose|rank: spec_fn(int) -> nat| ranked(g0.links(), rank);
        let ghost ins = around(g0.edges@, node as int, false);
        let n: usize = self.nodes.len();
        let base: usize = self.edges.len();
        let srcs = self.get_sources(node);
        proof {
            assert(g0.edges@.len() == base);
            lemma_around(g0.edges@, node as int, false);
            assert forall|k: int| 0 <= k < srcs.len() implies g0.contains(srcs[k].0 as int) by {
                let e = ins[k] as int;
                assert(belongs(g0.edges[e], node as int, false));
                assert(has_link(g0.links(), e));
                assert(tail(g0.links(), e) == srcs[k].0);
            }
        }
        let new: usize = match self.add_op(op, &srcs) {
            Ok(id) => id,
            Err(e) => {
                return Err(e);
            },
        };
        let ghost g1 = *self;
        let ghost rank1 = choose|rank: spec_fn(int) -> nat| ranked(g1.links(), rank);
        let ghost rank2 = |v: int| -> nat
            {
                if v == new {
                    rank1(node as int)
                } else {
                    rank1(v)
                }
            };
        self.shift_outgoing(node, new);
        let ghost g2 = *self;
        proof {
            assert(g2.alive() == g1.alive());
            // the ends of the edges of the graph with the new node
            assert forall|e: int| #[trigger] has_link(g1.links(), e) implies (if e < base {
                has_link(g0.links(), e) && g1.links()[e] == g0.links()[e] && tail(g1.links(), e)
                    < n && head(g1.links(), e) < n
            } else {
                head(g1.links(), e) == new && tail(g1.links(), e) < n && has_link(
                    g0.links(),
                    ins[e - base] as int,
                ) && tail(g0.links(), ins[e - base] as int) == tail(g1.links(), e) && head(
                    g0.links(),
                    ins[e - base] as int,
                ) == node
            }) by {
                if e < base {
                    assert(g1.edges[e] == g0.edges[e]);
                    assert(has_link(g0.links(), e));
                } else {
                    let k = e - base;
                    let was = ins[k] as int;
                    assert(g1.edges[base + k] is Some);
                    assert(belongs(g0.edges[was], node as int, false));
                    assert(has_link(g0.links(), was));
                }
            }
            assert forall|e: int| #[trigger] has_link(g2.links(), e) implies rank2(
                tail(g2.links(), e),
            ) < rank2(head(g2.links(), e)) && is_alive(g2.alive(), tail(g2.links(), e))
                && is_alive(g2.alive(), head(g2.links(), e)) by {
                assert(has_link(g1.links(), e));
                let s = tail(g1.links(), e);
                let t = head(g1.links(), e);
                assert(rank1(s) < rank1(t));
                if e >= base {
                    let was = ins[e - base] as int;
                    assert(has_link(g0.links(), was));
                    assert(rank0(tail(g0.links(), was)) < rank0(head(g0.links(), was)));
                    assert(s != node);
                    // the old node has the same input
                    assert(has_link(g1.links(), was));
                    assert(g1.links()[was] == g0.links()[was]);
                    assert(rank1(s) < rank1(node as int));
                }
            }
            assert(ranked(g2.links(), rank2));
        }
        self.remap(node, new, ids);
        proof {
            assert(self.links() == g2.links());
            assert(self.wf());
        }
        self.remove_node(node);
        proof {
            assert forall|e: int| 0 <= e < base implies #[trigger] self.edges[e] == replaced(
                g0.edges[e],
                node as int,
                new,
            ) by {
                assert(g1.edges[e] == g0.edges[e]);
                assert(g2.edges[e] == moved(g1.edges[e], node as int, new));
            }
            assert forall|k: int| 0 <= k < ins.len() implies {
                let was = g0.edges[ins[k] as int];
                let now = #[trigger] self.edges[base + k];
                &&& was is Some
                &&& now is Some
                &&& now->Some_0.source == was->Some_0.source
                &&& now->Some_0.output == was->Some_0.output
                &&& now->Some_0.target == new
                &&& now->Some_0.shape@ == was->Some_0.shape@
            } by {
                let e1 = g1.edges[base + k];
                assert(e1 is Some);
                assert(g0.contains(srcs[k].0 as int));
                assert(e1->Some_0.source != node) by {
                    if e1->Some_0.source == node {
                        let was = ins[k] as int;
                        assert(belongs(g0.edges[was], node as int, false));
                        assert(has_link(g0.links(), was));
                        assert(rank0(tail(g0.links(), was)) < rank0(head(g0.links(), was)));
                    }
                }
                assert(g2.edges[base + k] == moved(g1.edges[base + k], node as int, new));
            }
        }
        Ok(new)
    }
}

} // verus!
