//! The rewrite protocol by which a compiler pass replaces a node: a new node
//! takes over the inputs of the old one, then its outgoing edges, then the
//! references that the caller holds, and the old node is deleted.

use crate::graph::Edge;
use crate::graph::Graph;
use crate::graph::GraphError;
use crate::graph::Node;
use crate::graph::NodeIndex;
use crate::topo::acyclic;
use crate::topo::has_link;
use crate::topo::head;
use crate::topo::is_alive;
use crate::topo::is_cycle;
use crate::topo::lemma_schedule_acyclic;
use crate::topo::tail;
use crate::topo::toposort;
use vstd::prelude::*;

verus! {

/// An edge slot after the edges that leave node `from` have been moved to
/// leave node `to`.
pub open spec fn moved(e: Option<Edge>, from: int, to: usize) -> Option<Edge> {
    match e {
        Some(x) => if x.source == from {
            Some(Edge { source: to, output: x.output, target: x.target, shape: x.shape })
        } else {
            e
        },
        None => None,
    }
}

/// The ends of the edge slots after such a move.
pub open spec fn moved_links(links: Seq<Option<(usize, usize)>>, from: int, to: usize) -> Seq<
    Option<(usize, usize)>,
> {
    links.map_values(
        |l: Option<(usize, usize)>|
            match l {
                Some(p) => if p.0 == from {
                    Some((to, p.1))
                } else {
                    l
                },
                None => None,
            },
    )
}

/// A list of ids after every reference to node `from` has become one to
/// node `to`.
pub open spec fn remapped(ids: Seq<usize>, from: usize, to: usize) -> Seq<usize> {
    ids.map_values(|x: usize| if x == from { to } else { x })
}

/// An edge slot after node `node` has been replaced by node `new`: an edge
/// that entered the old node is gone, and one that left it leaves the new
/// one.
pub open spec fn replaced(e: Option<Edge>, node: int, new: usize) -> Option<Edge> {
    if e is Some && e->Some_0.target == node {
        None
    } else {
        moved(e, node, new)
    }
}

impl<T> Graph<T> {
    /// Makes every edge that leaves `from` leave `to`.
    pub fn shift_outgoing(&mut self, from: NodeIndex, to: NodeIndex)
        ensures
            final(self).nodes == old(self).nodes,
            final(self).dyn_map == old(self).dyn_map,
            final(self).edges.len() == old(self).edges.len(),
            forall|e: int|
                0 <= e < old(self).edges.len() ==> #[trigger] final(self).edges[e] == moved(
                    old(self).edges[e],
                    from as int,
                    to,
                ),
            final(self).links() == moved_links(old(self).links(), from as int, to),
    {
        let mut e: usize = 0;
        while e < self.edges.len()
            invariant
                e <= self.edges.len(),
                self.nodes == old(self).nodes,
                self.dyn_map == old(self).dyn_map,
                self.edges.len() == old(self).edges.len(),
                forall|x: int|
                    0 <= x < e ==> #[trigger] self.edges[x] == moved(
                        old(self).edges[x],
                        from as int,
                        to,
                    ),
                forall|x: int| e <= x < self.edges.len() ==> self.edges[x] == old(self).edges[x],
            decreases self.edges.len() - e,
        {
            match &mut self.edges[e] {
                Some(x) => {
                    if x.source == from {
                        x.source = to;
                    }
                },
                None => {},
            }
            e += 1;
        }
        proof {
            assert forall|x: int| 0 <= x < self.edges.len() implies self.links()[x]
                == moved_links(old(self).links(), from as int, to)[x] by {
                assert(self.edges[x] == moved(old(self).edges[x], from as int, to));
            }
            assert(self.links() =~= moved_links(old(self).links(), from as int, to));
        }
    }

    /// Moves every edge that leaves `from` so that it leaves `to`, with the
    /// same target and at the same place among the target's inputs.
    /// Refused, with the graph unchanged, when one of the two is no node of
    /// the graph, or when the move would close a cycle.
    pub fn move_outgoing_edge(&mut self, from: NodeIndex, to: NodeIndex) -> (r: Result<
        (),
        GraphError,
    >)
        requires
            old(self).wf(),
        ensures
            final(self).wf(),
            final(self).nodes == old(self).nodes,
            final(self).dyn_map == old(self).dyn_map,
            final(self).edges.len() == old(self).edges.len(),
            match r {
                Ok(_) => {
                    &&& old(self).contains(from as int)
                    &&& old(self).contains(to as int)
                    &&& acyclic(moved_links(old(self).links(), from as int, to))
                    &&& forall|e: int|
                        0 <= e < old(self).edges.len() ==> #[trigger] final(self).edges[e]
                            == moved(old(self).edges[e], from as int, to)
                },
                Err(GraphError::MissingNode) => {
                    &&& !(old(self).contains(from as int) && old(self).contains(to as int))
                    &&& final(self).edges == old(self).edges
                },
                Err(GraphError::Cycle) => {
                    &&& old(self).contains(from as int)
                    &&& old(self).contains(to as int)
                    &&& !acyclic(moved_links(old(self).links(), from as int, to))
                    &&& exists|path: Seq<int>|
                        is_cycle(moved_links(old(self).links(), from as int, to), path)
                    &&& final(self).edges == old(self).edges
                },
            },
    {
        if !self.has_node(from) || !self.has_node(to) {
            return Err(GraphError::MissingNode);
        }
        let alive = self.alive_flags();
        let links = self.link_list();
        let mut after: Vec<Option<(usize, usize)>> = Vec::new();
        let mut e: usize = 0;
        while e < links.len()
            invariant
                e <= links.len(),
                after.len() == e,
                forall|x: int|
                    0 <= x < e ==> after[x] == moved_links(links@, from as int, to)[x],
            decreases links.len() - e,
        {
            let l = match links[e] {
                Some((s, t)) => if s == from {
                    Some((to, t))
                } else {
                    Some((s, t))
                },
                None => None,
            };
            after.push(l);
            e += 1;
        }
        proof {
            assert(after@ =~= moved_links(links@, from as int, to));
            assert forall|x: int| #[trigger] has_link(after@, x) implies is_alive(
                alive@,
                tail(after@, x),
            ) && is_alive(alive@, head(after@, x)) by {
                assert(has_link(links@, x));
            }
        }
        match toposort(&alive, &after) {
            Some(order) => {
                proof {
                    lemma_schedule_acyclic(alive@, after@, order@);
                }
                self.shift_outgoing(from, to);
                Ok(())
            },
            None => Err(GraphError::Cycle),
        }
    }

    /// Makes every reference to node `from` in `ids` one to node `to`, and
    /// passes the retention mark of `from` on to `to`.
    pub fn remap(&mut self, from: NodeIndex, to: NodeIndex, ids: &mut Vec<NodeIndex>)
        ensures
            final(ids)@ == remapped(old(ids)@, from, to),
            final(self).edges == old(self).edges,
            final(self).dyn_map == old(self).dyn_map,
            final(self).nodes.len() == old(self).nodes.len(),
            final(self).alive() == old(self).alive(),
            forall|v: int|
                0 <= v < old(self).nodes.len() && v != to ==> final(self).nodes[v] == old(
                    self,
                ).nodes[v],
            old(self).contains(to as int) ==> final(self).nodes[to as int] == Some(
                Node {
                    op: old(self).nodes[to as int]->Some_0.op,
                    keep: old(self).nodes[to as int]->Some_0.keep || (old(self).contains(
                        from as int,
                    ) && old(self).nodes[from as int]->Some_0.keep),
                    outputs: old(self).nodes[to as int]->Some_0.outputs,
                },
            ),
            !old(self).contains(to as int) ==> final(self).nodes == old(self).nodes,
    {
        let mut k: usize = 0;
        while k < ids.len()
            invariant
                k <= ids.len(),
                ids.len() == old(ids).len(),
                forall|j: int|
                    0 <= j < k ==> ids[j] == (if old(ids)[j] == from {
                        to
                    } else {
                        old(ids)[j]
                    }),
                forall|j: int| k <= j < ids.len() ==> ids[j] == old(ids)[j],
            decreases ids.len() - k,
        {
            if ids[k] == from {
                ids.set(k, to);
            }
            k += 1;
        }
        assert(ids@ =~= remapped(old(ids)@, from, to));
        if self.is_retained(from) && self.has_node(to) {
            self.retain(to);
        }
        assert(!old(self).contains(to as int) ==> self.nodes@ =~= old(self).nodes@);
    }
}

} // verus!
