//! Changes to a graph that is already built: edges added and removed, nodes
//! removed. Every change keeps the graph free of dangling edges and of
//! cycles.

use crate::graph::Edge;
use crate::graph::EdgeIndex;
use crate::graph::Graph;
use crate::graph::GraphError;
use crate::graph::NodeIndex;
use crate::topo::acyclic;
use crate::topo::has_link;
use crate::topo::head;
use crate::topo::is_alive;
use crate::topo::is_cycle;
use crate::topo::lemma_schedule_acyclic;
use crate::topo::ranked;
use crate::topo::tail;
use crate::topo::toposort;
use crate::tracker::ShapeTracker;
use vstd::prelude::*;

verus! {

/// Whether an edge slot holds an edge that touches node `v`.
pub open spec fn touches(e: Option<Edge>, v: int) -> bool {
    e is Some && (e->Some_0.source == v || e->Some_0.target == v)
}

/// A graph whose links are some of the links of a graph without a cycle has
/// no cycle either.
pub proof fn lemma_fewer_links(
    before: Seq<Option<(usize, usize)>>,
    after: Seq<Option<(usize, usize)>>,
)
    requires
        acyclic(before),
        after.len() == before.len(),
        forall|e: int| 0 <= e < after.len() ==> after[e] is None || after[e] == before[e],
    ensures
        acyclic(after),
{
    let rank = choose|rank: spec_fn(int) -> nat| ranked(before, rank);
    assert forall|e: int| #[trigger] has_link(after, e) implies rank(tail(after, e)) < rank(
        head(after, e),
    ) by {
        assert(has_link(before, e));
    }
    assert(ranked(after, rank));
}

impl<T> Graph<T> {
    /// Removes edge `e`, and says whether there was one.
    pub fn remove_edge(&mut self, e: EdgeIndex) -> (r: bool)
        requires
            old(self).wf(),
        ensures
            final(self).wf(),
            final(self).nodes == old(self).nodes,
            final(self).dyn_map == old(self).dyn_map,
            r == (e < old(self).edges.len() && old(self).edges[e as int] is Some),
            final(self).edges@ == (if e < old(self).edges.len() {
                old(self).edges@.update(e as int, None)
            } else {
                old(self).edges@
            }),
    {
        if e >= self.edges.len() {
            return false;
        }
        let was = self.edges[e].is_some();
        self.edges.set(e, None);
        proof {
            assert(self.links() =~= old(self).links().update(e as int, None));
            lemma_fewer_links(old(self).links(), self.links());
            assert forall|x: int| #[trigger] has_link(self.links(), x) implies is_alive(
                self.alive(),
                tail(self.links(), x),
            ) && is_alive(self.alive(), head(self.links(), x)) by {
                assert(has_link(old(self).links(), x));
            }
        }
        was
    }

    /// Removes node `v` together with every edge that enters or leaves it,
    /// and says whether there was such a node.
    pub fn remove_node(&mut self, v: NodeIndex) -> (r: bool)
        requires
            old(self).wf(),
        ensures
            final(self).wf(),
            final(self).dyn_map == old(self).dyn_map,
            r == old(self).contains(v as int),
            !final(self).contains(v as int),
            final(self).nodes@ == (if r {
                old(self).nodes@.update(v as int, None)
            } else {
                old(self).nodes@
            }),
            final(self).edges.len() == old(self).edges.len(),
            forall|e: int|
                0 <= e < old(self).edges.len() ==> #[trigger] final(self).edges[e] == (if r
                    && touches(old(self).edges[e], v as int) {
                    None
                } else {
                    old(self).edges[e]
                }),
    {
        if !self.has_node(v) {
            return false;
        }
        let mut e: usize = 0;
        while e < self.edges.len()
            invariant
                e <= self.edges.len(),
                self.nodes == old(self).nodes,
                self.dyn_map == old(self).dyn_map,
                self.edges.len() == old(self).edges.len(),
                forall|x: int|
                    0 <= x < e ==> #[trigger] self.edges[x] == (if touches(
                        old(self).edges[x],
                        v as int,
                    ) {
                        None
                    } else {
                        old(self).edges[x]
                    }),
                forall|x: int| e <= x < self.edges.len() ==> self.edges[x] == old(self).edges[x],
            decreases self.edges.len() - e,
        {
            let hit = match &self.edges[e] {
                Some(x) => x.source == v || x.target == v,
                None => false,
            };
            if hit {
                self.edges.set(e, None);
            }
            e += 1;
        }
        self.nodes.set(v, None);
        proof {
            assert(self.alive() =~= old(self).alive().update(v as int, false));
            assert forall|x: int| 0 <= x < self.links().len() implies self.links()[x] is None
                || self.links()[x] == old(self).links()[x] by {
                assert(self.edges[x] == (if touches(old(self).edges[x], v as int) {
                    None
                } else {
                    old(self).edges[x]
                }));
            }
            lemma_fewer_links(old(self).links(), self.links());
            assert forall|x: int| #[trigger] has_link(self.links(), x) implies is_alive(
                self.alive(),
                tail(self.links(), x),
            ) && is_alive(self.alive(), head(self.links(), x)) by {
                assert(self.edges[x] == (if touches(old(self).edges[x], v as int) {
                    None
                } else {
                    old(self).edges[x]
                }));
                assert(has_link(old(self).links(), x));
            }
        }
        true
    }

    /// Adds an edge: output `output` of node `source` becomes the last input
    /// of node `target`, read through `shape`. Refused, with the graph
    /// unchanged, when one of the two is no node of the graph, or when the
    /// edge would close a cycle: when, with the new edge, some edges would
    /// lead from a node back to it.
    pub fn add_edge(
        &mut self,
        source: NodeIndex,
        output: usize,
        target: NodeIndex,
        shape: ShapeTracker,
    ) -> (r: Result<EdgeIndex, GraphError>)
        requires
            old(self).wf(),
        ensures
            final(self).wf(),
            final(self).nodes == old(self).nodes,
            final(self).dyn_map == old(self).dyn_map,
            match r {
                Ok(e) => {
                    &&& old(self).contains(source as int)
                    &&& old(self).contains(target as int)
                    &&& acyclic(old(self).links().push(Some((source, target))))
                    &&& e == old(self).edges.len()
                    &&& final(self).edges@ == old(self).edges@.push(
                        Some(Edge { source, output, target, shape }),
                    )
                },
                Err(GraphError::MissingNode) => {
                    &&& !(old(self).contains(source as int) && old(self).contains(target as int))
                    &&& final(self).edges@ == old(self).edges@
                },
                Err(GraphError::Cycle) => {
                    &&& old(self).contains(source as int)
                    &&& old(self).contains(target as int)
                    &&& !acyclic(old(self).links().push(Some((source, target))))
                    &&& exists|path: Seq<int>|
                        is_cycle(old(self).links().push(Some((source, target))), path)
                    &&& final(self).edges@ == old(self).edges@
                },
            },
    {
        if !self.has_node(source) || !self.has_node(target) {
            return Err(GraphError::MissingNode);
        }
        let e: usize = self.edges.len();
        self.edges.push(Some(Edge { source, output, target, shape }));
        proof {
            assert(self.links() =~= old(self).links().push(Some((source, target))));
            assert forall|x: int| #[trigger] has_link(self.links(), x) implies is_alive(
                self.alive(),
                tail(self.links(), x),
            ) && is_alive(self.alive(), head(self.links(), x)) by {
                if x < old(self).links().len() {
                    assert(has_link(old(self).links(), x));
                }
            }
        }
        let alive = self.alive_flags();
        let links = self.link_list();
        match toposort(&alive, &links) {
            Some(order) => {
                proof {
                    lemma_schedule_acyclic(alive@, links@, order@);
                }
                Ok(e)
            },
            None => {
                self.edges.pop();
                proof {
                    assert(self.edges@ =~= old(self).edges@);
                    assert(self.links() =~= old(self).links());
                }
                Err(GraphError::Cycle)
            },
        }
    }
}

} // verus!
