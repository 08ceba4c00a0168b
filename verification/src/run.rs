//! The run of a whole graph.

use crate::elementwise::model_of;
use crate::engine::abandoned;
use crate::engine::explained;
use crate::engine::justified;
use crate::engine::reached;
use crate::engine::ExecError;
use crate::graph::Graph;
use crate::graph::NodeIndex;
use crate::graph::Op;
use crate::kernel::total;
use crate::kernel::Arith;
use crate::kernel::BinaryKind;
use crate::kernel::UnaryKind;
use crate::query::around;
use crate::query::belongs;
use crate::query::lemma_around;
use crate::step::host_total;
use crate::step::run_op;
use crate::step::StepError;
use crate::store::cleared;
use crate::store::tensors_model;
use crate::tensor::InputTensor;
use crate::tensor::Tensor;
use crate::topo::closed;
use crate::topo::has_link;
use crate::topo::head;
use crate::topo::is_alive;
use crate::topo::is_schedule;
use crate::topo::ranked;
use crate::topo::tail;
use crate::topo::toposort;
use crate::tracker::ShapeTracker;
use vstd::pervasive::unreached;
use vstd::prelude::*;

verus! {

/// In a topological order, every node that a node reads comes before it.
pub proof fn lemma_inputs_reached(
    alive: Seq<bool>,
    links: Seq<Option<(usize, usize)>>,
    order: Seq<usize>,
    i: int,
    e: int,
)
    requires
        closed(alive, links),
        is_schedule(alive, links, order),
        0 <= i < order.len(),
        has_link(links, e),
        head(links, e) == order[i],
    ensures
        reached(order, i, tail(links, e)),
{
    let s = tail(links, e);
    assert(is_alive(alive, s));
    let j = choose|j: int| 0 <= j < order.len() && order[j] == s;
    assert(has_link(links, e) && order[j] == tail(links, e) && order[i] == head(links, e));
    assert(order[j] == s);
}

/// The results that are right for a node stay right when another node,
/// which it does not read, is given results.
pub proof fn lemma_justified_stable<
    T,
    U: Fn(UnaryKind, T) -> T,
    B: Fn(BinaryKind, T, T) -> T,
    H: for <'a> Fn(&'a Op<T>, Vec<(InputTensor<'a, T>, ShapeTracker)>) -> Result<
        Vec<Tensor<T>>,
        String,
    >,
>(
    g: Graph<T>,
    u: int,
    vals: Map<int, Seq<Seq<T>>>,
    v: int,
    x: Seq<Seq<T>>,
    arith: Arith<T, U, B>,
    host: H,
)
    requires
        g.edges@.len() <= usize::MAX,
        justified(g, u, vals, arith, host),
        u != v,
        forall|e: int| #[trigger] has_link(g.links(), e) && head(g.links(), e) == u ==> tail(
            g.links(),
            e,
        ) != v,
    ensures
        justified(g, u, vals.insert(v, x), arith, host),
{
    let after = vals.insert(v, x);
    lemma_around(g.edges@, u, false);
    let ins = around(g.edges@, u, false);
    assert forall|k: int| 0 <= k < ins.len() implies {
        let e = g.edges[#[trigger] ins[k] as int]->Some_0;
        e.source != v
    } by {
        let id = ins[k] as int;
        assert(belongs(g.edges[id], u, false));
        assert(has_link(g.links(), id));
        assert(tail(g.links(), id) == g.edges[id]->Some_0.source);
    }
    assert(g.inputs_under(u, after) =~= g.inputs_under(u, vals));
    if g.results(u) is None {
        assert(g.inputs_present(u, after));
    }
}

impl<T: Copy> Graph<T> {
    /// The operator of node `v`.
    pub fn op_of<'a>(&'a self, v: NodeIndex) -> (r: &'a Op<T>)
        requires
            self.contains(v as int),
        ensures
            *r == self.nodes[v as int]->Some_0.op,
    {
        match &self.nodes[v] {
            Some(n) => &n.op,
            None => unreached(),
        }
    }

    /// A topological order of the nodes: every node once, each after the
    /// nodes that it reads.
    pub fn schedule(&self) -> (order: Vec<NodeIndex>)
        requires
            self.wf(),
        ensures
            is_schedule(self.alive(), self.links(), order@),
    {
        let alive = self.alive_flags();
        let links = self.link_list();
        match toposort(&alive, &links) {
            Some(order) => order,
            None => {
                assert(false);
                Vec::new()
            },
        }
    }

    /// Runs the graph. The nodes are visited in topological order, every
    /// node once; the order is returned. A node that holds results already
    /// is not run again. Each other node is run on the results of its
    /// inputs and holds its own results afterwards, until every node that
    /// reads them has been visited; then they are freed, unless the node is
    /// retained. The first failure abandons the execution.
    pub fn execute<
        U: Fn(UnaryKind, T) -> T,
        B: Fn(BinaryKind, T, T) -> T,
        H: for <'a> Fn(&'a Op<T>, Vec<(InputTensor<'a, T>, ShapeTracker)>) -> Result<
            Vec<Tensor<T>>,
            String,
        >,
    >(&mut self, arith: &Arith<T, U, B>, host: &H) -> (r: Result<Vec<NodeIndex>, ExecError>)
        requires
            old(self).wf(),
            total(*arith),
            host_total(*host),
        ensures
            final(self).wf(),
            final(self).same_frame(old(self)),
            match r {
                Ok(order) => is_schedule(old(self).alive(), old(self).links(), order@) && exists|
                    vals: Map<int, Seq<Seq<T>>>,
                | explained(*old(self), *final(self), vals, *arith, *host),
                Err(e) => exists|vals: Map<int, Seq<Seq<T>>>|
                    abandoned(*old(self), vals, *arith, *host, e),
            },
    {
        let order = self.schedule();
        let n: usize = self.nodes.len();
        let mut visited: Vec<bool> = Vec::new();
        let mut c: usize = 0;
        while c < n
            invariant
                c <= n,
                visited.len() == c,
                forall|u: int| 0 <= u < c ==> !visited[u],
            decreases n - c,
        {
            visited.push(false);
            c += 1;
        }
        let ghost g0 = *self;
        let ghost mut vals: Map<int, Seq<Seq<T>>> = Map::empty();
        let ghost rank = choose|rank: spec_fn(int) -> nat| ranked(g0.links(), rank);
        assert(g0.edges@.len() == self.edges.len());
        let mut i: usize = 0;
        while i < order.len()
            invariant
                i <= order.len(),
                n == g0.nodes.len(),
                visited.len() == n,
                g0 == *old(self),
                g0.wf(),
                g0.edges@.len() <= usize::MAX,
                ranked(g0.links(), rank),
                is_schedule(g0.alive(), g0.links(), order@),
                self.same_frame(&g0),
                self.alive() == g0.alive(),
                total(*arith),
                host_total(*host),
                forall|u: int| 0 <= u < n ==> (#[trigger] visited[u] <==> reached(order@, i as int, u)),
                forall|u: int|
                    g0.contains(u) && #[trigger] visited[u] ==> vals.contains_key(u) && justified(
                        g0,
                        u,
                        vals,
                        *arith,
                        *host,
                    ),
                forall|u: int| g0.contains(u) && #[trigger] vals.contains_key(u) ==> visited[u],
                forall|u: int|
                    g0.contains(u) && #[trigger] visited[u] ==> match self.results(u) {
                        Some(ts) => tensors_model(ts) == vals[u],
                        None => !g0.kept(u) && g0.consumed(u, visited@) && exists|e: int| #[trigger]
                            has_link(g0.links(), e) && tail(g0.links(), e) == u,
                    },
                forall|u: int|
                    g0.contains(u) && !(#[trigger] visited[u]) ==> self.nodes[u] == g0.nodes[u],
                forall|e: int| #[trigger]
                    has_link(g0.links(), e) && visited[head(g0.links(), e)] ==> visited[tail(
                        g0.links(),
                        e,
                    )],
                forall|u: int|
                    g0.contains(u) && #[trigger] visited[u] && !g0.kept(u) && g0.consumed(
                        u,
                        visited@,
                    ) && (exists|e: int| #[trigger]
                        has_link(g0.links(), e) && tail(g0.links(), e) == u) ==> self.results(u)
                        is None,
            decreases order.len() - i,
        {
            let v: usize = order[i];
            let ghost seen = visited@;
            let ghost before = *self;
            proof {
                assert(is_alive(g0.alive(), order@[i as int] as int));
                assert(g0.contains(v as int));
                if visited[v as int] {
                    let j = choose|j: int| 0 <= j < i && #[trigger] order@[j] == v;
                    assert(order@[j] != order@[i as int]);
                }
                assert(!visited[v as int]);
                assert(self.links() == g0.links());
                assert forall|e: int| #[trigger]
                    has_link(g0.links(), e) && head(g0.links(), e) == v implies visited[tail(
                    g0.links(),
                    e,
                )] && tail(g0.links(), e) != v by {
                    lemma_inputs_reached(g0.alive(), g0.links(), order@, i as int, e);
                    assert(is_alive(g0.alive(), tail(g0.links(), e)));
                }
            }
            if !self.has_results(v) {
                let inputs = match self.gather_inputs(v) {
                    Ok(x) => x,
                    Err(s) => {
                        proof {
                            let e = choose|e: int|
                                #![trigger has_link(self.links(), e)]
                                has_link(self.links(), e) && self.edges[e]->Some_0.source == s
                                    && self.edges[e]->Some_0.target == v && !(self.results(
                                    s as int,
                                ) is Some && self.edges[e]->Some_0.output < self.results(
                                    s as int,
                                )->Some_0.len());
                            assert(has_link(g0.links(), e) && head(g0.links(), e) == v);
                            assert(tail(g0.links(), e) == s);
                            assert(visited[s as int]);
                            assert(is_alive(g0.alive(), s as int));
                            if self.results(s as int) is None {
                                assert(g0.consumed(s as int, visited@));
                                assert(visited[head(g0.links(), e)]);
                            }
                            assert(g0.results(v as int) is None);
                            assert(abandoned(
                                g0,
                                vals,
                                *arith,
                                *host,
                                ExecError::MissingTensor(s),
                            ));
                        }
                        return Err(ExecError::MissingTensor(s));
                    },
                };
                let op = self.op_of(v);
                let out = run_op(op, inputs, &self.dyn_map, arith, host);
                let ghost given = model_of(inputs@);
                proof {
                    lemma_around(g0.edges@, v as int, false);
                    let ins = around(g0.edges@, v as int, false);
                    assert forall|k: int| 0 <= k < ins.len() implies {
                        let e = g0.edges[#[trigger] ins[k] as int]->Some_0;
                        &&& vals.contains_key(e.source as int)
                        &&& e.output < vals[e.source as int].len()
                        &&& given[k] == (vals[e.source as int][e.output as int], e.shape@)
                    } by {
                        let id = ins[k] as int;
                        assert(belongs(g0.edges[id], v as int, false));
                        assert(has_link(g0.links(), id));
                        let s = tail(g0.links(), id);
                        assert(s == g0.edges[id]->Some_0.source);
                        assert(is_alive(g0.alive(), s));
                        assert(visited[s]);
                        assert(self.results(s) is Some);
                        assert(tensors_model(self.results(s)->Some_0) == vals[s]);
                    }
                    assert(given =~= g0.inputs_under(v as int, vals));
                    assert(g0.inputs_present(v as int, vals));
                    assert(g0.nodes[v as int] == self.nodes[v as int]);
                }
                match out {
                    Ok(ts) => {
                        proof {
                            lemma_around(g0.edges@, v as int, false);
                            let ins = around(g0.edges@, v as int, false);
                            let x = tensors_model(ts);
                            let next = vals.insert(v as int, x);
                            assert forall|k: int| 0 <= k < ins.len() implies {
                                let e = g0.edges[#[trigger] ins[k] as int]->Some_0;
                                &&& next.contains_key(e.source as int)
                                &&& e.output < next[e.source as int].len()
                                &&& given[k] == (next[e.source as int][e.output as int], e.shape@)
                            } by {
                                let id = ins[k] as int;
                                assert(belongs(g0.edges[id], v as int, false));
                                assert(has_link(g0.links(), id));
                                let s = tail(g0.links(), id);
                                assert(s == g0.edges[id]->Some_0.source);
                                assert(is_alive(g0.alive(), s));
                                assert(visited[s]);
                                assert(self.results(s) is Some);
                                assert(tensors_model(self.results(s)->Some_0) == vals[s]);
                            }
                            assert(given =~= g0.inputs_under(v as int, next));
                            assert(g0.inputs_present(v as int, next));
                            assert(g0.nodes[v as int] == self.nodes[v as int]);
                            assert(justified(g0, v as int, next, *arith, *host));
                        }
                        self.set_tensors(v, ts);
                    },
                    Err(StepError::Op(e)) => {
                        assert(abandoned(g0, vals, *arith, *host, ExecError::Op(v, e)));
                        return Err(ExecError::Op(v, e));
                    },
                    Err(StepError::Backend(cause)) => {
                        assert(abandoned(g0, vals, *arith, *host, ExecError::Backend(v, cause)));
                        return Err(ExecError::Backend(v, cause));
                    },
                }
            }
            let ghost mid = *self;
            let ghost x = tensors_model(mid.results(v as int)->Some_0);
            let ghost next = vals.insert(v as int, x);
            proof {
                assert(mid.results(v as int) is Some);
                assert(justified(g0, v as int, next, *arith, *host));
                assert forall|u: int| g0.contains(u) && seen[u] implies justified(
                    g0,
                    u,
                    next,
                    *arith,
                    *host,
                ) by {
                    assert forall|e: int| #[trigger]
                        has_link(g0.links(), e) && head(g0.links(), e) == u implies tail(
                        g0.links(),
                        e,
                    ) != v by {
                        assert(visited[head(g0.links(), e)]);
                    }
                    lemma_justified_stable(g0, u, vals, v as int, x, *arith, *host);
                }
                vals = next;
            }
            visited.set(v, true);
            proof {
                assert(mid.alive() =~= g0.alive());
                assert(mid.links() == g0.links());
            }
            self.release_inputs(v, &visited);
            proof {
                assert(self.alive() =~= g0.alive());
                assert forall|u: int| 0 <= u < n implies (#[trigger] visited[u] <==> reached(
                    order@,
                    i + 1,
                    u,
                )) by {
                    if u == v {
                        assert(order@[i as int] == u);
                    } else {
                        if reached(order@, i + 1, u) {
                            let j = choose|j: int| 0 <= j < i + 1 && #[trigger] order@[j] == u;
                            assert(j < i);
                            assert(reached(order@, i as int, u));
                        }
                        if reached(order@, i as int, u) {
                            let j = choose|j: int| 0 <= j < i && #[trigger] order@[j] == u;
                            assert(0 <= j < i + 1 && order@[j] == u);
                        }
                    }
                }
                assert(!mid.feeds(v as int, v as int)) by {
                    if mid.feeds(v as int, v as int) {
                        let e = choose|e: int| #[trigger]
                            has_link(mid.links(), e) && tail(mid.links(), e) == v && head(
                                mid.links(),
                                e,
                            ) == v;
                        assert(has_link(g0.links(), e));
                    }
                }
                assert forall|u: int| g0.contains(u) && #[trigger] visited[u] implies match self.results(
                    u,
                ) {
                    Some(ts) => tensors_model(ts) == vals[u],
                    None => !g0.kept(u) && g0.consumed(u, visited@) && exists|e: int| #[trigger]
                        has_link(g0.links(), e) && tail(g0.links(), e) == u,
                } by {
                    let freed = mid.contains(u) && mid.feeds(u, v as int) && !mid.kept(u)
                        && mid.consumed(u, visited@);
                    if freed {
                        assert(self.nodes[u] == cleared(mid.nodes[u]));
                        let e = choose|e: int| #[trigger]
                            has_link(mid.links(), e) && tail(mid.links(), e) == u && head(
                                mid.links(),
                                e,
                            ) == v;
                        assert(has_link(g0.links(), e) && tail(g0.links(), e) == u);
                    } else {
                        assert(self.nodes[u] == mid.nodes[u]);
                        if u != v {
                            assert(mid.nodes[u] == before.nodes[u]);
                            assert(seen[u]);
                            if before.results(u) is None {
                                assert(g0.consumed(u, seen));
                                assert forall|e: int| #[trigger]
                                    has_link(g0.links(), e) && tail(g0.links(), e)
                                        == u implies visited[head(g0.links(), e)] by {
                                    assert(seen[head(g0.links(), e)]);
                                }
                            }
                        }
                    }
                }
                assert forall|u: int| g0.contains(u) && !(#[trigger] visited[u]) implies self.nodes[u]
                    == g0.nodes[u] by {
                    assert(!seen[u]);
                    assert(mid.nodes[u] == before.nodes[u]);
                    if mid.feeds(u, v as int) {
                        let e = choose|e: int| #[trigger]
                            has_link(mid.links(), e) && tail(mid.links(), e) == u && head(
                                mid.links(),
                                e,
                            ) == v;
                        assert(has_link(g0.links(), e) && head(g0.links(), e) == v);
                        assert(seen[tail(g0.links(), e)]);
                    }
                }
                assert forall|e: int| #[trigger]
                    has_link(g0.links(), e) && visited[head(g0.links(), e)] implies visited[tail(
                    g0.links(),
                    e,
                )] by {
                    if head(g0.links(), e) == v {
                        assert(seen[tail(g0.links(), e)]);
                    } else {
                        assert(seen[head(g0.links(), e)]);
                    }
                }
                assert forall|u: int|
                    g0.contains(u) && #[trigger] visited[u] && !g0.kept(u) && g0.consumed(
                        u,
                        visited@,
                    ) && (exists|e: int| #[trigger]
                        has_link(g0.links(), e) && tail(g0.links(), e) == u) implies self.results(
                    u,
                ) is None by {
                    let e = choose|e: int| #[trigger]
                        has_link(g0.links(), e) && tail(g0.links(), e) == u;
                    assert(visited[head(g0.links(), e)]);
                    if u == v {
                        // a node that reads `v` comes after it
                        assert(head(g0.links(), e) != v);
                        assert(seen[head(g0.links(), e)]);
                        assert(seen[tail(g0.links(), e)]);
                    } else if g0.consumed(u, seen) {
                        assert(seen[head(g0.links(), e)]);
                        assert(seen[u]);
                        assert(before.results(u) is None);
                        assert(mid.nodes[u] == before.nodes[u]);
                    } else {
                        // `v` is the last node that reads `u`
                        let last = choose|last: int| #[trigger]
                            has_link(g0.links(), last) && tail(g0.links(), last) == u && !seen[head(
                                g0.links(),
                                last,
                            )];
                        assert(visited[head(g0.links(), last)]);
                        assert(head(g0.links(), last) == v);
                        assert(has_link(mid.links(), last) && tail(mid.links(), last) == u && head(
                            mid.links(),
                            last,
                        ) == v);
                        assert(mid.feeds(u, v as int));
                        assert(mid.contains(u) && !mid.kept(u) && mid.consumed(u, visited@));
                        assert(self.nodes[u] == cleared(mid.nodes[u]));
                    }
                }
                assert(self.same_frame(&g0)) by {
                    assert forall|u: int| 0 <= u < self.nodes.len() implies match (
                        #[trigger] self.nodes[u],
                        g0.nodes[u],
                    ) {
                        (Some(a), Some(b)) => a.op == b.op && a.keep == b.keep,
                        (None, None) => true,
                        _ => false,
                    } by {
                        assert(self.nodes[u] == mid.nodes[u] || self.nodes[u] == cleared(
                            mid.nodes[u],
                        ));
                        assert(mid.same_frame(&g0));
                    }
                }
            }
            i += 1;
        }
        proof {
            assert(self.links() == g0.links());
            assert forall|v: int| #[trigger] g0.contains(v) implies {
                &&& vals.contains_key(v)
                &&& justified(g0, v, vals, *arith, *host)
                &&& (self.results(v) is Some ==> tensors_model(self.results(v)->Some_0) == vals[v])
                &&& (self.results(v) is None <==> !g0.kept(v) && exists|e: int| #[trigger]
                    has_link(g0.links(), e) && tail(g0.links(), e) == v)
            } by {
                assert(is_alive(g0.alive(), v));
                let j = choose|j: int| 0 <= j < order.len() && order@[j] == v;
                assert(reached(order@, order.len() as int, v));
                assert(visited[v]);
                assert forall|e: int| #[trigger]
                    has_link(g0.links(), e) && tail(g0.links(), e) == v implies visited[head(
                    g0.links(),
                    e,
                )] by {
                    let t = head(g0.links(), e);
                    assert(is_alive(g0.alive(), t));
                    let k = choose|k: int| 0 <= k < order.len() && order@[k] == t;
                    assert(reached(order@, order.len() as int, t));
                }
                assert(g0.consumed(v, visited@));
            }
            assert(explained(g0, *self, vals, *arith, *host));
        }
        Ok(order)
    }
}

} // verus!
