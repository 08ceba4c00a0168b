//! The dataflow graph: an arena of nodes, each an operator with its results,
//! and of edges, each carrying the tracker through which the target reads an
//! output of the source. Removed slots stay empty, so that an id is never
//! given twice.

use crate::dim::DynMap;
use crate::kernel::BinaryKind;
use crate::kernel::UnaryKind;
use crate::tensor::Tensor;
use crate::topo::acyclic;
use crate::topo::closed;
use crate::topo::has_link;
use crate::topo::head;
use crate::topo::is_alive;
use crate::topo::lemma_schedule_acyclic;
use crate::topo::ranked;
use crate::topo::tail;
use crate::topo::toposort;
use crate::tracker::ShapeTracker;
use vstd::prelude::*;

verus! {

/// The id of a node: its slot in the arena.
pub type NodeIndex = usize;

/// The id of an edge: its slot in the arena.
pub type EdgeIndex = usize;

/// The index tables of a binary operation, one entry for every position of
/// the result.
#[derive(Debug)]
pub struct BinaryOpMetadata {
    pub lhs_indices: Vec<usize>,
    pub rhs_indices: Vec<usize>,
}

/// The index table of a reduction: for every position of the input, the
/// position of the output that it is folded into.
#[derive(Debug)]
pub struct ReduceOpMetadata {
    pub output_indices: Vec<usize>,
    pub output_size: usize,
}

/// What kind of primitive an operator that runs outside the library stands
/// for, with the tables that were computed for it when it was installed.
#[derive(Debug)]
pub enum OpCategory {
    Unary,
    Binary(BinaryOpMetadata),
    Reduce(Option<ReduceOpMetadata>),
}

/// An operator that a pass has installed and that runs outside the library:
/// the name of the program that computes it, and its kind.
#[derive(Debug)]
pub struct Delegate {
    pub program: String,
    pub category: OpCategory,
}

/// The operator of a node.
#[derive(Debug)]
pub enum Op<T> {
    /// An opaque function of the host, under a name; a leaf whose result the
    /// caller supplies.
    Function(String),
    /// A diagnostic under a label.
    Print(String),
    Constant(T),
    Contiguous,
    Unary(UnaryKind),
    Binary(BinaryKind),
    SumReduce(usize),
    MaxReduce(usize),
    /// An operator that runs outside the library.
    Delegated(Delegate),
}

/// A node: its operator, whether its results must outlive an execution, and
/// its results, once supplied or computed.
#[derive(Debug)]
pub struct Node<T> {
    pub op: Op<T>,
    pub keep: bool,
    pub outputs: Option<Vec<Tensor<T>>>,
}

/// An edge: output `output` of node `source` is an input of node `target`,
/// read through `shape`. The inputs of a node are its entering edges, in the
/// order of their ids.
#[derive(Debug)]
pub struct Edge {
    pub source: NodeIndex,
    pub output: usize,
    pub target: NodeIndex,
    pub shape: ShapeTracker,
}

/// Why the graph refused an operation.
#[derive(Clone, Copy, Debug, PartialEq, Eq, Structural)]
pub enum GraphError {
    /// A node id does not name a node of the graph.
    MissingNode,
    /// The edge would close a cycle.
    Cycle,
}

/// The graph.
#[derive(Debug)]
pub struct Graph<T> {
    pub nodes: Vec<Option<Node<T>>>,
    pub edges: Vec<Option<Edge>>,
    pub dyn_map: DynMap,
}

/// The two ends of an edge slot.
pub open spec fn link_of(e: Option<Edge>) -> Option<(usize, usize)> {
    match e {
        Some(x) => Some((x.source, x.target)),
        None => None,
    }
}

/// A number above the rank of every node below `n`.
pub open spec fn rank_bound(rank: spec_fn(int) -> nat, n: nat) -> nat
    decreases n,
{
    if n == 0 {
        0
    } else {
        let below = rank_bound(rank, (n - 1) as nat);
        if rank(n - 1) >= below {
            rank(n - 1) + 1
        } else {
            below
        }
    }
}

/// The bound lies above the rank of every node below `n`.
pub proof fn lemma_rank_bound(rank: spec_fn(int) -> nat, n: nat, v: int)
    requires
        0 <= v < n,
    ensures
        rank(v) < rank_bound(rank, n),
    decreases n,
{
    if v < n - 1 {
        lemma_rank_bound(rank, (n - 1) as nat, v);
    }
}

impl<T> Graph<T> {
    /// Which node slots hold a node.
    pub open spec fn alive(&self) -> Seq<bool> {
        self.nodes@.map_values(|n: Option<Node<T>>| n is Some)
    }

    /// The ends of every edge slot.
    pub open spec fn links(&self) -> Seq<Option<(usize, usize)>> {
        self.edges@.map_values(|e: Option<Edge>| link_of(e))
    }

    /// Whether `v` names a node of the graph.
    pub open spec fn contains(&self, v: int) -> bool {
        is_alive(self.alive(), v)
    }

    /// The invariant of the graph: no edge dangles, and the edges form no
    /// cycle.
    pub open spec fn wf(&self) -> bool {
        closed(self.alive(), self.links()) && acyclic(self.links())
    }

    /// The empty graph.
    pub fn new() -> (g: Graph<T>)
        ensures
            g.wf(),
            g.nodes.len() == 0,
            g.edges.len() == 0,
            g.dyn_map@ == Map::<char, usize>::empty(),
    {
        let g = Graph { nodes: Vec::new(), edges: Vec::new(), dyn_map: DynMap::new() };
        proof {
            let rank = |v: int| -> nat { 0nat };
            assert(ranked(g.links(), rank));
        }
        g
    }

    /// Which node slots hold a node.
    pub fn alive_flags(&self) -> (r: Vec<bool>)
        ensures
            r@ == self.alive(),
    {
        let mut out: Vec<bool> = Vec::new();
        let mut k: usize = 0;
        while k < self.nodes.len()
            invariant
                k <= self.nodes.len(),
                out.len() == k,
                forall|j: int| 0 <= j < k ==> out[j] == (self.nodes[j] is Some),
            decreases self.nodes.len() - k,
        {
            out.push(self.nodes[k].is_some());
            k += 1;
        }
        assert(out@ =~= self.alive());
        out
    }

    /// The ends of every edge slot.
    pub fn link_list(&self) -> (r: Vec<Option<(usize, usize)>>)
        ensures
            r@ == self.links(),
    {
        let mut out: Vec<Option<(usize, usize)>> = Vec::new();
        let mut k: usize = 0;
        while k < self.edges.len()
            invariant
                k <= self.edges.len(),
                out.len() == k,
                forall|j: int| 0 <= j < k ==> out[j] == link_of(self.edges[j]),
            decreases self.edges.len() - k,
        {
            let l = match &self.edges[k] {
                Some(e) => Some((e.source, e.target)),
                None => None,
            };
            out.push(l);
            k += 1;
        }
        assert(out@ =~= self.links());
        out
    }

    /// Whether the graph meets its invariant: no edge dangles, and the edges
    /// form no cycle.
    pub fn is_wf(&self) -> (r: bool)
        ensures
            r == self.wf(),
    {
        let alive = self.alive_flags();
        let links = self.link_list();
        let mut e: usize = 0;
        while e < links.len()
            invariant
                e <= links.len(),
                alive@ == self.alive(),
                links@ == self.links(),
                forall|x: int|
                    0 <= x < e && #[trigger] has_link(links@, x) ==> is_alive(
                        alive@,
                        tail(links@, x),
                    ) && is_alive(alive@, head(links@, x)),
            decreases links.len() - e,
        {
            match links[e] {
                Some((s, t)) => {
                    if s >= alive.len() || t >= alive.len() || !alive[s] || !alive[t] {
                        assert(has_link(links@, e as int));
                        return false;
                    }
                },
                None => {},
            }
            e += 1;
        }
        match toposort(&alive, &links) {
            Some(order) => {
                proof {
                    lemma_schedule_acyclic(alive@, links@, order@);
                }
                true
            },
            None => false,
        }
    }

    /// Whether `v` names a node of the graph.
    pub fn has_node(&self, v: NodeIndex) -> (r: bool)
        ensures
            r == self.contains(v as int),
    {
        v < self.nodes.len() && self.nodes[v].is_some()
    }

    /// Adds a node with the given operator and, in order, the given inputs:
    /// for each, the node and the output that it reads, and the tracker that
    /// it reads it through. Refused, with the graph unchanged, when an input
    /// names no node.
    pub fn add_op(&mut self, op: Op<T>, inputs: &Vec<(NodeIndex, usize, ShapeTracker)>) -> (r:
        Result<NodeIndex, GraphError>)
        requires
            old(self).wf(),
        ensures
            final(self).wf(),
            final(self).dyn_map == old(self).dyn_map,
            match r {
                Err(e) => {
                    &&& e == GraphError::MissingNode
                    &&& exists|k: int| 0 <= k < inputs.len() && !old(self).contains(inputs[k].0 as int)
                    &&& *final(self) == *old(self)
                },
                Ok(id) => {
                    &&& forall|k: int| 0 <= k < inputs.len() ==> old(self).contains(inputs[k].0 as int)
                    &&& id == old(self).nodes.len()
                    &&& final(self).nodes@ == old(self).nodes@.push(
                        Some(Node { op, keep: false, outputs: None }),
                    )
                    &&& final(self).edges.len() == old(self).edges.len() + inputs.len()
                    &&& forall|e: int|
                        0 <= e < old(self).edges.len() ==> final(self).edges[e] == old(
                            self,
                        ).edges[e]
                    &&& forall|k: int|
                        0 <= k < inputs.len() ==> {
                            let e = #[trigger] final(self).edges[old(self).edges.len() + k];
                            &&& e is Some
                            &&& e->Some_0.source == inputs[k].0
                            &&& e->Some_0.output == inputs[k].1
                            &&& e->Some_0.target == id
                            &&& e->Some_0.shape@ == inputs[k].2@
                        }
                },
            },
    {
        let mut k: usize = 0;
        while k < inputs.len()
            invariant
                k <= inputs.len(),
                *self == *old(self),
                self.wf(),
                forall|j: int| 0 <= j < k ==> self.contains(inputs[j].0 as int),
            decreases inputs.len() - k,
        {
            if !self.has_node(inputs[k].0) {
                return Err(GraphError::MissingNode);
            }
            k += 1;
        }
        let id: usize = self.nodes.len();
        let ghost rank0 = choose|rank: spec_fn(int) -> nat| ranked(old(self).links(), rank);
        let ghost top = rank_bound(rank0, id as nat);
        let ghost rank1 = |v: int| -> nat
            {
                if v == id {
                    top
                } else {
                    rank0(v)
                }
            };
        self.nodes.push(Some(Node { op, keep: false, outputs: None }));
        proof {
            assert(self.alive() =~= old(self).alive().push(true));
            assert(self.links() =~= old(self).links());
            assert forall|e: int| #[trigger] has_link(self.links(), e) implies rank1(
                tail(self.links(), e),
            ) < rank1(head(self.links(), e)) by {
                assert(has_link(old(self).links(), e));
            }
        }
        let base: usize = self.edges.len();
        let mut i: usize = 0;
        while i < inputs.len()
            invariant
                i <= inputs.len(),
                id == old(self).nodes.len(),
                base == old(self).edges.len(),
                self.dyn_map == old(self).dyn_map,
                self.nodes@ == old(self).nodes@.push(Some(Node { op, keep: false, outputs: None })),
                self.edges.len() == base + i,
                forall|j: int| 0 <= j < inputs.len() ==> old(self).contains(inputs[j].0 as int),
                closed(self.alive(), self.links()),
                ranked(self.links(), rank1),
                ranked(old(self).links(), rank0),
                top == rank_bound(rank0, id as nat),
                rank1 == (|v: int| -> nat
                    {
                        if v == id {
                            top
                        } else {
                            rank0(v)
                        }
                    }),
                forall|e: int| 0 <= e < base ==> self.edges[e] == old(self).edges[e],
                forall|j: int|
                    0 <= j < i ==> {
                        let e = #[trigger] self.edges[base + j];
                        &&& e is Some
                        &&& e->Some_0.source == inputs[j].0
                        &&& e->Some_0.output == inputs[j].1
                        &&& e->Some_0.target == id
                        &&& e->Some_0.shape@ == inputs[j].2@
                    },
            decreases inputs.len() - i,
        {
            let ghost before = self.links();
            let source: usize = inputs[i].0;
            let edge = Edge {
                source,
                output: inputs[i].1,
                target: id,
                shape: inputs[i].2.duplicate(),
            };
            self.edges.push(Some(edge));
            proof {
                assert(old(self).contains(inputs[i as int].0 as int));
                assert(self.links() =~= before.push(Some((source, id))));
                lemma_rank_bound(rank0, id as nat, source as int);
                assert forall|e: int| #[trigger] has_link(self.links(), e) implies rank1(
                    tail(self.links(), e),
                ) < rank1(head(self.links(), e)) by {
                    if e < before.len() {
                        assert(has_link(before, e));
                    }
                }
                assert forall|e: int| #[trigger] has_link(self.links(), e) implies is_alive(
                    self.alive(),
                    tail(self.links(), e),
                ) && is_alive(self.alive(), head(self.links(), e)) by {
                    if e < before.len() {
                        assert(has_link(before, e));
                    }
                }
            }
            i += 1;
        }
        Ok(id)
    }
}

} // verus!
