//! Directed graphs as a list of live nodes and a list of links, and their
//! topological order: what the execution engine schedules by, and what tells
//! a graph with a cycle from one without.

use vstd::prelude::*;

verus! {

/// Whether slot `e` of the list holds a link.
pub open spec fn has_link(links: Seq<Option<(usize, usize)>>, e: int) -> bool {
    0 <= e < links.len() && links[e] is Some
}

/// The node that link `e` leaves.
pub open spec fn tail(links: Seq<Option<(usize, usize)>>, e: int) -> int {
    links[e]->Some_0.0 as int
}

/// The node that link `e` enters.
pub open spec fn head(links: Seq<Option<(usize, usize)>>, e: int) -> int {
    links[e]->Some_0.1 as int
}

/// Whether `v` is a live node.
pub open spec fn is_alive(alive: Seq<bool>, v: int) -> bool {
    0 <= v < alive.len() && alive[v]
}

/// Whether every link joins two live nodes: no link dangles.
pub open spec fn closed(alive: Seq<bool>, links: Seq<Option<(usize, usize)>>) -> bool {
    forall|e: int| #[trigger]
        has_link(links, e) ==> is_alive(alive, tail(links, e)) && is_alive(alive, head(links, e))
}

/// Whether `rank` grows along every link.
pub open spec fn ranked(links: Seq<Option<(usize, usize)>>, rank: spec_fn(int) -> nat) -> bool {
    forall|e: int| #[trigger] has_link(links, e) ==> rank(tail(links, e)) < rank(head(links, e))
}

/// Whether the links form no cycle: some ranking of the nodes grows along
/// every link.
pub open spec fn acyclic(links: Seq<Option<(usize, usize)>>) -> bool {
    exists|rank: spec_fn(int) -> nat| ranked(links, rank)
}

/// Whether `order` is a topological order of the live nodes: it lists every
/// live node exactly once and nothing else, and every link leads from an
/// earlier node to a later one.
pub open spec fn is_schedule(
    alive: Seq<bool>,
    links: Seq<Option<(usize, usize)>>,
    order: Seq<usize>,
) -> bool {
    &&& forall|i: int| 0 <= i < order.len() ==> is_alive(alive, #[trigger] order[i] as int)
    &&& forall|i: int, j: int| 0 <= i < j < order.len() ==> order[i] != order[j]
    &&& forall|v: int| #[trigger]
        is_alive(alive, v) ==> exists|i: int| 0 <= i < order.len() && order[i] == v
    &&& forall|e: int, i: int, j: int|
        #![trigger has_link(links, e), order[i], order[j]]
        has_link(links, e) && 0 <= i < order.len() && 0 <= j < order.len() && order[i] == tail(
            links,
            e,
        ) && order[j] == head(links, e) ==> i < j
}

/// A closed graph with a topological order has no cycle.
pub proof fn lemma_schedule_acyclic(
    alive: Seq<bool>,
    links: Seq<Option<(usize, usize)>>,
    order: Seq<usize>,
)
    requires
        closed(alive, links),
        is_schedule(alive, links, order),
    ensures
        acyclic(links),
{
    let rank = |v: int| -> nat
        {
            if exists|i: int| 0 <= i < order.len() && order[i] == v {
                (choose|i: int| 0 <= i < order.len() && order[i] == v) as nat
            } else {
                0
            }
        };
    assert forall|e: int| #[trigger] has_link(links, e) implies rank(tail(links, e)) < rank(
        head(links, e),
    ) by {
        let s = tail(links, e);
        let t = head(links, e);
        assert(is_alive(alive, s) && is_alive(alive, t));
        let i = choose|i: int| 0 <= i < order.len() && order[i] == s;
        let j = choose|j: int| 0 <= j < order.len() && order[j] == t;
        assert(has_link(links, e) && order[i] == s && order[j] == t);
    }
    assert(ranked(links, rank));
}

/// Whether the links of `path`, in this order, lead from node to node: each
/// enters the node that the next one leaves.
pub open spec fn is_walk(links: Seq<Option<(usize, usize)>>, path: Seq<int>) -> bool {
    &&& forall|i: int| 0 <= i < path.len() ==> has_link(links, #[trigger] path[i])
    &&& forall|i: int|
        0 <= i < path.len() - 1 ==> head(links, #[trigger] path[i]) == tail(links, path[i + 1])
}

/// Whether the links of `path` lead from a node back to it.
pub open spec fn is_cycle(links: Seq<Option<(usize, usize)>>, path: Seq<int>) -> bool {
    &&& path.len() > 0
    &&& is_walk(links, path)
    &&& head(links, path.last()) == tail(links, path[0])
}

/// Along a walk the rank grows.
pub proof fn lemma_walk_climbs(
    links: Seq<Option<(usize, usize)>>,
    rank: spec_fn(int) -> nat,
    path: Seq<int>,
)
    requires
        ranked(links, rank),
        is_walk(links, path),
        path.len() > 0,
    ensures
        rank(tail(links, path[0])) < rank(head(links, path.last())),
    decreases path.len(),
{
    let last = path.last();
    assert(has_link(links, path[path.len() - 1]));
    if path.len() > 1 {
        let front = path.drop_last();
        assert(is_walk(links, front)) by {
            assert forall|i: int| 0 <= i < front.len() implies has_link(
                links,
                #[trigger] front[i],
            ) by {
                assert(has_link(links, path[i]));
            }
            assert forall|i: int| 0 <= i < front.len() - 1 implies head(
                links,
                #[trigger] front[i],
            ) == tail(links, front[i + 1]) by {
                assert(head(links, path[i]) == tail(links, path[i + 1]));
            }
        }
        lemma_walk_climbs(links, rank, front);
        assert(head(links, path[path.len() - 2]) == tail(links, path[path.len() - 2 + 1]));
    }
}

/// A graph in which some links lead from a node back to it has a cycle: no
/// ranking grows along every link.
pub proof fn lemma_cycle_unranked(links: Seq<Option<(usize, usize)>>, path: Seq<int>)
    requires
        is_cycle(links, path),
    ensures
        !acyclic(links),
{
    if acyclic(links) {
        let rank = choose|rank: spec_fn(int) -> nat| ranked(links, rank);
        lemma_walk_climbs(links, rank, path);
    }
}

/// The number of entries that are set.
pub open spec fn count_true(s: Seq<bool>) -> nat
    decreases s.len(),
{
    if s.len() == 0 {
        0
    } else {
        count_true(s.drop_last()) + if s.last() {
            1nat
        } else {
            0nat
        }
    }
}

/// No more entries are set than there are.
pub proof fn lemma_count_bound(s: Seq<bool>)
    ensures
        count_true(s) <= s.len(),
    decreases s.len(),
{
    if s.len() > 0 {
        lemma_count_bound(s.drop_last());
    }
}

/// Setting an entry that was not set adds one to the number of those that
/// are.
pub proof fn lemma_count_set(s: Seq<bool>, v: int)
    requires
        0 <= v < s.len(),
        !s[v],
    ensures
        count_true(s.update(v, true)) == count_true(s) + 1,
    decreases s.len(),
{
    let t = s.update(v, true);
    if v == s.len() - 1 {
        assert(t.drop_last() =~= s.drop_last());
    } else {
        assert(t.drop_last() =~= s.drop_last().update(v, true));
        lemma_count_set(s.drop_last(), v);
    }
}

/// Whether node `v` waits for a node that has not been emitted yet.
pub open spec fn blocked(links: Seq<Option<(usize, usize)>>, emitted: Seq<bool>, v: int) -> bool {
    exists|e: int| #[trigger]
        has_link(links, e) && head(links, e) == v && !emitted[tail(links, e)]
}

/// Whether every live node that has not been emitted waits for another.
pub open spec fn stuck(
    alive: Seq<bool>,
    links: Seq<Option<(usize, usize)>>,
    emitted: Seq<bool>,
) -> bool {
    forall|v: int| #[trigger] is_alive(alive, v) && !emitted[v] ==> blocked(links, emitted, v)
}

/// In a stuck graph, no ranking grows along every link: every waiting node
/// would have to rank above any given number.
pub proof fn lemma_stuck_ranks(
    alive: Seq<bool>,
    links: Seq<Option<(usize, usize)>>,
    emitted: Seq<bool>,
    rank: spec_fn(int) -> nat,
    k: nat,
)
    requires
        emitted.len() == alive.len(),
        closed(alive, links),
        stuck(alive, links, emitted),
        ranked(links, rank),
    ensures
        forall|v: int| #[trigger] is_alive(alive, v) && !emitted[v] ==> rank(v) >= k,
    decreases k,
{
    if k > 0 {
        lemma_stuck_ranks(alive, links, emitted, rank, (k - 1) as nat);
        assert forall|v: int| #[trigger] is_alive(alive, v) && !emitted[v] implies rank(v)
            >= k by {
            assert(blocked(links, emitted, v));
            let e = choose|e: int| #[trigger]
                has_link(links, e) && head(links, e) == v && !emitted[tail(links, e)];
            let s = tail(links, e);
            assert(is_alive(alive, s));
            assert(rank(s) >= k - 1);
            assert(rank(s) < rank(v));
        }
    }
}

/// A closed graph that is stuck with a live node left over has a cycle.
pub proof fn lemma_stuck_cyclic(
    alive: Seq<bool>,
    links: Seq<Option<(usize, usize)>>,
    emitted: Seq<bool>,
    v: int,
)
    requires
        emitted.len() == alive.len(),
        closed(alive, links),
        stuck(alive, links, emitted),
        is_alive(alive, v),
        !emitted[v],
    ensures
        !acyclic(links),
{
    if acyclic(links) {
        let rank = choose|rank: spec_fn(int) -> nat| ranked(links, rank);
        lemma_stuck_ranks(alive, links, emitted, rank, rank(v) + 1);
        assert(is_alive(alive, v) && !emitted[v]);
    }
}

/// More entries than there are values hold some value twice.
pub proof fn lemma_pigeonhole(s: Seq<int>, n: nat)
    requires
        s.len() > n,
        forall|i: int| 0 <= i < s.len() ==> 0 <= #[trigger] s[i] < n,
    ensures
        exists|i: int, j: int| 0 <= i < j < s.len() && s[i] == s[j],
    decreases n,
{
    if n == 0 {
        assert(0 <= s[0] < n);
    } else {
        let top = n - 1;
        if exists|p: int| 0 <= p < s.len() && s[p] == top {
            let p = choose|p: int| 0 <= p < s.len() && s[p] == top;
            if exists|q: int| 0 <= q < s.len() && q != p && s[q] == top {
                let q = choose|q: int| 0 <= q < s.len() && q != p && s[q] == top;
                if p < q {
                    assert(0 <= p < q < s.len() && s[p] == s[q]);
                } else {
                    assert(0 <= q < p < s.len() && s[q] == s[p]);
                }
            } else {
                let t = s.remove(p);
                assert forall|i: int| 0 <= i < t.len() implies 0 <= #[trigger] t[i] < top by {
                    let at = if i < p {
                        i
                    } else {
                        i + 1
                    };
                    assert(t[i] == s[at]);
                    assert(0 <= s[at] < n);
                }
                lemma_pigeonhole(t, top as nat);
                let (i, j) = choose|i: int, j: int| 0 <= i < j < t.len() && t[i] == t[j];
                let a = if i < p {
                    i
                } else {
                    i + 1
                };
                let b = if j < p {
                    j
                } else {
                    j + 1
                };
                assert(0 <= a < b < s.len() && s[a] == s[b]);
            }
        } else {
            assert forall|i: int| 0 <= i < s.len() implies 0 <= #[trigger] s[i] < top by {
                assert(0 <= s[i] < n);
            }
            lemma_pigeonhole(s, top as nat);
        }
    }
}

/// A link by which node `v` waits for a node that has not been emitted.
pub open spec fn waits_by(links: Seq<Option<(usize, usize)>>, emitted: Seq<bool>, v: int) -> int {
    choose|e: int| #[trigger] has_link(links, e) && head(links, e) == v && !emitted[tail(links, e)]
}

/// A walk of `k` links that ends at node `v`, found by going back from `v`
/// along links by which a node waits.
pub open spec fn waiting_walk(
    links: Seq<Option<(usize, usize)>>,
    emitted: Seq<bool>,
    v: int,
    k: nat,
) -> Seq<int>
    decreases k,
{
    if k == 0 {
        Seq::empty()
    } else {
        let e = waits_by(links, emitted, v);
        waiting_walk(links, emitted, tail(links, e), (k - 1) as nat).push(e)
    }
}

/// In a stuck graph, going back from a waiting node gives a walk of any
/// length, through live nodes.
pub proof fn lemma_waiting_walk(
    alive: Seq<bool>,
    links: Seq<Option<(usize, usize)>>,
    emitted: Seq<bool>,
    v: int,
    k: nat,
)
    requires
        emitted.len() == alive.len(),
        closed(alive, links),
        stuck(alive, links, emitted),
        is_alive(alive, v),
        !emitted[v],
    ensures
        waiting_walk(links, emitted, v, k).len() == k,
        is_walk(links, waiting_walk(links, emitted, v, k)),
        k > 0 ==> head(links, waiting_walk(links, emitted, v, k).last()) == v,
        forall|i: int|
            0 <= i < k ==> is_alive(
                alive,
                tail(links, #[trigger] waiting_walk(links, emitted, v, k)[i]),
            ),
    decreases k,
{
    if k > 0 {
        assert(blocked(links, emitted, v));
        let e = waits_by(links, emitted, v);
        let s = tail(links, e);
        assert(has_link(links, e));
        assert(is_alive(alive, s));
        let front = waiting_walk(links, emitted, s, (k - 1) as nat);
        let path = waiting_walk(links, emitted, v, k);
        lemma_waiting_walk(alive, links, emitted, s, (k - 1) as nat);
        assert(path == front.push(e));
        assert forall|i: int| 0 <= i < path.len() implies has_link(links, #[trigger] path[i]) by {
            if i < front.len() {
                assert(has_link(links, front[i]));
            }
        }
        assert forall|i: int| 0 <= i < path.len() - 1 implies head(links, #[trigger] path[i])
            == tail(links, path[i + 1]) by {
            if i < front.len() - 1 {
                assert(head(links, front[i]) == tail(links, front[i + 1]));
            } else {
                assert(path[i] == front.last());
            }
        }
        assert forall|i: int| 0 <= i < k implies is_alive(alive, tail(links, #[trigger] path[i])) by {
            if i < front.len() {
                assert(is_alive(alive, tail(links, front[i])));
            }
        }
    }
}

/// A closed graph that is stuck with a live node left over holds links that
/// lead from a node back to it.
pub proof fn lemma_stuck_has_cycle(
    alive: Seq<bool>,
    links: Seq<Option<(usize, usize)>>,
    emitted: Seq<bool>,
    v: int,
)
    requires
        emitted.len() == alive.len(),
        closed(alive, links),
        stuck(alive, links, emitted),
        is_alive(alive, v),
        !emitted[v],
    ensures
        exists|path: Seq<int>| is_cycle(links, path),
{
    let k = alive.len() + 1;
    let walk = waiting_walk(links, emitted, v, k);
    lemma_waiting_walk(alive, links, emitted, v, k);
    let nodes = Seq::new(k, |i: int| tail(links, walk[i]));
    assert forall|i: int| 0 <= i < nodes.len() implies 0 <= #[trigger] nodes[i] < alive.len() by {
        assert(is_alive(alive, tail(links, walk[i])));
    }
    lemma_pigeonhole(nodes, alive.len());
    let (i, j) = choose|i: int, j: int| 0 <= i < j < nodes.len() && nodes[i] == nodes[j];
    let path = walk.subrange(i, j);
    assert forall|x: int| 0 <= x < path.len() implies has_link(links, #[trigger] path[x]) by {
        assert(has_link(links, walk[i + x]));
    }
    assert forall|x: int| 0 <= x < path.len() - 1 implies head(links, #[trigger] path[x]) == tail(
        links,
        path[x + 1],
    ) by {
        assert(head(links, walk[i + x]) == tail(links, walk[i + x + 1]));
    }
    assert(path.last() == walk[j - 1]);
    assert(head(links, walk[j - 1]) == tail(links, walk[j - 1 + 1]));
    assert(path[0] == walk[i]);
    assert(is_cycle(links, path));
}

/// Whether every node that `v` waits for has been emitted.
pub fn is_ready(links: &Vec<Option<(usize, usize)>>, emitted: &Vec<bool>, v: usize) -> (r: bool)
    requires
        forall|e: int| #[trigger] has_link(links@, e) ==> tail(links@, e) < emitted.len(),
    ensures
        r == !blocked(links@, emitted@, v as int),
{
    let mut e: usize = 0;
    while e < links.len()
        invariant
            e <= links.len(),
            forall|x: int| #[trigger] has_link(links@, x) ==> tail(links@, x) < emitted.len(),
            forall|x: int|
                0 <= x < e ==> !(#[trigger] has_link(links@, x) && head(links@, x) == v
                    && !emitted[tail(links@, x)]),
        decreases links.len() - e,
    {
        match links[e] {
            Some((s, t)) => {
                assert(has_link(links@, e as int));
                if t == v && !emitted[s] {
                    return false;
                }
            },
            None => {},
        }
        e += 1;
    }
    true
}

/// A topological order of the live nodes, or `None` if some links lead from
/// a node back to it.
pub fn toposort(alive: &Vec<bool>, links: &Vec<Option<(usize, usize)>>) -> (r: Option<Vec<usize>>)
    requires
        closed(alive@, links@),
    ensures
        match r {
            Some(order) => is_schedule(alive@, links@, order@),
            None => !acyclic(links@) && exists|path: Seq<int>| is_cycle(links@, path),
        },
{
    let n: usize = alive.len();
    let mut emitted: Vec<bool> = Vec::new();
    let mut k: usize = 0;
    while k < n
        invariant
            k <= n,
            emitted.len() == k,
            forall|v: int| 0 <= v < k ==> !emitted[v],
        decreases n - k,
    {
        emitted.push(false);
        k += 1;
    }
    let mut order: Vec<usize> = Vec::new();
    let ghost mut pos: Seq<int> = Seq::new(n as nat, |v: int| -1int);
    loop
        invariant
            n == alive.len(),
            emitted.len() == n,
            pos.len() == n,
            closed(alive@, links@),
            forall|i: int|
                0 <= i < order.len() ==> is_alive(alive@, #[trigger] order[i] as int)
                    && emitted[order[i] as int] && pos[order[i] as int] == i,
            forall|v: int|
                0 <= v < n && #[trigger] emitted[v] ==> 0 <= pos[v] < order.len() && order[pos[v]]
                    == v,
            forall|e: int| #[trigger]
                has_link(links@, e) && emitted[head(links@, e)] ==> emitted[tail(links@, e)]
                    && pos[tail(links@, e)] < pos[head(links@, e)],
        ensures
            stuck(alive@, links@, emitted@),
        decreases n - count_true(emitted@),
    {
        let ghost at_start = emitted@;
        let mut progress: bool = false;
        let mut v: usize = 0;
        while v < n
            invariant
                v <= n,
                n == alive.len(),
                emitted.len() == n,
                pos.len() == n,
                closed(alive@, links@),
                forall|i: int|
                    0 <= i < order.len() ==> is_alive(alive@, #[trigger] order[i] as int)
                        && emitted[order[i] as int] && pos[order[i] as int] == i,
                forall|u: int|
                    0 <= u < n && #[trigger] emitted[u] ==> 0 <= pos[u] < order.len()
                        && order[pos[u]] == u,
                forall|e: int| #[trigger]
                    has_link(links@, e) && emitted[head(links@, e)] ==> emitted[tail(links@, e)]
                        && pos[tail(links@, e)] < pos[head(links@, e)],
                at_start.len() == n,
                progress ==> count_true(emitted@) > count_true(at_start),
                !progress ==> emitted@ == at_start,
                !progress ==> forall|u: int|
                    0 <= u < v && #[trigger] is_alive(alive@, u) && !emitted[u] ==> blocked(
                        links@,
                        emitted@,
                        u,
                    ),
            decreases n - v,
        {
            if alive[v] && !emitted[v] {
                assert forall|e: int| #[trigger] has_link(links@, e) implies tail(links@, e)
                    < emitted.len() by {
                    assert(is_alive(alive@, tail(links@, e)));
                }
                if is_ready(links, &emitted, v) {
                    proof {
                        lemma_count_set(emitted@, v as int);
                        pos = pos.update(v as int, order.len() as int);
                    }
                    let ghost before = emitted@;
                    order.push(v);
                    emitted.set(v, true);
                    progress = true;
                    proof {
                        assert forall|e: int| #[trigger]
                            has_link(links@, e) && emitted[head(links@, e)] implies emitted[tail(
                            links@,
                            e,
                        )] && pos[tail(links@, e)] < pos[head(links@, e)] by {
                            let s = tail(links@, e);
                            let t = head(links@, e);
                            assert(is_alive(alive@, s) && is_alive(alive@, t));
                            if t == v {
                                assert(!blocked(links@, before, v as int));
                                assert(before[s]);
                            } else {
                                assert(before[t]);
                            }
                        }
                    }
                }
            }
            v += 1;
        }
        if !progress {
            break;
        }
        proof {
            lemma_count_bound(emitted@);
        }
    }
    let mut w: usize = 0;
    while w < n
        invariant
            w <= n,
            n == alive.len(),
            emitted.len() == n,
            closed(alive@, links@),
            stuck(alive@, links@, emitted@),
            forall|u: int| 0 <= u < w && #[trigger] is_alive(alive@, u) ==> emitted[u],
        decreases n - w,
    {
        if alive[w] && !emitted[w] {
            proof {
                assert(is_alive(alive@, w as int));
                lemma_stuck_cyclic(alive@, links@, emitted@, w as int);
                lemma_stuck_has_cycle(alive@, links@, emitted@, w as int);
            }
            return None;
        }
        w += 1;
    }
    proof {
        assert forall|v: int| #[trigger] is_alive(alive@, v) implies exists|i: int|
            0 <= i < order.len() && order[i] == v by {
            assert(emitted[v]);
            assert(order[pos[v]] == v);
        }
        assert forall|e: int, i: int, j: int|
            #![trigger has_link(links@, e), order[i], order[j]]
            has_link(links@, e) && 0 <= i < order.len() && 0 <= j < order.len() && order[i]
                == tail(links@, e) && order[j] == head(links@, e) implies i < j by {
            assert(emitted[head(links@, e)]);
        }
    }
    Some(order)
}

} // verus!
