//! Shortest-path search over the layered graph.

use vstd::prelude::*;

use crate::graph::{
    path_total, path_valid, spec_connected, spec_connected_hop, Graph, GraphWeight, Node, Path,
};
use crate::node_map::{NodeMap, NodeSet};
use crate::pqueue::{pq_new, pq_pop, pq_push, queue_entries, NodeQueue};

verus! {

/// A search that cannot reach its destination reports this error instead of
/// returning a degenerate path.
#[derive(Clone, Copy, Debug, PartialEq, Eq, Structural)]
pub enum PathError {
    Unreachable,
}

/// The node named by a queue key.
pub open spec fn nd(k: (i64, i64)) -> Node {
    Node { x: k.0, y: k.1 }
}

/// Priority encoding: smaller weights get greater priorities, so a queue
/// that pops its greatest priority pops a smallest weight.
pub open spec fn spec_weight_priority(w: GraphWeight) -> u64 {
    match w {
        GraphWeight::Infinity => 0,
        GraphWeight::Finite(n) => (u64::MAX - n) as u64,
    }
}

fn weight_priority(w: GraphWeight) -> (r: u64)
    requires
        w.is_nonneg(),
    ensures
        r == spec_weight_priority(w),
{
    match w {
        GraphWeight::Infinity => 0,
        GraphWeight::Finite(n) => u64::MAX - (n as u64),
    }
}

/// The working state of a Dijkstra run is consistent: queue keys carry the
/// priorities of known distances inside the universe, settled distances are
/// lower bounds on every walk from the source, fully relaxed nodes have all
/// their edge targets recorded, and predecessor entries are real edges whose
/// parents were settled earlier and whose distances telescope.
spec fn dij_inv<G: Graph>(
    g: &G,
    source: Node,
    q: Map<(i64, i64), u64>,
    dist: Map<Node, GraphWeight>,
    prev: Map<Node, (Node, GraphWeight)>,
    settled: Set<Node>,
    relaxed: Set<Node>,
    ord: Map<Node, nat>,
    step: nat,
) -> bool {
    &&& q.dom().finite()
    &&& dist.contains_key(source)
    &&& dist[source] == GraphWeight::Finite(0)
    &&& relaxed.subset_of(settled)
    &&& settled.contains(source) || q.contains_key((source.x, source.y))
    &&& forall|k: (i64, i64)| #[trigger]
        q.contains_key(k) ==> q[k] == spec_weight_priority(dist[nd(k)])
    &&& forall|n: Node, i: int|
        relaxed.contains(n) && 0 <= i < g.spec_children(n).len() ==> dist.contains_key(
            (#[trigger] g.spec_children(n)[i]).0,
        ) && (settled.contains(g.spec_children(n)[i].0) || dist[g.spec_children(
            n,
        )[i].0].spec_le(g.spec_children(n)[i].1.spec_add(dist[n])))
    &&& forall|n: Node| #[trigger] settled.contains(n) ==> dist.contains_key(n)
    &&& forall|n: Node, p: Seq<(Node, GraphWeight)>|
        settled.contains(n) && #[trigger] path_valid(g, p, source, n) ==> dist[n].spec_le(
            path_total(p),
        )
    &&& forall|n: Node| #[trigger]
        dist.contains_key(n) ==> settled.contains(n) || q.contains_key((n.x, n.y))
    &&& forall|k: (i64, i64)| #[trigger]
        q.contains_key(k) ==> dist.contains_key(nd(k)) && (g.universe().contains(nd(k)) || nd(k)
            == source) && (prev.contains_key(nd(k)) || nd(k) == source)
    &&& forall|n: Node| #[trigger] settled.contains(n) ==> prev.contains_key(n) || n == source
    &&& forall|c: Node| #[trigger]
        prev.contains_key(c) ==> {
            &&& g.spec_children(prev[c].0).contains((c, prev[c].1))
            &&& settled.contains(prev[c].0)
            &&& dist.contains_key(c)
            &&& dist[c] == prev[c].1.spec_add(dist[prev[c].0])
            &&& (prev.contains_key(prev[c].0) || prev[c].0 == source)
            &&& c != source
            &&& (settled.contains(c) || q.contains_key((c.x, c.y)))
            &&& (settled.contains(c) ==> ord[prev[c].0] < ord[c])
        }
    &&& forall|n: Node| #[trigger]
        settled.contains(n) ==> ord.contains_key(n) && ord[n] < step && (g.universe().contains(n)
            || n == source)
    &&& forall|n: Node| #[trigger] dist.contains_key(n) ==> dist[n].is_nonneg()
}

/// The weights of `rev`, rolled from its last entry onto `base`.
spec fn roll(rev: Seq<(Node, GraphWeight)>, base: GraphWeight) -> GraphWeight
    decreases rev.len(),
{
    if rev.len() == 0 {
        base
    } else {
        roll(rev.drop_last(), rev.last().1.spec_add(base))
    }
}

/// The cut argument of the shortest-path search: when `n` carries the least
/// recorded distance outside the settled set, no walk from the source can
/// beat that distance, because it must first leave the settled region
/// through an already-relaxed edge.
proof fn lemma_dij_cut<G: Graph>(
    g: &G,
    source: Node,
    settled: Set<Node>,
    dist: Map<Node, GraphWeight>,
    n: Node,
    p: Seq<(Node, GraphWeight)>,
    m: Node,
)
    requires
        g.wf(),
        path_valid(g, p, source, m),
        dist.contains_key(source),
        dist[source] == GraphWeight::Finite(0),
        forall|x: Node| #[trigger] dist.contains_key(x) ==> dist[x].is_nonneg(),
        forall|x: Node| #[trigger] settled.contains(x) ==> dist.contains_key(x),
        forall|x: Node, q: Seq<(Node, GraphWeight)>|
            settled.contains(x) && #[trigger] path_valid(g, q, source, x) ==> dist[x].spec_le(
                path_total(q),
            ),
        forall|x: Node, i: int|
            settled.contains(x) && 0 <= i < g.spec_children(x).len() ==> dist.contains_key(
                (#[trigger] g.spec_children(x)[i]).0,
            ) && (settled.contains(g.spec_children(x)[i].0) || dist[g.spec_children(
                x,
            )[i].0].spec_le(g.spec_children(x)[i].1.spec_add(dist[x]))),
        forall|x: Node| #[trigger]
            dist.contains_key(x) && !settled.contains(x) ==> dist[n].spec_le(dist[x]),
        !settled.contains(n),
        dist.contains_key(n),
    ensures
        dist[n].spec_le(path_total(p)) || (settled.contains(m) && dist[m].spec_le(path_total(p))),
    decreases p.len(),
{
    if p.len() == 1 {
        assert(m == source);
        assert(path_total(p) == path_total(p.drop_last()).spec_add(p.last().1));
        assert(path_total(p) == GraphWeight::Finite(0));
        if !settled.contains(source) {
            assert(dist[n].spec_le(dist[source]));
        } else {
            assert(path_valid(g, p, source, source));
            assert(dist[source].spec_le(path_total(p)));
        }
    } else {
        let p2 = p.drop_last();
        let m2 = p2.last().0;
        assert(path_valid(g, p2, source, m2)) by {
            assert(forall|i: int|
                0 <= i < p2.len() - 1 ==> (#[trigger] g.spec_children(p2[i].0)).contains(
                    (p2[i + 1].0, p2[i + 1].1),
                )) by {
                assert(forall|i: int|
                    0 <= i < p2.len() - 1 ==> #[trigger] p2[i] == p[i] && p2[i + 1] == p[i + 1]);
            }
        }
        lemma_dij_cut(g, source, settled, dist, n, p2, m2);
        let w = p.last().1;
        let cs = g.spec_children(m2);
        assert(cs.contains((p[p.len() - 1].0, p[p.len() - 1].1)));
        let ci = choose|ci: int| 0 <= ci < cs.len() && cs[ci] == (p[p.len() - 1].0, p[p.len() - 1].1);
        assert(w.is_nonneg()) by {
            g.lemma_wf_children(m2);
        }
        assert(path_total(p) == path_total(p2).spec_add(w));
        if dist[n].spec_le(path_total(p2)) {
            assert(dist[n].spec_le(path_total(p)));
        } else {
            assert(settled.contains(m2) && dist[m2].spec_le(path_total(p2)));
            assert(dist.contains_key(m2));
            if settled.contains(m) {
                assert(path_valid(g, p, source, m));
                assert(dist[m].spec_le(path_total(p)));
            } else {
                assert(dist.contains_key(m) && dist[m].spec_le(w.spec_add(dist[m2]))) by {
                    assert(cs[ci].0 == m);
                }
                assert(dist[m].spec_le(path_total(p))) by {
                    assert(dist[m2].is_nonneg());
                    assert(path_total(p2).is_nonneg()) by {
                        assert(dist[m2].spec_le(path_total(p2)));
                    }
                }
                assert(dist[n].spec_le(dist[m]));
            }
        }
    }
}

/// Classic single-source, non-negative-weight shortest path over the
/// `get_children` capability.
///
/// Returns a path that starts at `source` with weight zero, ends at
/// `destination`, whose every hop is an edge the graph offers, and whose
/// total weight no other such walk undercuts; when no walk reaches
/// `destination` at all, it returns `Err(PathError::Unreachable)` instead.
#[verifier::rlimit(100)]
pub fn dijkstra<G: Graph>(source: &Node, destination: &Node, graph: &G) -> (r: Result<
    Path,
    PathError,
>)
    requires
        graph.wf(),
    ensures
        match r {
            Ok(p) => path_valid(graph, p@, *source, *destination) && forall|
                q: Seq<(Node, GraphWeight)>,
            |
                #[trigger] path_valid(graph, q, *source, *destination) ==> path_total(
                    p@,
                ).spec_le(path_total(q)),
            Err(e) => e == PathError::Unreachable && *destination != *source && !spec_connected(
                graph,
                *source,
                *destination,
            ),
        },
{
    let mut queue: NodeQueue = pq_new();
    let mut dist: NodeMap<GraphWeight> = NodeMap::new();
    let mut prev: NodeMap<(Node, GraphWeight)> = NodeMap::new();
    let mut settled = NodeSet::new();
    let ghost mut relaxed: Set<Node> = Set::empty();
    let ghost mut ord: Map<Node, nat> = Map::empty();
    let ghost mut step: nat = 0;
    proof {
        graph.lemma_wf_children(*source);
    }
    dist.insert(*source, GraphWeight::Finite(0));
    pq_push(&mut queue, source.x, source.y, weight_priority(GraphWeight::Finite(0)));
    loop
        invariant
            graph.wf(),
            graph.universe().finite(),
            dist.wf(),
            prev.wf(),
            dij_inv(
                graph,
                *source,
                queue_entries(queue),
                dist.view_map(),
                prev.view_map(),
                settled.view_set(),
                relaxed,
                ord,
                step,
            ),
            settled.view_set() == relaxed,
        ensures
            queue_entries(queue).dom() =~= Set::<(i64, i64)>::empty(),
            dist.wf(),
            prev.wf(),
            dij_inv(
                graph,
                *source,
                queue_entries(queue),
                dist.view_map(),
                prev.view_map(),
                settled.view_set(),
                relaxed,
                ord,
                step,
            ),
            settled.view_set() == relaxed,
        decreases
            graph.universe().insert(*source).difference(settled.view_set()).len(),
            queue_entries(queue).dom().len(),
    {
        let ghost settled0 = settled.view_set();
        let ghost q0 = queue_entries(queue);
        match pq_pop(&mut queue) {
            None => {
                break ;
            },
            Some(((x, y), _pri)) => {
                let n = Node { x, y };
                proof {
                    assert(q0.contains_key((x, y)));
                    assert(nd((x, y)) == n);
                }
                if settled.contains(&n) {
                    proof {
                        assert(settled.view_set() =~= settled0);
                        assert(queue_entries(queue).dom() =~= q0.dom().remove((x, y)));
                    }
                    continue ;
                }
                proof {
                    // The popped node carries the least recorded distance of
                    // any unsettled node, so no walk from the source beats
                    // that distance: the node may be settled.
                    assert forall|x: Node|
                        dist.view_map().contains_key(x) && !settled0.contains(
                            x,
                        ) implies dist.view_map()[n].spec_le(dist.view_map()[x]) by {
                        assert(q0.contains_key((x.x, x.y)));
                        assert(nd((x.x, x.y)) == x);
                        assert(q0[(x.x, x.y)] <= _pri);
                        assert(q0[(x.x, x.y)] == spec_weight_priority(dist.view_map()[x]));
                        assert(_pri == spec_weight_priority(dist.view_map()[n]));
                    }
                    assert forall|p: Seq<(Node, GraphWeight)>|
                        #[trigger] path_valid(graph, p, *source, n) implies dist.view_map()[
                        n].spec_le(path_total(p)) by {
                        lemma_dij_cut(
                            graph,
                            *source,
                            settled0,
                            dist.view_map(),
                            n,
                            p,
                            n,
                        );
                    }
                }
                settled.insert(n);
                proof {
                    ord = ord.insert(n, step);
                    step = step + 1;
                    graph.universe().insert(*source).lemma_set_insert_diff_decreases(
                        settled0,
                        n,
                    );
                }
                let dn = *dist.get(&n).unwrap();
                let children = graph.get_children(&n);
                proof {
                    graph.lemma_wf_children(n);
                }
                let m = children.len();
                let ghost diff0 =
                    graph.universe().insert(*source).difference(settled.view_set()).len();
                for i in 0..m
                    invariant
                        graph.wf(),
                        graph.universe().finite(),
                        dist.wf(),
                        prev.wf(),
                        dij_inv(
                            graph,
                            *source,
                            queue_entries(queue),
                            dist.view_map(),
                            prev.view_map(),
                            settled.view_set(),
                            relaxed,
                            ord,
                            step,
                        ),
                        m == children@.len(),
                        children@ == graph.spec_children(n),
                        forall|j: int|
                            0 <= j < children@.len() ==> graph.universe().contains(
                                (#[trigger] children@[j]).0,
                            ) && children@[j].1.is_nonneg(),
                        forall|j: int|
                            0 <= j < i ==> dist.view_map().contains_key(
                                (#[trigger] children@[j]).0,
                            ) && (settled.view_set().contains(children@[j].0)
                                || dist.view_map()[children@[j].0].spec_le(
                                children@[j].1.spec_add(dn),
                            )),
                        relaxed == settled0,
                        settled.view_set() == settled0.insert(n),
                        settled.view_set().contains(n),
                        dist.view_map().contains_key(n),
                        dist.view_map()[n] == dn,
                        dn.is_nonneg(),
                        graph.universe().insert(*source).difference(settled.view_set()).len()
                            == diff0,
                        diff0 < graph.universe().insert(*source).difference(settled0).len(),
                {
                    let (c, w) = children[i];
                    proof {
                        assert(children@[i as int] == (c, w));
                        assert(w.is_nonneg());
                        assert(graph.universe().contains(c));
                        assert(graph.spec_children(n).contains((c, w)));
                    }
                    let total = w.add(dn);
                    if !settled.contains(&c) {
                        let improved = match dist.get(&c) {
                            Some(best) => total.lt(best),
                            None => true,
                        };
                        if improved {
                            proof {
                                assert(c != *source) by {
                                    if c == *source {
                                        assert(dist.view_map()[*source]
                                            == GraphWeight::Finite(0));
                                        assert(total.is_nonneg());
                                        assert(!total.spec_lt(GraphWeight::Finite(0)));
                                    }
                                }
                            }
                            dist.insert(c, total);
                            prev.insert(c, (n, w));
                            pq_push(&mut queue, c.x, c.y, weight_priority(total));
                            proof {
                                assert(nd((c.x, c.y)) == c);
                            }
                        }
                    }
                }
                proof {
                    relaxed = relaxed.insert(n);
                    assert(settled.view_set() =~= relaxed);
                }
            },
        }
    }
    // The queue is empty: every recorded predecessor entry is settled, and
    // walking predecessors from the destination must reach the source.
    if *destination == *source {
        let path = vec![(*source, GraphWeight::Finite(0))];
        proof {
            assert(path@.last() == (*source, GraphWeight::Finite(0)));
            assert(path@.drop_last() =~= Seq::<(Node, GraphWeight)>::empty());
            assert(path_total(Seq::<(Node, GraphWeight)>::empty()) == GraphWeight::Finite(0));
            assert(path_total(path@) == GraphWeight::Finite(0));
            assert(settled.view_set().contains(*source));
            assert forall|q: Seq<(Node, GraphWeight)>|
                #[trigger] path_valid(graph, q, *source, *destination) implies path_total(
                path@,
            ).spec_le(path_total(q)) by {
                assert(dist.view_map()[*source].spec_le(path_total(q)));
            }
        }
        return Ok(Path::new(path));
    }
    if prev.get(destination).is_none() {
        proof {
            // The settled set contains the source and is closed under the
            // graph's edges, so it covers every connected walk; yet every
            // settled node besides the source has a predecessor entry, and
            // the destination has none.
            assert(settled.view_set().contains(*source));
            assert forall|n: Node, i: int|
                settled.view_set().contains(n) && 0 <= i < graph.spec_children(
                    n,
                ).len() implies settled.view_set().contains(
                (#[trigger] graph.spec_children(n)[i]).0,
            ) by {
                assert(relaxed.contains(n));
                assert(dist.view_map().contains_key(graph.spec_children(n)[i].0));
            }
            assert(!spec_connected(graph, *source, *destination)) by {
                if spec_connected(graph, *source, *destination) {
                    let p = choose|p: Seq<(Node, GraphWeight)>|
                        path_valid(graph, p, *source, *destination);
                    crate::graph::lemma_chain_in_closed(
                        graph,
                        settled.view_set(),
                        p,
                        *source,
                        *destination,
                        p.len() - 1,
                    );
                }
            }
        }
        return Err(PathError::Unreachable);
    }
    let mut rev: Vec<(Node, GraphWeight)> = Vec::new();
    let mut current = *destination;
    loop
        invariant
            graph.wf(),
            prev.wf(),
            dij_inv(
                graph,
                *source,
                queue_entries(queue),
                dist.view_map(),
                prev.view_map(),
                settled.view_set(),
                relaxed,
                ord,
                step,
            ),
            queue_entries(queue).dom() =~= Set::<(i64, i64)>::empty(),
            *destination != *source,
            rev@.len() == 0 ==> current == *destination,
            rev@.len() >= 1 ==> rev@[0].0 == *destination,
            forall|i: int|
                0 <= i < rev@.len() - 1 ==> (#[trigger] graph.spec_children(rev@[i + 1].0)).contains(
                    (rev@[i].0, rev@[i].1),
                ),
            rev@.len() >= 1 ==> graph.spec_children(current).contains(
                (rev@[rev@.len() - 1].0, rev@[rev@.len() - 1].1),
            ),
            prev.view_map().contains_key(current) || current == *source,
            dist.view_map().contains_key(current),
            dist.view_map().contains_key(*destination),
            roll(rev@, dist.view_map()[current]) == dist.view_map()[*destination],
        ensures
            current == *source,
            rev@.len() >= 1,
            rev@[0].0 == *destination,
            forall|i: int|
                0 <= i < rev@.len() - 1 ==> (#[trigger] graph.spec_children(rev@[i + 1].0)).contains(
                    (rev@[i].0, rev@[i].1),
                ),
            graph.spec_children(*source).contains(
                (rev@[rev@.len() - 1].0, rev@[rev@.len() - 1].1),
            ),
            roll(rev@, GraphWeight::Finite(0)) == dist.view_map()[*destination],
        decreases
            (if current == *source {
                0int
            } else {
                1int
            }),
            (if ord.contains_key(current) {
                ord[current]
            } else {
                0nat
            }),
    {
        if current == *source {
            break ;
        }
        let e = *prev.get(&current).unwrap();
        proof {
            assert(prev.view_map().contains_key(current));
            assert(settled.view_set().contains(current));
            assert(settled.view_set().contains(e.0));
            assert(ord[e.0] < ord[current]);
            assert(dist.view_map()[current] == e.1.spec_add(dist.view_map()[e.0]));
            assert(rev@.push((current, e.1)).drop_last() =~= rev@);
        }
        rev.push((current, e.1));
        current = e.0;
    }
    let mut path: Vec<(Node, GraphWeight)> = Vec::new();
    path.push((*source, GraphWeight::Finite(0)));
    proof {
        assert(path@.drop_last() =~= Seq::<(Node, GraphWeight)>::empty());
        assert(path_total(Seq::<(Node, GraphWeight)>::empty()) == GraphWeight::Finite(0));
        assert(path_total(path@) == GraphWeight::Finite(0));
        assert(rev@.subrange(0, rev@.len() as int) =~= rev@);
    }
    let n = rev.len();
    let mut i = n;
    while i > 0
        invariant
            n == rev@.len(),
            i <= n,
            path@.len() == 1 + n - i,
            path@[0] == (*source, GraphWeight::Finite(0)),
            forall|j: int| 1 <= j < path@.len() ==> path@[j] == rev@[n - j],
            dist.view_map().contains_key(*destination),
            roll(rev@.subrange(0, i as int), path_total(path@)) == dist.view_map()[*destination],
        decreases i,
    {
        i = i - 1;
        proof {
            let pre = rev@.subrange(0, i + 1 as int);
            assert(pre.drop_last() =~= rev@.subrange(0, i as int));
            assert(pre.last() == rev@[i as int]);
            assert(path@.push(rev@[i as int]).drop_last() =~= path@);
            assert(rev@[i as int].1.spec_add(path_total(path@)) == path_total(path@).spec_add(
                rev@[i as int].1,
            ));
        }
        path.push(rev[i]);
    }
    proof {
        assert(rev@.subrange(0, 0int) =~= Seq::<(Node, GraphWeight)>::empty());
        assert(path_total(path@) == dist.view_map()[*destination]);
        assert(path@.last() == rev@[0]);
        assert(path@.last().0 == *destination);
        assert forall|j: int|
            0 <= j < path@.len() - 1 implies (#[trigger] graph.spec_children(path@[j].0)).contains(
            (path@[j + 1].0, path@[j + 1].1),
        ) by {
            if j == 0 {
                assert(path@[1] == rev@[n - 1]);
                assert(path@[0].0 == *source);
                assert(graph.spec_children(*source).contains((rev@[n - 1].0, rev@[n - 1].1)));
            } else {
                assert(path@[j] == rev@[n - j]);
                assert(path@[j + 1] == rev@[n - j - 1]);
                let k = n - j - 1;
                assert(graph.spec_children(rev@[k + 1].0).contains((rev@[k].0, rev@[k].1)));
            }
        }
        // The destination is settled, so its recorded distance bounds every
        // walk from below, and the returned path meets it exactly.
        assert(settled.view_set().contains(*destination));
        assert forall|q: Seq<(Node, GraphWeight)>|
            #[trigger] path_valid(graph, q, *source, *destination) implies path_total(
            path@,
        ).spec_le(path_total(q)) by {
            assert(dist.view_map()[*destination].spec_le(path_total(q)));
        }
    }
    Ok(Path::new(path))
}

/// A caller-supplied estimate of the remaining distance, used to guide the
/// informed search.
pub trait Heuristic<G: Graph> {
    /// An estimated weight from `source` to `destination`; never negative.
    fn estimate(&self, source: &Node, destination: &Node, graph: &G) -> (r: GraphWeight)
        ensures
            r.is_nonneg(),
    ;
}

/// Manhattan distance between two nodes, clamped to the largest finite
/// weight.
pub open spec fn spec_manhattan(a: Node, b: Node) -> GraphWeight {
    let d = vstd::math::abs(b.x - a.x) + vstd::math::abs(b.y - a.y);
    if d <= i32::MAX {
        GraphWeight::Finite(d as i32)
    } else {
        GraphWeight::Finite(i32::MAX)
    }
}

/// The grid-distance heuristic the downhill decision hands to `a_star`.
pub struct ManhattanHeuristic;

impl<G: Graph> Heuristic<G> for ManhattanHeuristic {
    fn estimate(&self, source: &Node, destination: &Node, graph: &G) -> (r: GraphWeight)
        ensures
            r == spec_manhattan(*source, *destination),
    {
        let dx: i128 = destination.x as i128 - source.x as i128;
        let dy: i128 = destination.y as i128 - source.y as i128;
        let ax: i128 = if dx < 0 {
            -dx
        } else {
            dx
        };
        let ay: i128 = if dy < 0 {
            -dy
        } else {
            dy
        };
        let d: i128 = ax + ay;
        if d <= i32::MAX as i128 {
            GraphWeight::Finite(d as i32)
        } else {
            GraphWeight::Finite(i32::MAX)
        }
    }
}

/// The working state of an informed search is consistent: queue keys carry
/// known costs inside the universe, parent entries are real edges written in
/// increasing order, and recorded costs are non-negative.
spec fn ast_inv<G: Graph>(
    g: &G,
    source: Node,
    q: Map<(i64, i64), u64>,
    gmap: Map<Node, GraphWeight>,
    parent: Map<Node, (Node, GraphWeight)>,
    visited: Set<Node>,
    ord: Map<Node, nat>,
    step: nat,
) -> bool {
    &&& q.dom().finite()
    &&& forall|k: (i64, i64)| #[trigger]
        q.contains_key(k) ==> gmap.contains_key(nd(k)) && (g.universe().contains(nd(k)) || nd(k)
            == source) && (parent.contains_key(nd(k)) || nd(k) == source)
    &&& forall|c: Node| #[trigger]
        parent.contains_key(c) ==> {
            &&& g.spec_children(parent[c].0).contains((c, parent[c].1))
            &&& (parent.contains_key(parent[c].0) || parent[c].0 == source)
            &&& visited.contains(c)
            &&& ord.contains_key(c)
            &&& ord[c] < step
            &&& (parent[c].0 == source || ord[parent[c].0] < ord[c])
        }
    &&& forall|n: Node| #[trigger]
        visited.contains(n) ==> g.universe().contains(n) || n == source
    &&& forall|n: Node| #[trigger] gmap.contains_key(n) ==> gmap[n].is_nonneg()
}

/// Shortest path guided by a caller-supplied heuristic.
///
/// Keeps an open queue keyed by cost-so-far plus estimate and a visited set
/// that admits each node once. On reaching `destination` it walks the parent
/// chain back to `source`; a returned path therefore always has at least one
/// hop. When the open queue empties first, the destination is reported
/// unreachable rather than treated as a fatal condition.
pub fn a_star<G: Graph, H: Heuristic<G>>(
    source: &Node,
    destination: &Node,
    graph: &G,
    heuristic: &H,
) -> (r: Result<Path, PathError>)
    requires
        graph.wf(),
    ensures
        match r {
            Ok(p) => path_valid(graph, p@, *source, *destination) && p@.len() >= 2,
            Err(e) => e == PathError::Unreachable && !spec_connected_hop(
                graph,
                *source,
                *destination,
            ),
        },
{
    let mut queue: NodeQueue = pq_new();
    let mut gmap: NodeMap<GraphWeight> = NodeMap::new();
    let mut parent: NodeMap<(Node, GraphWeight)> = NodeMap::new();
    let mut visited = NodeSet::new();
    let ghost mut relaxed: Set<Node> = Set::empty();
    let ghost mut ord: Map<Node, nat> = Map::empty();
    let ghost mut step: nat = 0;
    proof {
        graph.lemma_wf_children(*source);
    }
    gmap.insert(*source, GraphWeight::Finite(0));
    let h0 = heuristic.estimate(source, destination, graph);
    pq_push(&mut queue, source.x, source.y, weight_priority(h0));
    let mut found = false;
    loop
        invariant
            graph.wf(),
            graph.universe().finite(),
            gmap.wf(),
            parent.wf(),
            found ==> parent.view_map().contains_key(*destination),
            ast_inv(
                graph,
                *source,
                queue_entries(queue),
                gmap.view_map(),
                parent.view_map(),
                visited.view_set(),
                ord,
                step,
            ),
            !found ==> !visited.view_set().contains(*destination),
            forall|v: Node, i: int|
                relaxed.contains(v) && 0 <= i < graph.spec_children(v).len()
                    ==> visited.view_set().contains((#[trigger] graph.spec_children(v)[i]).0),
            !found ==> forall|v: Node| #[trigger]
                visited.view_set().contains(v) ==> relaxed.contains(v) || queue_entries(
                    queue,
                ).contains_key((v.x, v.y)),
            !found ==> relaxed.contains(*source) || queue_entries(queue).contains_key(
                (source.x, source.y),
            ),
        ensures
            gmap.wf(),
            parent.wf(),
            ast_inv(
                graph,
                *source,
                queue_entries(queue),
                gmap.view_map(),
                parent.view_map(),
                visited.view_set(),
                ord,
                step,
            ),
            found ==> parent.view_map().contains_key(*destination),
            !found ==> queue_entries(queue).dom() =~= Set::<(i64, i64)>::empty(),
            !found ==> !visited.view_set().contains(*destination),
            forall|v: Node, i: int|
                relaxed.contains(v) && 0 <= i < graph.spec_children(v).len()
                    ==> visited.view_set().contains((#[trigger] graph.spec_children(v)[i]).0),
            !found ==> forall|v: Node| #[trigger]
                visited.view_set().contains(v) ==> relaxed.contains(v) || queue_entries(
                    queue,
                ).contains_key((v.x, v.y)),
            !found ==> relaxed.contains(*source) || queue_entries(queue).contains_key(
                (source.x, source.y),
            ),
        decreases
            graph.universe().insert(*source).difference(visited.view_set()).len(),
            queue_entries(queue).dom().len(),
    {
        let ghost vis0 = visited.view_set();
        let ghost q0 = queue_entries(queue);
        let ghost diff0 = graph.universe().insert(*source).difference(vis0).len();
        match pq_pop(&mut queue) {
            None => {
                break ;
            },
            Some(((x, y), _pri)) => {
                let n = Node { x, y };
                proof {
                    assert(q0.contains_key((x, y)));
                    assert(nd((x, y)) == n);
                }
                let gn = *gmap.get(&n).unwrap();
                let children = graph.get_children(&n);
                proof {
                    graph.lemma_wf_children(n);
                }
                let m = children.len();
                let ghost mut pushed = false;
                for i in 0..m
                    invariant
                        graph.wf(),
                        graph.universe().finite(),
                        gmap.wf(),
                        parent.wf(),
                        ast_inv(
                            graph,
                            *source,
                            queue_entries(queue),
                            gmap.view_map(),
                            parent.view_map(),
                            visited.view_set(),
                            ord,
                            step,
                        ),
                        m == children@.len(),
                        children@ == graph.spec_children(n),
                        forall|j: int|
                            0 <= j < children@.len() ==> graph.universe().contains(
                                (#[trigger] children@[j]).0,
                            ) && children@[j].1.is_nonneg(),
                        gn.is_nonneg(),
                        parent.view_map().contains_key(n) || n == *source,
                        vis0.subset_of(visited.view_set()),
                        diff0 == graph.universe().insert(*source).difference(vis0).len(),
                        !pushed ==> visited.view_set() == vis0 && queue_entries(queue) == q0.remove(
                            (x, y),
                        ),
                        pushed ==> graph.universe().insert(*source).difference(
                            visited.view_set(),
                        ).len() < diff0,
                        found ==> parent.view_map().contains_key(*destination),
                        !found ==> !visited.view_set().contains(*destination),
                        forall|v: Node, j: int|
                            relaxed.contains(v) && 0 <= j < graph.spec_children(v).len()
                                ==> visited.view_set().contains(
                                (#[trigger] graph.spec_children(v)[j]).0,
                            ),
                        !found ==> forall|v: Node| #[trigger]
                            visited.view_set().contains(v) ==> relaxed.contains(v)
                                || queue_entries(queue).contains_key((v.x, v.y)) || v == n,
                        !found ==> relaxed.contains(*source) || queue_entries(
                            queue,
                        ).contains_key((source.x, source.y)) || *source == n,
                        !found ==> forall|j: int|
                            0 <= j < i ==> visited.view_set().contains(
                                (#[trigger] children@[j]).0,
                            ),
                    decreases m - i,
                {
                    if !found {
                        let (c, w) = children[i];
                        proof {
                            assert(children@[i as int] == (c, w));
                            assert(w.is_nonneg());
                            assert(graph.universe().contains(c));
                            assert(graph.spec_children(n).contains((c, w)));
                        }
                        if !visited.contains(&c) {
                            let ghost visprev = visited.view_set();
                            visited.insert(c);
                            proof {
                                graph.universe().insert(
                                    *source,
                                ).lemma_set_insert_diff_decreases(visprev, c);
                                assert(visited.view_set() == visprev.insert(c));
                                assert(graph.universe().insert(*source).difference(
                                    visited.view_set(),
                                ).len() < graph.universe().insert(*source).difference(
                                    visprev,
                                ).len());
                                if !pushed {
                                    assert(visprev == vis0);
                                }
                            }
                            parent.insert(c, (n, w));
                            proof {
                                ord = ord.insert(c, step);
                                step = step + 1;
                                pushed = true;
                            }
                            if c == *destination {
                                found = true;
                            } else {
                                let gc = w.add(gn);
                                let h = heuristic.estimate(&c, destination, graph);
                                let f = gc.add(h);
                                gmap.insert(c, gc);
                                pq_push(&mut queue, c.x, c.y, weight_priority(f));
                                proof {
                                    assert(nd((c.x, c.y)) == c);
                                }
                            }
                        }
                    }
                }
                proof {
                    if !found {
                        relaxed = relaxed.insert(n);
                    }
                }
                if found {
                    break ;
                }
            },
        }
    }
    if !found {
        proof {
            let s = visited.view_set().insert(*source);
            assert forall|v: Node, i: int|
                s.contains(v) && 0 <= i < graph.spec_children(v).len() implies s.contains(
                (#[trigger] graph.spec_children(v)[i]).0,
            ) by {
                assert(relaxed.contains(v));
                assert(visited.view_set().contains(graph.spec_children(v)[i].0));
            }
            assert(!spec_connected_hop(graph, *source, *destination)) by {
                if spec_connected_hop(graph, *source, *destination) {
                    let p = choose|p: Seq<(Node, GraphWeight)>|
                        path_valid(graph, p, *source, *destination) && p.len() >= 2;
                    // Every node of the walk, in particular the one before
                    // the destination, has had all its edges relaxed; yet
                    // the destination was never marked visited.
                    crate::graph::lemma_chain_in_closed(
                        graph,
                        s,
                        p,
                        *source,
                        *destination,
                        p.len() - 2,
                    );
                    let before = p[p.len() - 2].0;
                    assert(relaxed.contains(before));
                    let cs = graph.spec_children(before);
                    assert(cs.contains((p[p.len() - 1].0, p[p.len() - 1].1)));
                    let i = choose|i: int|
                        0 <= i < cs.len() && cs[i] == (p[p.len() - 1].0, p[p.len() - 1].1);
                    assert(visited.view_set().contains(cs[i].0));
                    assert(cs[i].0 == *destination);
                }
            }
        }
        return Err(PathError::Unreachable);
    }
    // Walk the parent chain back from the destination; the first step is
    // unconditional, so a found path always has at least one hop.
    let mut rev: Vec<(Node, GraphWeight)> = Vec::new();
    let e0 = *parent.get(destination).unwrap();
    rev.push((*destination, e0.1));
    let mut current = e0.0;
    loop
        invariant
            graph.wf(),
            parent.wf(),
            ast_inv(
                graph,
                *source,
                queue_entries(queue),
                gmap.view_map(),
                parent.view_map(),
                visited.view_set(),
                ord,
                step,
            ),
            rev@.len() >= 1,
            rev@[0].0 == *destination,
            forall|i: int|
                0 <= i < rev@.len() - 1 ==> (#[trigger] graph.spec_children(rev@[i + 1].0)).contains(
                    (rev@[i].0, rev@[i].1),
                ),
            graph.spec_children(current).contains(
                (rev@[rev@.len() - 1].0, rev@[rev@.len() - 1].1),
            ),
            parent.view_map().contains_key(current) || current == *source,
        ensures
            current == *source,
            rev@.len() >= 1,
            rev@[0].0 == *destination,
            forall|i: int|
                0 <= i < rev@.len() - 1 ==> (#[trigger] graph.spec_children(rev@[i + 1].0)).contains(
                    (rev@[i].0, rev@[i].1),
                ),
            graph.spec_children(*source).contains(
                (rev@[rev@.len() - 1].0, rev@[rev@.len() - 1].1),
            ),
        decreases
            (if current == *source {
                0int
            } else {
                1int
            }),
            (if ord.contains_key(current) {
                ord[current]
            } else {
                0nat
            }),
    {
        if current == *source {
            break ;
        }
        let e = *parent.get(&current).unwrap();
        proof {
            assert(parent.view_map().contains_key(current));
            assert(e.0 == *source || ord[e.0] < ord[current]);
        }
        rev.push((current, e.1));
        current = e.0;
    }
    let mut path: Vec<(Node, GraphWeight)> = Vec::new();
    path.push((*source, GraphWeight::Finite(0)));
    let n = rev.len();
    let mut i = n;
    while i > 0
        invariant
            n == rev@.len(),
            i <= n,
            path@.len() == 1 + n - i,
            path@[0] == (*source, GraphWeight::Finite(0)),
            forall|j: int| 1 <= j < path@.len() ==> path@[j] == rev@[n - j],
        decreases i,
    {
        i = i - 1;
        path.push(rev[i]);
    }
    proof {
        assert(path@.last() == rev@[0]);
        assert(path@.last().0 == *destination);
        assert forall|j: int|
            0 <= j < path@.len() - 1 implies (#[trigger] graph.spec_children(path@[j].0)).contains(
            (path@[j + 1].0, path@[j + 1].1),
        ) by {
            if j == 0 {
                assert(path@[1] == rev@[n - 1]);
                assert(path@[0].0 == *source);
                assert(graph.spec_children(*source).contains((rev@[n - 1].0, rev@[n - 1].1)));
            } else {
                assert(path@[j] == rev@[n - j]);
                assert(path@[j + 1] == rev@[n - j - 1]);
                let k = n - j - 1;
                assert(graph.spec_children(rev@[k + 1].0).contains((rev@[k].0, rev@[k].1)));
            }
        }
    }
    Ok(Path::new(path))
}

} // verus!
