use crate::graph::Graph;
use crate::search::{
    closed, connected, disjoint, reaches_within, shortest_outcome, explore, in_start_path, is_simple_path, is_tree, is_walk,
    lemma_distinct_len, lemma_edge_symmetric, lemma_path_up, lemma_tree_path, push_ancestors,
    copy_of, lemma_closed_walk, ranked, reversed, shared_paths, start_path, UNSEEN,
};
use std::collections::VecDeque;
use vstd::prelude::*;

verus! {

/// The room left to grow the chains: the sum over all vertices of `bound`
/// minus the length of the vertex's chain.
pub open spec fn slack(chains: Seq<Seq<usize>>, bound: int) -> int
    decreases chains.len(),
{
    if chains.len() == 0 {
        0
    } else {
        slack(chains.drop_last(), bound) + (bound - chains.last().len())
    }
}

proof fn lemma_slack_update(chains: Seq<Seq<usize>>, bound: int, k: int, c: Seq<usize>)
    requires
        0 <= k < chains.len(),
    ensures
        slack(chains.update(k, c), bound) == slack(chains, bound) + chains[k].len() - c.len(),
    decreases chains.len(),
{
    let u = chains.update(k, c);
    if k == chains.len() - 1 {
        assert(u.drop_last() =~= chains.drop_last());
    } else {
        assert(u.drop_last() =~= chains.drop_last().update(k, c));
        lemma_slack_update(chains.drop_last(), bound, k, c);
    }
}

proof fn lemma_slack_nonneg(chains: Seq<Seq<usize>>, bound: int)
    requires
        forall|v: int| 0 <= v < chains.len() ==> #[trigger] chains[v].len() <= bound,
    ensures
        slack(chains, bound) >= 0,
    decreases chains.len(),
{
    if chains.len() > 0 {
        assert forall|v: int| 0 <= v < chains.drop_last().len() implies #[trigger] chains.drop_last()[v].len()
            <= bound by {
            assert(chains.drop_last()[v] == chains[v]);
        }
        lemma_slack_nonneg(chains.drop_last(), bound);
    }
}

/// The chains as sequences.
pub open spec fn chain_views(chains: Seq<Vec<usize>>) -> Seq<Seq<usize>> {
    chains.map_values(|c: Vec<usize>| c@)
}

/// What each chain records: the vertices of a simple walk that leaves `end`
/// and stops just before `v`.
pub open spec fn chain_ok(g: &Graph, end: usize, v: usize, c: Seq<usize>) -> bool {
    c.len() > 0 ==> {
        &&& c[0] == end
        &&& is_walk(g, c.push(v))
        &&& c.push(v).no_duplicates()
    }
}

/// A walk read backwards is a walk, the graph being undirected.
proof fn lemma_reverse_walk(g: &Graph, p: Seq<usize>)
    requires
        g.wf(),
        is_walk(g, p),
    ensures
        is_walk(g, p.reverse()),
{
    let r = p.reverse();
    assert forall|i: int| 0 <= i < r.len() implies #[trigger] r[i] < g.n() by {
        assert(r[i] == p[p.len() - 1 - i]);
    }
    assert forall|i: int| 0 <= i < r.len() - 1 implies g.edge(#[trigger] r[i], r[i + 1]) by {
        let k = p.len() - 2 - i;
        assert(r[i] == p[k + 1]);
        assert(r[i + 1] == p[k]);
        assert(g.edge(p[k], p[k + 1]));
        lemma_edge_symmetric(g, p[k], p[k + 1]);
    }
}

/// Accepting `neighbor` after `current` gives a chain that meets `chain_ok`
/// and stays below the vertex count.
proof fn lemma_extend_chain(
    graph: &Graph,
    end: usize,
    pred: Seq<usize>,
    dist: Seq<usize>,
    cc: Seq<usize>,
    current: usize,
    neighbor: usize,
    ext: Seq<usize>,
)
    requires
        graph.wf(),
        ranked(pred, dist),
        dist.len() == graph.n(),
        end < graph.n(),
        current < graph.n(),
        neighbor < graph.n(),
        dist[neighbor as int] != UNSEEN,
        graph.edge(current, neighbor),
        chain_ok(graph, end, current, cc),
        cc.len() == 0 ==> current == end,
        ext == cc.push(current),
        disjoint(ext, start_path(pred, dist, neighbor)),
    ensures
        chain_ok(graph, end, neighbor, ext),
        ext.len() < graph.n(),
        ext.len() > 0,
{
    lemma_path_up(pred, dist, neighbor);
    let sp = start_path(pred, dist, neighbor);
    assert(sp[0] == neighbor);
    assert(!ext.contains(neighbor)) by {
        if ext.contains(neighbor) {
            let a = choose|a: int| 0 <= a < ext.len() && ext[a] == neighbor;
            assert(ext[a] != sp[0]);
        }
    }
    if cc.len() == 0 {
        assert(ext =~= seq![end]);
    }
    assert(ext[0] == end);
    let e2 = ext.push(neighbor);
    assert(is_walk(graph, e2)) by {
        assert forall|a: int| 0 <= a < e2.len() implies #[trigger] e2[a] < graph.n() by {
            if a < ext.len() - 1 {
                assert(e2[a] == cc.push(current)[a]);
            }
        }
        assert forall|a: int| 0 <= a < e2.len() - 1 implies graph.edge(#[trigger] e2[a], e2[a + 1]) by {
            if a < ext.len() - 1 {
                assert(e2[a] == cc.push(current)[a]);
                assert(e2[a + 1] == cc.push(current)[a + 1]);
            }
        }
    }
    assert(e2.no_duplicates()) by {
        assert forall|a: int, b: int| 0 <= a < b < e2.len() implies e2[a] != e2[b] by {
            if b < ext.len() {
                assert(e2[a] == ext[a]);
                assert(e2[b] == ext[b]);
            } else {
                assert(e2[a] == ext[a]);
            }
        }
    }
    assert forall|a: int| 0 <= a < e2.len() implies (#[trigger] e2[a] as nat) < graph.n() by {}
    lemma_distinct_len(e2, graph.n() as nat);
}

/// A chain accepted for `neighbor`, followed by the predecessors of
/// `neighbor`, read backwards, is a simple path from `start` to `end`.
proof fn lemma_joined_path(
    graph: &Graph,
    start: usize,
    end: usize,
    pred: Seq<usize>,
    dist: Seq<usize>,
    ext: Seq<usize>,
    neighbor: usize,
)
    requires
        graph.wf(),
        is_tree(graph, start, pred, dist),
        neighbor < graph.n(),
        dist[neighbor as int] != UNSEEN,
        ext.len() > 0,
        chain_ok(graph, end, neighbor, ext),
        disjoint(ext, start_path(pred, dist, neighbor)),
    ensures
        is_simple_path(graph, (ext + start_path(pred, dist, neighbor)).reverse(), start, end),
        (ext + start_path(pred, dist, neighbor)).len() == ext.len() + dist[neighbor as int] + 1,
{
    let n = graph.n();
    lemma_tree_path(graph, start, pred, dist, neighbor);
    lemma_path_up(pred, dist, neighbor);
    let sp = start_path(pred, dist, neighbor);
    let w = ext + sp;
    let e2 = ext.push(neighbor);
    assert(is_walk(graph, w)) by {
        assert forall|a: int| 0 <= a < w.len() implies #[trigger] w[a] < n by {
            if a < ext.len() {
                assert(w[a] == e2[a]);
            } else {
                assert(w[a] == sp[a - ext.len()]);
                assert(sp.reverse()[sp.len() - 1 - (a - ext.len())] == sp[a
                    - ext.len()]);
            }
        }
        assert forall|a: int| 0 <= a < w.len() - 1 implies graph.edge(
            #[trigger] w[a],
            w[a + 1],
        ) by {
            if a < ext.len() {
                assert(w[a] == e2[a]);
                if a + 1 < ext.len() {
                    assert(w[a + 1] == e2[a + 1]);
                } else {
                    assert(w[a + 1] == sp[0]);
                    assert(e2[a + 1] == neighbor);
                }
                assert(graph.edge(e2[a], e2[a + 1]));
            } else {
                let b = a - ext.len();
                assert(w[a] == sp[b]);
                assert(w[a + 1] == sp[b + 1]);
                assert(graph.edge(sp[b + 1], sp[b]));
                assert(sp.reverse()[sp.len() - 1 - b] == sp[b]);
                assert(sp.reverse()[sp.len() - 2 - b] == sp[b + 1]);
                lemma_edge_symmetric(graph, sp[b + 1], sp[b]);
            }
        }
    }
    assert(w.no_duplicates()) by {
        assert forall|a: int, b: int| 0 <= a < b < w.len() implies w[a] != w[b] by {
            if b < ext.len() {
                assert(w[a] == ext[a]);
                assert(w[b] == ext[b]);
                assert(e2[a] == ext[a]);
                assert(e2[b] == ext[b]);
            } else if a < ext.len() {
                assert(w[a] == ext[a]);
                assert(w[b] == sp[b - ext.len()]);
                assert(ext[a] != sp[b - ext.len()]);
            } else {
                assert(w[a] == sp[a - ext.len()]);
                assert(w[b] == sp[b - ext.len()]);
                assert(sp.reverse()[sp.len() - 1 - (a - ext.len())] == sp[a
                    - ext.len()]);
                assert(sp.reverse()[sp.len() - 1 - (b - ext.len())] == sp[b
                    - ext.len()]);
            }
        }
    }
    lemma_reverse_walk(graph, w);
    assert(w.reverse().no_duplicates()) by {
        let rw = w.reverse();
        assert forall|a: int, b: int| 0 <= a < b < rw.len() implies rw[a] != rw[b] by {
            assert(rw[a] == w[w.len() - 1 - a]);
            assert(rw[b] == w[w.len() - 1 - b]);
        }
    }
    assert(sp.reverse()[0] == start);
    assert(sp.reverse()[0] == sp[sp.len() - 1]);
    assert(w.reverse()[0] == w[w.len() - 1]);
    assert(w[w.len() - 1] == sp[sp.len() - 1]);
    assert(w.reverse()[w.len() - 1] == w[0]);
    assert(w[0] == ext[0]);
}

/// What an exact-length search may answer: `None`, or a simple path from
/// `start` to `end` with `length` vertices.
pub open spec fn exact_outcome(g: &Graph, start: usize, end: usize, length: usize, r: Option<Vec<usize>>) -> bool {
    r matches Some(p) ==> is_simple_path(g, p@, start, end) && p@.len() == length
}

/// An exact-length search finds nothing where the shortest-path search finds
/// nothing, or finds a path whose edges outnumber `length - 1`.
pub proof fn lemma_exact_needs_short_route(
    g: &Graph,
    start: usize,
    end: usize,
    length: usize,
    shortest: Option<Vec<usize>>,
    found: Option<Vec<usize>>,
)
    requires
        g.wf(),
        length >= 1,
        shortest_outcome(g, start, end, shortest),
        exact_outcome(g, start, end, length, found),
        shortest matches Some(q) ==> q@.len() - 1 > length - 1,
    ensures
        found is None,
{
    if let Some(p) = found {
        assert(is_walk(g, p@));
        assert(connected(g, start, end));
        let q = shortest.unwrap();
        assert(reaches_within(g, start, end, (q@.len() - 1) as nat));
    }
}

/// Where the shortest walk from `start` to `end` has exactly `length`
/// vertices, the search tree puts `end` at distance `length - 1`, and the
/// predecessor of `end` is a neighbour of `end` whose way back to `start`
/// avoids `end`.
proof fn lemma_exact_distance(
    graph: &Graph,
    start: usize,
    end: usize,
    length: usize,
    pred: Seq<usize>,
    dist: Seq<usize>,
)
    requires
        graph.wf(),
        is_tree(graph, start, pred, dist),
        closed(graph, dist),
        forall|w: Seq<usize>|
            #[trigger] is_walk(graph, w) && w[0] == start && dist[w.last() as int] != UNSEEN
                ==> dist[w.last() as int] + 1 <= w.len(),
        end < graph.n(),
        length >= 1,
        !(start == end && length == 1),
        reaches_within(graph, start, end, length as nat),
        !reaches_within(graph, start, end, (length - 1) as nat),
    ensures
        dist[end as int] == length - 1,
        end != start,
        pred[end as int] < graph.n(),
        dist[pred[end as int] as int] != UNSEEN,
        dist[pred[end as int] as int] + 1 == dist[end as int],
        graph.edge(end, pred[end as int]),
        forall|i: int|
            0 <= i < start_path(pred, dist, pred[end as int]).len() ==> #[trigger] start_path(
                pred,
                dist,
                pred[end as int],
            )[i] != end,
{
    let w = choose|w: Seq<usize>| #[trigger] is_walk(graph, w) && w[0] == start && w.last() == end
        && w.len() <= length;
    lemma_closed_walk(graph, dist, w);
    assert(dist[w[w.len() - 1] as int] != UNSEEN);
    lemma_tree_path(graph, start, pred, dist, end);
    lemma_path_up(pred, dist, end);
    let t = start_path(pred, dist, end).reverse();
    assert(is_walk(graph, t));
    assert(t.len() == dist[end as int] + 1);
    if start == end {
        let one = seq![start];
        assert(is_walk(graph, one));
        assert(one.last() == end);
    }
    let p = pred[end as int];
    assert(dist[end as int] != 0);
    lemma_edge_symmetric(graph, p, end);
    lemma_path_up(pred, dist, p);
    assert forall|i: int| 0 <= i < start_path(pred, dist, p).len() implies #[trigger] start_path(
        pred,
        dist,
        p,
    )[i] != end by {
        let x = start_path(pred, dist, p)[i];
        assert(dist[x as int] + i == dist[p as int]);
    }
}

/// Searches for a simple path from `start` to `end` with exactly `length`
/// vertices.
///
/// A breadth-first search from `start` first gives each vertex its distance
/// and predecessor. A second search then grows, from `end`, one chain per
/// vertex, the longest accepted so far, and stops when a chain and the
/// predecessors of its last vertex together make up the length asked for.
/// Each vertex keeps a single chain, so a path may exist that this search
/// does not find.
#[verifier::rlimit(60)]
pub fn fixed_length_search(graph: &Graph, start: usize, end: usize, length: usize) -> (r: Option<
    Vec<usize>,
>)
    requires
        graph.wf(),
        start < graph.n(),
        end < graph.n(),
        length >= 1,
    ensures
        !connected(graph, start, end) ==> r is None,
        !reaches_within(graph, start, end, length as nat) ==> r is None,
        exact_outcome(graph, start, end, length, r),
        start == end && length == 1 ==> (r matches Some(p) && p@ == seq![start]),
        reaches_within(graph, start, end, length as nat) && !reaches_within(
            graph,
            start,
            end,
            (length - 1) as nat,
        ) ==> r is Some,
{
    if start == end && length == 1 {
        let mut single: Vec<usize> = Vec::new();
        single.push(start);
        proof {
            assert(single@.no_duplicates());
            assert(is_walk(graph, single@));
        }
        return Some(single);
    }
    let distance = length - 1;
    let n = graph.size();
    let (predecessor_from_start, distance_to_start) = explore(graph, start, UNSEEN);
    let ghost pred = predecessor_from_start@;
    let ghost dist = distance_to_start@;
    // The shortest walk has exactly `length` vertices: a path is owed.
    let ghost must = reaches_within(graph, start, end, length as nat) && !reaches_within(
        graph,
        start,
        end,
        (length - 1) as nat,
    );
    let ghost p = pred[end as int];
    proof {
        if must {
            lemma_exact_distance(graph, start, end, length, pred, dist);
        }
    }
    if distance_to_start[end] > distance {
        return None;
    }
    let mut predecessor_from_end: Vec<Vec<usize>> = Vec::new();
    let mut i: usize = 0;
    while i < n
        invariant
            i <= n,
            predecessor_from_end@.len() == i,
            forall|v: int| 0 <= v < i ==> (#[trigger] predecessor_from_end@[v])@.len() == 0,
        decreases n - i,
    {
        predecessor_from_end.push(Vec::new());
        i = i + 1;
    }
    let mut queue: VecDeque<usize> = VecDeque::new();
    queue.push_front(end);
    proof {
        lemma_slack_nonneg(chain_views(predecessor_from_end@), n as int);
    }
    loop
        invariant
            graph.wf(),
            n == graph.n(),
            start < n,
            end < n,
            distance == length - 1,
            is_tree(graph, start, pred, dist),
            closed(graph, dist),
            pred == predecessor_from_start@,
            dist == distance_to_start@,
            predecessor_from_end@.len() == n,
            forall|k: int|
                0 <= k < queue@.len() ==> #[trigger] queue@[k] < n && dist[queue@[k] as int]
                    != UNSEEN && (queue@[k] == end || predecessor_from_end@[queue@[k] as int]@.len()
                    > 0),
            forall|v: int|
                0 <= v < n ==> chain_ok(graph, end, v as usize, #[trigger] predecessor_from_end@[v]@),
            forall|v: int| 0 <= v < n ==> (#[trigger] predecessor_from_end@[v])@.len() < n,
            must ==> queue@ == seq![end],
            must ==> forall|v: int| 0 <= v < n ==> (#[trigger] predecessor_from_end@[v])@.len() == 0,
            must ==> {
                &&& dist[end as int] == distance
                &&& end != start
                &&& p < n
                &&& dist[p as int] != UNSEEN
                &&& dist[p as int] + 1 == dist[end as int]
                &&& graph.edge(end, p)
                &&& forall|i: int|
                    0 <= i < start_path(pred, dist, p).len() ==> #[trigger] start_path(pred, dist, p)[i]
                        != end
            },
        ensures
            !must,
        decreases slack(chain_views(predecessor_from_end@), n as int), queue@.len(),
    {
        let ghost slack0 = slack(chain_views(predecessor_from_end@), n as int);
        let ghost qlen0 = queue@.len();
        let current = match queue.pop_front() {
            Some(c) => c,
            None => {
                break ;
            },
        };
        let neighbors = graph.get_neighbors(current);
        let mut j: usize = 0;
        let ghost mut accepted = false;
        proof {
            if must {
                assert(current == end);
            }
        }
        while j < neighbors.len()
            invariant
                graph.wf(),
                n == graph.n(),
                start < n,
                end < n,
                distance == length - 1,
                is_tree(graph, start, pred, dist),
                closed(graph, dist),
                pred == predecessor_from_start@,
                dist == distance_to_start@,
                predecessor_from_end@.len() == n,
                current < n,
                dist[current as int] != UNSEEN,
                current == end || predecessor_from_end@[current as int]@.len() > 0,
                neighbors@ == graph.adj()[current as int],
                j <= neighbors@.len(),
                forall|k: int|
                    0 <= k < queue@.len() ==> #[trigger] queue@[k] < n && dist[queue@[k] as int]
                        != UNSEEN && (queue@[k] == end || predecessor_from_end@[queue@[k] as int]@.len()
                        > 0),
                forall|v: int|
                    0 <= v < n ==> chain_ok(graph, end, v as usize, #[trigger] predecessor_from_end@[v]@),
                forall|v: int| 0 <= v < n ==> (#[trigger] predecessor_from_end@[v])@.len() < n,
                must ==> current == end,
                must ==> (predecessor_from_end@[p as int])@.len() == 0,
                must ==> forall|jj: int| 0 <= jj < j ==> #[trigger] neighbors@[jj] != p,
                must ==> {
                    &&& dist[end as int] == distance
                    &&& end != start
                    &&& p < n
                    &&& dist[p as int] != UNSEEN
                    &&& dist[p as int] + 1 == dist[end as int]
                    &&& graph.edge(end, p)
                    &&& forall|i: int|
                        0 <= i < start_path(pred, dist, p).len() ==> #[trigger] start_path(pred, dist, p)[i]
                            != end
                },
                accepted ==> slack(chain_views(predecessor_from_end@), n as int) < slack0,
                !accepted ==> slack(chain_views(predecessor_from_end@), n as int) == slack0
                    && queue@.len() < qlen0,
            decreases neighbors@.len() - j,
        {
            let neighbor = neighbors[j];
            assert(graph.adj()[current as int][j as int] == neighbor);
            assert(graph.edge(current, neighbor));
            proof {
                if must && neighbor == p {
                    let ce = predecessor_from_end@[end as int]@;
                    assert(chain_ok(graph, end, end, ce));
                    if ce.len() > 0 {
                        assert(ce.push(end)[0] == ce.push(end)[ce.len() as int]);
                    }
                    lemma_path_up(pred, dist, p);
                    let sp = start_path(pred, dist, p);
                    assert(!sp.drop_first().contains(end)) by {
                        if sp.drop_first().contains(end) {
                            let k = choose|k: int| 0 <= k < sp.drop_first().len() && sp.drop_first()[k] == end;
                            assert(sp[k + 1] == end);
                        }
                    }
                    assert(disjoint(seq![end], sp)) by {
                        assert forall|a: int, b: int| 0 <= a < 1 && 0 <= b < sp.len() implies seq![end][a] != sp[b] by {
                            assert(sp[b] != end);
                        }
                    }
                }
            }
            let current_len = predecessor_from_end[current].len();
            let neighbor_len = predecessor_from_end[neighbor].len();
            // Take `neighbor` if it has no chain yet, or if the chain through
            // `current` is longer than its own and still leaves room:
            // `current_len + distance_to_start[neighbor] < distance`, written
            // so that nothing overflows.
            if neighbor_len == 0 || (current_len >= neighbor_len && distance_to_start[neighbor] < distance
                && current_len < distance - distance_to_start[neighbor]) {
                // `current` must not lie above `neighbor` on its way back to
                // `start`, and no vertex of the chain through `current`,
                // `current` included, may lie on that way.
                if !in_start_path(predecessor_from_start.as_slice(), neighbor, current, Ghost(dist)) {
                    let mut extended = copy_of(&predecessor_from_end[current]);
                    extended.push(current);
                    proof {
                        if must && neighbor == p {
                            assert(extended@ =~= seq![end]);
                        }
                    }
                    if !shared_paths(extended.as_slice(), predecessor_from_start.as_slice(), neighbor, Ghost(dist)) {
                        let ghost cs0 = chain_views(predecessor_from_end@);
                        let ghost ext = extended@;
                        proof {
                            lemma_extend_chain(graph, end, pred, dist, predecessor_from_end@[current as int]@, current, neighbor, ext);
                            lemma_slack_update(cs0, n as int, neighbor as int, ext);
                        }
                        predecessor_from_end.set(neighbor, extended);
                        proof {
                            assert(chain_views(predecessor_from_end@) =~= cs0.update(
                                neighbor as int,
                                ext,
                            ));
                            accepted = true;
                        }
                        if distance_to_start[neighbor] <= distance && predecessor_from_end[neighbor].len()
                            == distance - distance_to_start[neighbor] {
                            let mut path = copy_of(&predecessor_from_end[neighbor]);
                            push_ancestors(&mut path, &predecessor_from_start, neighbor, Ghost(dist));
                            proof {
                                lemma_joined_path(graph, start, end, pred, dist, ext, neighbor);
                                assert(path@ == ext + start_path(pred, dist, neighbor));
                            }
                            return Some(reversed(&path));
                        }
                        // At the front: long chains are reached sooner.
                        queue.push_front(neighbor);
                    }
                }
            }
            j = j + 1;
        }
        proof {
            if must {
                assert(graph.adj()[end as int].contains(p));
                let jj = choose|jj: int| 0 <= jj < graph.adj()[end as int].len() && graph.adj()[end as int][jj] == p;
                assert(neighbors@[jj] == p);
            }
            let cs = chain_views(predecessor_from_end@);
            assert forall|v: int| 0 <= v < cs.len() implies #[trigger] cs[v].len() <= n by {
                assert(cs[v] == predecessor_from_end@[v]@);
            }
            lemma_slack_nonneg(cs, n as int);
        }
    }
    None
}

} // verus!
