use crate::graph::{occurrences, Graph};
use vstd::prelude::*;

verus! {

broadcast use vstd::seq_lib::group_to_multiset_ensures;

/// Marks a vertex that a search has not reached, and the root's predecessor.
pub const UNSEEN: usize = usize::MAX;

/// `p` is a walk in `g`: its entries are vertices and each entry is a
/// neighbour of the one before it.
pub open spec fn is_walk(g: &Graph, p: Seq<usize>) -> bool {
    &&& p.len() >= 1
    &&& forall|i: int| 0 <= i < p.len() ==> #[trigger] p[i] < g.n()
    &&& forall|i: int| 0 <= i < p.len() - 1 ==> g.edge(#[trigger] p[i], p[i + 1])
}

/// `p` is a simple path in `g` from `start` to `end`.
pub open spec fn is_simple_path(g: &Graph, p: Seq<usize>, start: usize, end: usize) -> bool {
    &&& is_walk(g, p)
    &&& p.no_duplicates()
    &&& p[0] == start
    &&& p.last() == end
}

/// Some walk in `g` leads from `a` to `b`.
pub open spec fn connected(g: &Graph, a: usize, b: usize) -> bool {
    exists|p: Seq<usize>| #[trigger] is_walk(g, p) && p[0] == a && p.last() == b
}

/// `v` followed by `k` steps along `pred`.
pub open spec fn path_up(pred: Seq<usize>, v: usize, k: nat) -> Seq<usize>
    decreases k,
{
    if k == 0 {
        seq![v]
    } else {
        seq![v] + path_up(pred, pred[v as int], (k - 1) as nat)
    }
}

/// The vertices from `v` back to the root of the tree that `pred` and `dist`
/// describe, `v` first.
pub open spec fn start_path(pred: Seq<usize>, dist: Seq<usize>, v: usize) -> Seq<usize> {
    path_up(pred, v, dist[v as int] as nat)
}

/// Some walk in `g` of at most `k` vertices leads from `a` to `b`.
pub open spec fn reaches_within(g: &Graph, a: usize, b: usize, k: nat) -> bool {
    exists|p: Seq<usize>| #[trigger] is_walk(g, p) && p[0] == a && p.last() == b && p.len() <= k
}

/// `pred` and `dist` are a tree of predecessors ranked by distance: a reached
/// vertex at distance 0 has no predecessor, any other has a reached one that
/// is one step closer.
pub open spec fn ranked(pred: Seq<usize>, dist: Seq<usize>) -> bool {
    &&& pred.len() == dist.len()
    &&& forall|v: int|
        0 <= v < dist.len() && #[trigger] dist[v] != UNSEEN ==> {
            &&& (pred[v] == UNSEEN <==> dist[v] == 0)
            &&& pred[v] != UNSEEN ==> pred[v] < dist.len() && dist[pred[v] as int] != UNSEEN
                && dist[v] == dist[pred[v] as int] + 1
        }
}

/// `pred` and `dist` are a search tree of `g` rooted at `start`: ranked, with
/// `start` the only vertex at distance 0 and each predecessor a neighbour.
pub open spec fn is_tree(g: &Graph, start: usize, pred: Seq<usize>, dist: Seq<usize>) -> bool {
    &&& ranked(pred, dist)
    &&& dist.len() == g.n()
    &&& start < g.n()
    &&& dist[start as int] == 0
    &&& forall|v: int|
        0 <= v < dist.len() && #[trigger] dist[v] != UNSEEN ==> (dist[v] == 0 ==> v == start) && (
        dist[v] != 0 ==> g.edge(pred[v], v as usize))
}

/// Every neighbour of a reached vertex is reached.
pub open spec fn closed(g: &Graph, dist: Seq<usize>) -> bool {
    forall|v: int, j: int|
        0 <= v < g.n() && dist[v] != UNSEEN && 0 <= j < g.adj()[v].len() ==> dist[
            #[trigger] g.adj()[v][j] as int] != UNSEEN
}

/// No entry of `a` is an entry of `b`.
pub open spec fn disjoint(a: Seq<usize>, b: Seq<usize>) -> bool {
    forall|i: int, j: int| 0 <= i < a.len() && 0 <= j < b.len() ==> a[i] != b[j]
}

/// The path up a ranked tree: its length, its ends, and distances that fall
/// by one at each step.
pub proof fn lemma_path_up(pred: Seq<usize>, dist: Seq<usize>, v: usize)
    requires
        ranked(pred, dist),
        v < dist.len(),
        dist[v as int] != UNSEEN,
    ensures
        start_path(pred, dist, v).len() == dist[v as int] + 1,
        start_path(pred, dist, v)[0] == v,
        forall|i: int|
            0 <= i < start_path(pred, dist, v).len() ==> {
                let w = #[trigger] start_path(pred, dist, v)[i];
                &&& w < dist.len()
                &&& dist[w as int] != UNSEEN
                &&& dist[w as int] + i == dist[v as int]
            },
        forall|i: int|
            0 <= i < start_path(pred, dist, v).len() - 1 ==> pred[#[trigger] start_path(
                pred,
                dist,
                v,
            )[i] as int] == start_path(pred, dist, v)[i + 1],
        start_path(pred, dist, v).no_duplicates(),
        pred[start_path(pred, dist, v).last() as int] == UNSEEN,
    decreases dist[v as int],
{
    let p = start_path(pred, dist, v);
    if dist[v as int] == 0 {
        assert(p =~= seq![v]);
    } else {
        let u = pred[v as int];
        lemma_path_up(pred, dist, u);
        let q = start_path(pred, dist, u);
        assert(p =~= seq![v] + q);
        assert forall|i: int| 0 <= i < p.len() implies {
            let w = #[trigger] p[i];
            &&& w < dist.len()
            &&& dist[w as int] != UNSEEN
            &&& dist[w as int] + i == dist[v as int]
        } by {
            if i > 0 {
                assert(p[i] == q[i - 1]);
            }
        }
        assert forall|i: int| 0 <= i < p.len() - 1 implies pred[#[trigger] p[i] as int] == p[i + 1] by {
            if i > 0 {
                assert(p[i] == q[i - 1]);
            }
        }
        assert forall|i: int, j: int| 0 <= i < j < p.len() implies p[i] != p[j] by {
            assert(dist[p[i] as int] + i == dist[v as int]);
            assert(dist[p[j] as int] + j == dist[v as int]);
        }
    }
}

/// In a search tree the path up from a reached vertex, read backwards, is a
/// simple path from the root.
pub proof fn lemma_tree_path(g: &Graph, start: usize, pred: Seq<usize>, dist: Seq<usize>, v: usize)
    requires
        g.wf(),
        is_tree(g, start, pred, dist),
        v < g.n(),
        dist[v as int] != UNSEEN,
    ensures
        is_simple_path(g, start_path(pred, dist, v).reverse(), start, v),
        forall|i: int|
            0 <= i < start_path(pred, dist, v).len() - 1 ==> g.edge(
                #[trigger] start_path(pred, dist, v)[i + 1],
                start_path(pred, dist, v)[i],
            ),
{
    lemma_path_up(pred, dist, v);
    let p = start_path(pred, dist, v);
    let r = p.reverse();
    assert forall|i: int| 0 <= i < p.len() - 1 implies g.edge(#[trigger] p[i + 1], p[i]) by {
        assert(pred[p[i] as int] == p[i + 1]);
        let w = p[i];
        assert(dist[w as int] != UNSEEN);
        assert(dist[w as int] != 0);
    }
    let last = p.last();
    assert(dist[last as int] + (p.len() - 1) == dist[v as int]);
    assert(dist[last as int] == 0);
    assert(last == start);
    assert forall|i: int| 0 <= i < r.len() - 1 implies g.edge(#[trigger] r[i], r[i + 1]) by {
        let k = p.len() - 2 - i;
        assert(r[i] == p[k + 1]);
        assert(r[i + 1] == p[k]);
    }
    assert forall|i: int| 0 <= i < r.len() implies #[trigger] r[i] < g.n() by {
        assert(r[i] == p[p.len() - 1 - i]);
    }
    assert forall|i: int, j: int| 0 <= i < j < r.len() implies r[i] != r[j] by {
        assert(r[i] == p[p.len() - 1 - i]);
        assert(r[j] == p[p.len() - 1 - j]);
    }
}

/// The graph's lists are symmetric, so each edge can be read both ways.
pub proof fn lemma_edge_symmetric(g: &Graph, a: usize, b: usize)
    requires
        g.wf(),
        a < g.n(),
        b < g.n(),
        g.edge(a, b),
    ensures
        g.edge(b, a),
{
    assert(occurrences(g.adj()[a as int], b) == occurrences(g.adj()[b as int], a));
}

/// Distinct vertices below `n` number at most `n`.
pub proof fn lemma_distinct_len(s: Seq<usize>, n: nat)
    requires
        s.no_duplicates(),
        forall|i: int| 0 <= i < s.len() ==> (#[trigger] s[i] as nat) < n,
    ensures
        s.len() <= n,
    decreases n,
{
    if n == 0 {
        if s.len() > 0 {
            assert((s[0] as nat) < 0);
        }
    } else {
        let top = (n - 1) as usize;
        if s.contains(top) {
            let k = choose|k: int| 0 <= k < s.len() && s[k] == top;
            let t = s.remove(k);
            assert forall|i: int| 0 <= i < t.len() implies (#[trigger] t[i] as nat) < (n - 1) as nat by {
                if i < k {
                    assert(t[i] == s[i]);
                } else {
                    assert(t[i] == s[i + 1]);
                }
            }
            assert forall|i: int, j: int| 0 <= i < j < t.len() implies t[i] != t[j] by {
                let si = if i < k { i } else { i + 1 };
                let sj = if j < k { j } else { j + 1 };
                assert(t[i] == s[si]);
                assert(t[j] == s[sj]);
            }
            lemma_distinct_len(t, (n - 1) as nat);
        } else {
            assert forall|i: int| 0 <= i < s.len() implies (#[trigger] s[i] as nat) < (n - 1) as nat by {
                assert(s[i] != top);
            }
            lemma_distinct_len(s, (n - 1) as nat);
        }
    }
}

/// A walk that starts at a reached vertex of a closed search stays among
/// reached vertices.
pub proof fn lemma_closed_walk(g: &Graph, dist: Seq<usize>, p: Seq<usize>)
    requires
        g.wf(),
        dist.len() == g.n(),
        closed(g, dist),
        is_walk(g, p),
        dist[p[0] as int] != UNSEEN,
    ensures
        forall|i: int| 0 <= i < p.len() ==> dist[#[trigger] p[i] as int] != UNSEEN,
{
    assert forall|i: int| 0 <= i < p.len() implies dist[#[trigger] p[i] as int] != UNSEEN by {
        lemma_closed_walk_at(g, dist, p, i);
    }
}

proof fn lemma_closed_walk_at(g: &Graph, dist: Seq<usize>, p: Seq<usize>, i: int)
    requires
        g.wf(),
        dist.len() == g.n(),
        closed(g, dist),
        is_walk(g, p),
        dist[p[0] as int] != UNSEEN,
        0 <= i < p.len(),
    ensures
        dist[p[i] as int] != UNSEEN,
    decreases i,
{
    if i > 0 {
        lemma_closed_walk_at(g, dist, p, i - 1);
        let a = p[i - 1];
        assert(g.edge(a, p[i]));
        let j = choose|j: int| 0 <= j < g.adj()[a as int].len() && g.adj()[a as int][j] == p[i];
        assert(dist[g.adj()[a as int][j] as int] != UNSEEN);
    }
}

/// A vector of `n` copies of `x`.
fn filled(n: usize, x: usize) -> (r: Vec<usize>)
    ensures
        r@ == Seq::new(n as nat, |i: int| x),
{
    let mut r: Vec<usize> = Vec::new();
    let mut i: usize = 0;
    while i < n
        invariant
            i <= n,
            r@ == Seq::new(i as nat, |k: int| x),
        decreases n - i,
    {
        r.push(x);
        i = i + 1;
        assert(r@ =~= Seq::new(i as nat, |k: int| x));
    }
    r
}

/// The state of a breadth-first search: a search tree, a queue of distinct
/// reached vertices that holds every reached vertex, and the first `head`
/// entries of the queue done, with all their neighbours reached.
#[verifier::opaque]
pub open spec fn frontier_ok(
    g: &Graph,
    start: usize,
    pred: Seq<usize>,
    dist: Seq<usize>,
    queue: Seq<usize>,
    head: int,
) -> bool {
    &&& pred.len() == g.n()
    &&& is_tree(g, start, pred, dist)
    &&& 0 <= head <= queue.len() <= g.n()
    &&& queue.no_duplicates()
    &&& forall|k: int|
        0 <= k < queue.len() ==> #[trigger] queue[k] < g.n() && dist[queue[k] as int] != UNSEEN
    &&& forall|v: int|
        0 <= v < g.n() && #[trigger] dist[v] != UNSEEN ==> queue.contains(v as usize) && dist[v]
            < queue.len()
    &&& forall|k: int, j: int|
        0 <= k < head && 0 <= j < g.adj()[queue[k] as int].len() ==> dist[
            #[trigger] g.adj()[queue[k] as int][j] as int] != UNSEEN && dist[g.adj()[queue[k] as int][j] as int]
            <= dist[queue[k] as int] + 1
    &&& forall|a: int, b: int|
        0 <= a <= b < queue.len() ==> dist[#[trigger] queue[a] as int] <= dist[#[trigger] queue[b] as int]
    &&& head < queue.len() ==> forall|v: int|
        0 <= v < g.n() && #[trigger] dist[v] != UNSEEN ==> dist[v] <= dist[queue[head] as int] + 1
}

proof fn lemma_frontier_start(g: &Graph, start: usize, pred: Seq<usize>, dist: Seq<usize>)
    requires
        g.wf(),
        start < g.n(),
        pred == Seq::new(g.n() as nat, |i: int| UNSEEN),
        dist == Seq::new(g.n() as nat, |i: int| UNSEEN).update(start as int, 0),
    ensures
        frontier_ok(g, start, pred, dist, seq![start], 0),
{
    reveal(frontier_ok);
    assert(seq![start][0] == start);
    assert forall|a: int, b: int| 0 <= a <= b < 1 implies dist[#[trigger] seq![start][a] as int] <= dist[
        #[trigger] seq![start][b] as int] by {}
    assert forall|v: int| 0 <= v < g.n() && #[trigger] dist[v] != UNSEEN implies seq![start].contains(
        v as usize,
    ) && dist[v] < 1 by {
        assert(v == start);
        assert(seq![start][0] == start);
    }
}

#[verifier::rlimit(100)]
/// Reaching the unreached neighbour `v` of the vertex at `head` keeps the
/// search state, with room left in the queue.
proof fn lemma_frontier_discover(
    g: &Graph,
    start: usize,
    pred: Seq<usize>,
    dist: Seq<usize>,
    queue: Seq<usize>,
    head: int,
    j: int,
)
    requires
        g.wf(),
        frontier_ok(g, start, pred, dist, queue, head),
        head < queue.len(),
        0 <= j < g.adj()[queue[head] as int].len(),
        dist[g.adj()[queue[head] as int][j] as int] == UNSEEN,
    ensures
        ({
            let current = queue[head];
            let v = g.adj()[current as int][j];
            &&& queue.len() < g.n()
            &&& dist[current as int] < queue.len()
            &&& v < g.n()
            &&& frontier_ok(
                g,
                start,
                pred.update(v as int, current),
                dist.update(v as int, (dist[current as int] + 1) as usize),
                queue.push(v),
                head,
            )
        }),
{
    reveal(frontier_ok);
    let current = queue[head];
    let v = g.adj()[current as int][j];
    assert(current < g.n());
    assert(v < g.n());
    let queue_next = queue.push(v);
    assert(!queue.contains(v));
    assert forall|a: int, b: int| 0 <= a < b < queue_next.len() implies queue_next[a] != queue_next[b] by {
        if b == queue_next.len() - 1 {
            assert(queue_next[a] == queue[a]);
        }
    }
    assert forall|k: int| 0 <= k < queue_next.len() implies (#[trigger] queue_next[k] as nat) < g.n() by {
        if k < queue.len() {
            assert(queue_next[k] == queue[k]);
        }
    }
    lemma_distinct_len(queue_next, g.n() as nat);
    assert(dist[current as int] != UNSEEN);
    let pred_next = pred.update(v as int, current);
    let dist_next = dist.update(v as int, (dist[current as int] + 1) as usize);
    assert(g.edge(current, v));
    assert forall|w: int| 0 <= w < g.n() && #[trigger] dist_next[w] != UNSEEN implies queue_next.contains(w as usize)
        && dist_next[w] < queue_next.len() by {
        if w == v {
            assert(queue_next[queue_next.len() - 1] == v);
        } else {
            assert(dist[w] != UNSEEN);
            let k = choose|k: int| 0 <= k < queue.len() && queue[k] == w as usize;
            assert(queue_next[k] == w as usize);
        }
    }
    assert forall|k: int| 0 <= k < queue_next.len() implies #[trigger] queue_next[k] < g.n() && dist_next[queue_next[k] as int]
        != UNSEEN by {
        if k < queue.len() {
            assert(queue_next[k] == queue[k]);
        }
    }
    assert forall|k: int, jj: int| 0 <= k < head && 0 <= jj < g.adj()[queue_next[k] as int].len() implies dist_next[
        #[trigger] g.adj()[queue_next[k] as int][jj] as int] != UNSEEN && dist_next[g.adj()[queue_next[k] as int][jj] as int]
        <= dist_next[queue_next[k] as int] + 1 by {
        assert(queue_next[k] == queue[k]);
        assert(dist[g.adj()[queue[k] as int][jj] as int] != UNSEEN);
        assert(dist[queue[k] as int] != UNSEEN);
    }
    assert forall|a: int, b: int| 0 <= a <= b < queue_next.len() implies dist_next[#[trigger] queue_next[a] as int] <= dist_next[
        #[trigger] queue_next[b] as int] by {
        if b < queue.len() {
            assert(queue_next[a] == queue[a]);
            assert(queue_next[b] == queue[b]);
            assert(dist[queue[a] as int] <= dist[queue[b] as int]);
        } else if a < queue.len() {
            assert(queue_next[a] == queue[a]);
            assert(dist[queue[a] as int] != UNSEEN);
            assert(dist[queue[a] as int] <= dist[queue[head] as int] + 1);
        }
    }
    assert forall|w: int| 0 <= w < g.n() && #[trigger] dist_next[w] != UNSEEN implies dist_next[w] <= dist_next[queue_next[head] as int]
        + 1 by {
        assert(queue_next[head] == queue[head]);
        if w != v {
            assert(dist[w] != UNSEEN);
        }
    }
    assert(ranked(pred_next, dist_next)) by {
        assert forall|w: int| 0 <= w < dist_next.len() && #[trigger] dist_next[w] != UNSEEN implies {
            &&& (pred_next[w] == UNSEEN <==> dist_next[w] == 0)
            &&& pred_next[w] != UNSEEN ==> pred_next[w] < dist_next.len() && dist_next[pred_next[w] as int] != UNSEEN && dist_next[w] == dist_next[pred_next[
                w] as int] + 1
        } by {
            if w != v {
                assert(dist[w] != UNSEEN);
                if pred[w] != UNSEEN {
                    assert(dist[pred[w] as int] != UNSEEN);
                }
            }
        }
    }
    assert forall|w: int| 0 <= w < dist_next.len() && #[trigger] dist_next[w] != UNSEEN implies (dist_next[w] == 0 ==> w
        == start) && (dist_next[w] != 0 ==> g.edge(pred_next[w], w as usize)) by {
        if w != v {
            assert(dist[w] != UNSEEN);
        }
    }
}

/// Once every neighbour of the vertex at `head` is reached, it is done.
proof fn lemma_frontier_advance(
    g: &Graph,
    start: usize,
    pred: Seq<usize>,
    dist: Seq<usize>,
    queue: Seq<usize>,
    head: int,
)
    requires
        g.wf(),
        frontier_ok(g, start, pred, dist, queue, head),
        head < queue.len(),
        forall|j: int|
            0 <= j < g.adj()[queue[head] as int].len() ==> dist[#[trigger] g.adj()[queue[head] as int][j] as int]
                != UNSEEN,
    ensures
        frontier_ok(g, start, pred, dist, queue, head + 1),
{
    reveal(frontier_ok);
    let d = dist[queue[head] as int];
    assert(d != UNSEEN);
    assert forall|k: int, j: int|
        0 <= k < head + 1 && 0 <= j < g.adj()[queue[k] as int].len() implies dist[
        #[trigger] g.adj()[queue[k] as int][j] as int] != UNSEEN && dist[g.adj()[queue[k] as int][j] as int]
        <= dist[queue[k] as int] + 1 by {
        if k == head {
            let x = g.adj()[queue[k] as int][j];
            assert(dist[x as int] != UNSEEN);
            assert(queue[k] < g.n());
            assert(x < g.n());
            assert(dist[x as int] <= d + 1);
        }
    }
    if head + 1 < queue.len() {
        assert(d <= dist[queue[head + 1] as int]);
        assert forall|v: int| 0 <= v < g.n() && #[trigger] dist[v] != UNSEEN implies dist[v] <= dist[queue[head
            + 1] as int] + 1 by {
            assert(dist[v] <= d + 1);
        }
    }
}

/// A search whose queue is used up is closed.
proof fn lemma_frontier_closed(
    g: &Graph,
    start: usize,
    pred: Seq<usize>,
    dist: Seq<usize>,
    queue: Seq<usize>,
)
    requires
        frontier_ok(g, start, pred, dist, queue, queue.len() as int),
        g.wf(),
    ensures
        closed(g, dist),
        is_tree(g, start, pred, dist),
        forall|v: int| 0 <= v < g.n() && #[trigger] dist[v] != UNSEEN ==> dist[v] < g.n(),
{
    reveal(frontier_ok);
    assert forall|v: int, j: int| 0 <= v < g.n() && dist[v] != UNSEEN && 0 <= j < g.adj()[v].len() implies dist[
        #[trigger] g.adj()[v][j] as int] != UNSEEN by {
        assert(queue.contains(v as usize));
        let k = choose|k: int| 0 <= k < queue.len() && queue[k] == v as usize;
        assert(g.adj()[queue[k] as int][j] == g.adj()[v][j]);
    }
}

/// What any search state gives: a tree with distances below the vertex count.
proof fn lemma_frontier_tree(
    g: &Graph,
    start: usize,
    pred: Seq<usize>,
    dist: Seq<usize>,
    queue: Seq<usize>,
    head: int,
)
    requires
        frontier_ok(g, start, pred, dist, queue, head),
    ensures
        is_tree(g, start, pred, dist),
        pred.len() == g.n(),
        0 <= head <= queue.len() <= g.n(),
        forall|v: int| 0 <= v < g.n() && #[trigger] dist[v] != UNSEEN ==> dist[v] < g.n(),
        forall|k: int|
            0 <= k < queue.len() ==> #[trigger] queue[k] < g.n() && dist[queue[k] as int] != UNSEEN,
{
    reveal(frontier_ok);
}

/// `x` was taken from the queue and all its neighbours looked at.
pub open spec fn processed(queue: Seq<usize>, head: int, x: usize) -> bool {
    exists|m: int| 0 <= m < head && #[trigger] queue[m] == x
}

/// Along a walk from the root whose first `i` vertices are done, the vertex
/// at `i` is reached and at most `i` steps away.
proof fn lemma_walk_prefix(
    g: &Graph,
    start: usize,
    pred: Seq<usize>,
    dist: Seq<usize>,
    queue: Seq<usize>,
    head: int,
    w: Seq<usize>,
    i: int,
)
    requires
        g.wf(),
        frontier_ok(g, start, pred, dist, queue, head),
        is_walk(g, w),
        w[0] == start,
        0 <= i < w.len(),
        forall|m: int| 0 <= m < i ==> processed(queue, head, #[trigger] w[m]),
    ensures
        dist[w[i] as int] != UNSEEN,
        dist[w[i] as int] <= i,
    decreases i,
{
    reveal(frontier_ok);
    if i > 0 {
        lemma_walk_prefix(g, start, pred, dist, queue, head, w, i - 1);
        let a = w[i - 1];
        assert(processed(queue, head, a));
        let m = choose|m: int| 0 <= m < head && #[trigger] queue[m] == a;
        assert(g.edge(a, w[i]));
        let j = choose|j: int| 0 <= j < g.adj()[a as int].len() && g.adj()[a as int][j] == w[i];
        assert(g.adj()[queue[m] as int][j] == w[i]);
    }
}

proof fn lemma_walk_scan(
    g: &Graph,
    start: usize,
    pred: Seq<usize>,
    dist: Seq<usize>,
    queue: Seq<usize>,
    head: int,
    w: Seq<usize>,
    i: int,
)
    requires
        g.wf(),
        frontier_ok(g, start, pred, dist, queue, head),
        head <= queue.len(),
        is_walk(g, w),
        w[0] == start,
        dist[w.last() as int] != UNSEEN,
        0 <= i < w.len(),
        forall|m: int| 0 <= m < i ==> processed(queue, head, #[trigger] w[m]),
    ensures
        dist[w.last() as int] + 1 <= w.len(),
    decreases w.len() - i,
{
    lemma_walk_prefix(g, start, pred, dist, queue, head, w, i);
    if i < w.len() - 1 {
        if processed(queue, head, w[i]) {
            lemma_walk_scan(g, start, pred, dist, queue, head, w, i + 1);
        } else {
            reveal(frontier_ok);
            let x = w[i];
            assert(w[i] < g.n());
            assert(queue.contains(x));
            let m = choose|m: int| 0 <= m < queue.len() && queue[m] == x;
            if m < head {
                assert(processed(queue, head, x));
            }
            assert(head < queue.len());
            assert(dist[queue[head] as int] <= dist[queue[m] as int]);
            assert(w.last() < g.n());
            assert(dist[w.last() as int] <= dist[queue[head] as int] + 1);
        }
    }
}

/// While the queue is not used up, a reached vertex is no farther from the
/// root than any walk to it is long.
proof fn lemma_frontier_shortest(
    g: &Graph,
    start: usize,
    pred: Seq<usize>,
    dist: Seq<usize>,
    queue: Seq<usize>,
    head: int,
    x: usize,
)
    requires
        g.wf(),
        frontier_ok(g, start, pred, dist, queue, head),
        head <= queue.len(),
        x < g.n(),
        dist[x as int] != UNSEEN,
    ensures
        forall|w: Seq<usize>|
            #[trigger] is_walk(g, w) && w[0] == start && w.last() == x ==> dist[x as int] + 1 <= w.len(),
{
    assert forall|w: Seq<usize>| #[trigger] is_walk(g, w) && w[0] == start && w.last() == x implies dist[
        x as int] + 1 <= w.len() by {
        lemma_walk_scan(g, start, pred, dist, queue, head, w, 0);
    }
}

/// Breadth-first search from `start` over a first-in first-out queue. It
/// returns the predecessor and the distance of each vertex, `UNSEEN` where
/// none, and stops as soon as it reaches `stop`; a search that did not reach
/// `stop` covers everything that `start` can reach.
pub(crate) fn explore(g: &Graph, start: usize, stop: usize) -> (res: (Vec<usize>, Vec<usize>))
    requires
        g.wf(),
        start < g.n(),
    ensures
        is_tree(g, start, res.0@, res.1@),
        forall|v: int| 0 <= v < g.n() && #[trigger] res.1@[v] != UNSEEN ==> res.1@[v] < g.n(),
        stop < g.n() && res.1@[stop as int] == UNSEEN ==> closed(g, res.1@),
        stop >= g.n() ==> closed(g, res.1@),
        stop < g.n() && res.1@[stop as int] != UNSEEN ==> forall|w: Seq<usize>|
            #[trigger] is_walk(g, w) && w[0] == start && w.last() == stop ==> res.1@[stop as int] + 1
                <= w.len(),
        stop >= g.n() ==> forall|w: Seq<usize>|
            #[trigger] is_walk(g, w) && w[0] == start && res.1@[w.last() as int] != UNSEEN
                ==> res.1@[w.last() as int] + 1 <= w.len(),
{
    let n = g.size();
    let mut pred = filled(n, UNSEEN);
    let mut dist = filled(n, UNSEEN);
    dist.set(start, 0);
    let mut queue: Vec<usize> = Vec::new();
    queue.push(start);
    proof {
        assert(queue@ =~= seq![start]);
        lemma_frontier_start(g, start, pred@, dist@);
    }
    if start == stop {
        proof {
            lemma_frontier_tree(g, start, pred@, dist@, queue@, 0);
        }
        return (pred, dist);
    }
    let mut head: usize = 0;
    while head < queue.len()
        invariant
            n == g.n(),
            g.wf(),
            dist@.len() == n,
            pred@.len() == n,
            frontier_ok(g, start, pred@, dist@, queue@, head as int),
            stop < n ==> dist@[stop as int] == UNSEEN,
        decreases n - head,
    {
        proof {
            lemma_frontier_tree(g, start, pred@, dist@, queue@, head as int);
        }
        let current = queue[head];
        let neighbors = g.get_neighbors(current);
        let mut j: usize = 0;
        while j < neighbors.len()
            invariant
                n == g.n(),
                g.wf(),
                head < queue@.len(),
                current < n,
                current == queue@[head as int],
                neighbors@ == g.adj()[current as int],
                j <= neighbors@.len(),
                dist@.len() == n,
                pred@.len() == n,
                frontier_ok(g, start, pred@, dist@, queue@, head as int),
                forall|jj: int| 0 <= jj < j ==> dist@[#[trigger] neighbors@[jj] as int] != UNSEEN,
                stop < n ==> dist@[stop as int] == UNSEEN,
            decreases neighbors@.len() - j,
        {
            let v = neighbors[j];
            assert(g.adj()[current as int][j as int] == v);
            if dist[v] == UNSEEN {
                proof {
                    lemma_frontier_discover(g, start, pred@, dist@, queue@, head as int, j as int);
                }
                dist.set(v, dist[current] + 1);
                pred.set(v, current);
                queue.push(v);
                if v == stop {
                    proof {
                        lemma_frontier_tree(g, start, pred@, dist@, queue@, head as int);
                        lemma_frontier_shortest(g, start, pred@, dist@, queue@, head as int, v);
                    }
                    return (pred, dist);
                }
            }
            j = j + 1;
        }
        proof {
            lemma_frontier_advance(g, start, pred@, dist@, queue@, head as int);
        }
        head = head + 1;
    }
    proof {
        lemma_frontier_tree(g, start, pred@, dist@, queue@, head as int);
        lemma_frontier_closed(g, start, pred@, dist@, queue@);
        assert forall|w: Seq<usize>|
            #[trigger] is_walk(g, w) && w[0] == start && dist@[w.last() as int] != UNSEEN implies dist@[
            w.last() as int] + 1 <= w.len() by {
            assert(w.last() < g.n());
            lemma_frontier_shortest(g, start, pred@, dist@, queue@, head as int, w.last());
        }
    }
    (pred, dist)
}

/// Appends `v` and its chain of predecessors, up to the root, to `path`.
pub(crate) fn push_ancestors(path: &mut Vec<usize>, pred: &Vec<usize>, v: usize, Ghost(dist): Ghost<Seq<usize>>)
    requires
        ranked(pred@, dist),
        v < dist.len(),
        dist[v as int] != UNSEEN,
    ensures
        final(path)@ == old(path)@ + start_path(pred@, dist, v),
{
    proof {
        lemma_path_up(pred@, dist, v);
    }
    let ghost sp = start_path(pred@, dist, v);
    let ghost base = path@;
    let mut current = v;
    path.push(current);
    assert(path@ =~= base + sp.subrange(0, 1));
    while pred[current] != UNSEEN
        invariant
            ranked(pred@, dist),
            sp == start_path(pred@, dist, v),
            sp.len() == dist[v as int] + 1,
            current < dist.len(),
            dist[current as int] != UNSEEN,
            dist[current as int] <= dist[v as int],
            current == sp[dist[v as int] - dist[current as int]],
            path@ == base + sp.subrange(0, dist[v as int] - dist[current as int] + 1),
            forall|i: int|
                0 <= i < sp.len() - 1 ==> pred@[#[trigger] sp[i] as int] == sp[i + 1],
        decreases dist[current as int],
    {
        let ghost k = dist[v as int] - dist[current as int];
        assert(pred@[sp[k] as int] == sp[k + 1]);
        current = pred[current];
        path.push(current);
        assert(path@ =~= base + sp.subrange(0, k + 2));
    }
    assert(dist[current as int] == 0);
    assert(path@ =~= base + sp);
}

/// A copy of `v`.
pub(crate) fn copy_of(v: &Vec<usize>) -> (r: Vec<usize>)
    ensures
        r@ == v@,
{
    let mut r: Vec<usize> = Vec::new();
    let mut i: usize = 0;
    while i < v.len()
        invariant
            i <= v@.len(),
            r@ == v@.subrange(0, i as int),
        decreases v@.len() - i,
    {
        r.push(v[i]);
        i = i + 1;
        assert(r@ =~= v@.subrange(0, i as int));
    }
    assert(r@ =~= v@);
    r
}

/// The entries of `p` in reverse order.
pub(crate) fn reversed(p: &Vec<usize>) -> (r: Vec<usize>)
    ensures
        r@ == p@.reverse(),
{
    let mut r: Vec<usize> = Vec::new();
    let mut i: usize = p.len();
    while i > 0
        invariant
            i <= p@.len(),
            r@ == p@.subrange(i as int, p@.len() as int).reverse(),
        decreases i,
    {
        i = i - 1;
        r.push(p[i]);
        assert(r@ =~= p@.subrange(i as int, p@.len() as int).reverse());
    }
    assert(p@.subrange(0, p@.len() as int) =~= p@);
    r
}

/// What a shortest-path search may answer: a simple path than which no walk
/// is shorter, or `None` where no walk leads from `start` to `end`.
pub open spec fn shortest_outcome(g: &Graph, start: usize, end: usize, r: Option<Vec<usize>>) -> bool {
    match r {
        Some(p) => is_simple_path(g, p@, start, end) && !reaches_within(
            g,
            start,
            end,
            (p@.len() - 1) as nat,
        ),
        None => !connected(g, start, end),
    }
}

/// A shortest path from `start` to `end` found by breadth-first search, or
/// `None` where no walk leads from `start` to `end`.
pub fn shortest_path(graph: &Graph, start: usize, end: usize) -> (r: Option<Vec<usize>>)
    requires
        graph.wf(),
        start < graph.n(),
        end < graph.n(),
    ensures
        shortest_outcome(graph, start, end, r),
        r is None <==> !connected(graph, start, end),
{
    let (pred, dist) = explore(graph, start, end);
    if dist[end] == UNSEEN {
        proof {
            if connected(graph, start, end) {
                let p = choose|p: Seq<usize>| #[trigger] is_walk(graph, p) && p[0] == start && p.last() == end;
                lemma_closed_walk(graph, dist@, p);
                assert(dist@[p[p.len() - 1] as int] != UNSEEN);
            }
        }
        return None;
    }
    let mut up: Vec<usize> = Vec::new();
    push_ancestors(&mut up, &pred, end, Ghost(dist@));
    proof {
        lemma_tree_path(graph, start, pred@, dist@, end);
        lemma_path_up(pred@, dist@, end);
        assert(up@ =~= start_path(pred@, dist@, end));
    }
    Some(reversed(&up))
}

/// Whether `vertex` lies strictly above `to` on its chain of predecessors.
pub(crate) fn in_start_path(predecessor: &[usize], to: usize, vertex: usize, Ghost(dist): Ghost<Seq<usize>>) -> (r: bool)
    requires
        ranked(predecessor@, dist),
        to < dist.len(),
        dist[to as int] != UNSEEN,
    ensures
        r == start_path(predecessor@, dist, to).drop_first().contains(vertex),
{
    proof {
        lemma_path_up(predecessor@, dist, to);
    }
    let ghost sp = start_path(predecessor@, dist, to);
    let mut current = to;
    while predecessor[current] != UNSEEN
        invariant
            ranked(predecessor@, dist),
            sp == start_path(predecessor@, dist, to),
            sp.len() == dist[to as int] + 1,
            current < dist.len(),
            dist[current as int] != UNSEEN,
            dist[current as int] <= dist[to as int],
            current == sp[dist[to as int] - dist[current as int]],
            forall|i: int| 1 <= i <= dist[to as int] - dist[current as int] ==> sp[i] != vertex,
            forall|i: int|
                0 <= i < sp.len() - 1 ==> predecessor@[#[trigger] sp[i] as int] == sp[i + 1],
        decreases dist[current as int],
    {
        let ghost k = dist[to as int] - dist[current as int];
        assert(predecessor@[sp[k] as int] == sp[k + 1]);
        current = predecessor[current];
        if current == vertex {
            assert(sp.drop_first()[k] == vertex);
            return true;
        }
    }
    assert(dist[current as int] == 0);
    assert forall|i: int| 0 <= i < sp.drop_first().len() implies sp.drop_first()[i] != vertex by {
        assert(sp.drop_first()[i] == sp[i + 1]);
    }
    false
}

/// The vertices strictly above `to` are the path up from its predecessor,
/// and there are none above a root.
pub proof fn lemma_start_path_step(pred: Seq<usize>, dist: Seq<usize>, to: usize)
    requires
        ranked(pred, dist),
        to < dist.len(),
        dist[to as int] != UNSEEN,
    ensures
        pred[to as int] == UNSEEN ==> start_path(pred, dist, to).drop_first().len() == 0,
        pred[to as int] != UNSEEN ==> start_path(pred, dist, to).drop_first() == start_path(
            pred,
            dist,
            pred[to as int],
        ),
{
    lemma_path_up(pred, dist, to);
    if pred[to as int] != UNSEEN {
        assert(start_path(pred, dist, to).drop_first() =~= start_path(pred, dist, pred[to as int]));
    }
}

/// Whether `x` is an entry of `list`.
fn contains(list: &[usize], x: usize) -> (r: bool)
    ensures
        r == list@.contains(x),
{
    let mut i: usize = 0;
    while i < list.len()
        invariant
            i <= list@.len(),
            forall|a: int| 0 <= a < i ==> list@[a] != x,
        decreases list@.len() - i,
    {
        if list[i] == x {
            assert(list@[i as int] == x);
            return true;
        }
        i = i + 1;
    }
    false
}

/// Whether some entry of `predecessor_list` lies on the chain of predecessors
/// that starts at `current` itself and climbs `predecessors` to the root.
pub(crate) fn shared_paths(
    predecessor_list: &[usize],
    predecessors: &[usize],
    current: usize,
    Ghost(dist): Ghost<Seq<usize>>,
) -> (r: bool)
    requires
        ranked(predecessors@, dist),
        current == UNSEEN || (current < dist.len() && dist[current as int] != UNSEEN),
    ensures
        current == UNSEEN ==> !r,
        current != UNSEEN ==> r == !disjoint(predecessor_list@, start_path(predecessors@, dist, current)),
{
    if current == UNSEEN {
        return false;
    }
    proof {
        lemma_path_up(predecessors@, dist, current);
    }
    let ghost sp = start_path(predecessors@, dist, current);
    let ghost top = current;
    let mut at = current;
    loop
        invariant
            ranked(predecessors@, dist),
            sp == start_path(predecessors@, dist, top),
            top == current,
            current != UNSEEN,
            top < dist.len(),
            dist[top as int] != UNSEEN,
            sp.len() == dist[top as int] + 1,
            at < dist.len(),
            dist[at as int] != UNSEEN,
            dist[at as int] <= dist[top as int],
            at == sp[dist[top as int] - dist[at as int]],
            forall|a: int, b: int|
                0 <= a < predecessor_list@.len() && 0 <= b < dist[top as int] - dist[at as int]
                    ==> predecessor_list@[a] != sp[b],
            forall|i: int|
                0 <= i < sp.len() - 1 ==> predecessors@[#[trigger] sp[i] as int] == sp[i + 1],
        decreases dist[at as int],
    {
        let ghost k = dist[top as int] - dist[at as int];
        if contains(predecessor_list, at) {
            let ghost i = choose|i: int| 0 <= i < predecessor_list@.len() && predecessor_list@[i] == at;
            assert(predecessor_list@[i] == sp[k]);
            assert(!disjoint(predecessor_list@, sp)) by {
                if disjoint(predecessor_list@, sp) {
                    assert(predecessor_list@[i] != sp[k]);
                }
            }
            return true;
        }
        if predecessors[at] == UNSEEN {
            assert(dist[at as int] == 0);
            assert(disjoint(predecessor_list@, sp)) by {
                assert forall|a: int, b: int| 0 <= a < predecessor_list@.len() && 0 <= b < sp.len()
                    implies predecessor_list@[a] != sp[b] by {
                    if b == k {
                        assert(!predecessor_list@.contains(at));
                    }
                }
            }
            return false;
        }
        assert(predecessors@[sp[k] as int] == sp[k + 1]);
        at = predecessors[at];
        assert forall|a: int, b: int|
            0 <= a < predecessor_list@.len() && 0 <= b < k + 1 implies predecessor_list@[a] != sp[b] by {
            if b == k {
                assert(predecessor_list@[a] != sp[k]);
            }
        }
    }
}

} // verus!
