use crate::graph::{occurrences, Graph};
use crate::search::{connected, copy_of, is_simple_path, is_walk, reaches_within, shortest_path};
use vstd::multiset::Multiset;
use vstd::prelude::*;

verus! {

broadcast use vstd::seq_lib::group_to_multiset_ensures;

/// Each list of `a` holds each vertex at most as often as the same list of `b`.
pub open spec fn within(a: &Graph, b: &Graph) -> bool {
    &&& a.n() == b.n()
    &&& forall|u: usize, x: usize|
        u < a.n() ==> #[trigger] occurrences(a.adj()[u as int], x) <= occurrences(b.adj()[u as int], x)
}

/// One edit made to the graph during a spur step, with what undoes it.
pub enum Edit {
    /// The edge between the two vertices was removed.
    Edge(usize, usize),
    /// Every edge at the vertex was taken out; the list it had is kept.
    Vertex(usize, Vec<usize>),
}

/// `e` took the graph from `before` to `after`.
pub open spec fn reverts(before: Graph, after: Graph, e: Edit) -> bool {
    &&& before.wf()
    &&& after.wf()
    &&& before.n() == after.n()
    &&& match e {
        Edit::Edge(a, b) => {
            &&& a != b
            &&& a < before.n()
            &&& b < before.n()
            &&& forall|u: usize, x: usize|
                u < before.n() ==> #[trigger] occurrences(before.adj()[u as int], x) == occurrences(
                    after.adj()[u as int],
                    x,
                ) + (if u == a && x == b {
                    1nat
                } else {
                    0nat
                }) + (if u == b && x == a {
                    1nat
                } else {
                    0nat
                })
        },
        Edit::Vertex(v, s) => {
            &&& v < before.n()
            &&& s@ == before.adj()[v as int]
            &&& forall|u: usize, x: usize|
                u < before.n() ==> #[trigger] occurrences(after.adj()[u as int], x) == if u == v || x
                    == v {
                    0nat
                } else {
                    occurrences(before.adj()[u as int], x)
                }
        },
    }
}

/// A recorded edit only takes edges away.
proof fn lemma_reverts_within(before: Graph, after: Graph, e: Edit)
    requires
        reverts(before, after, e),
    ensures
        within(&after, &before),
{
    match e {
        Edit::Edge(a, b) => {
            assert forall|u: usize, x: usize| u < after.n() implies #[trigger] occurrences(
                after.adj()[u as int],
                x,
            ) <= occurrences(before.adj()[u as int], x) by {
                assert(occurrences(before.adj()[u as int], x) == occurrences(after.adj()[u as int], x)
                    + (if u == a && x == b { 1nat } else { 0nat }) + (if u == b && x == a { 1nat } else { 0nat }));
            }
        },
        Edit::Vertex(v, s) => {
            assert forall|u: usize, x: usize| u < after.n() implies #[trigger] occurrences(
                after.adj()[u as int],
                x,
            ) <= occurrences(before.adj()[u as int], x) by {
                assert(occurrences(after.adj()[u as int], x) == if u == v || x == v {
                    0nat
                } else {
                    occurrences(before.adj()[u as int], x)
                });
            }
        },
    }
}

/// Undoes `e`, which took the graph from `before` to `after`.
fn undo(graph: &mut Graph, e: Edit, Ghost(before): Ghost<Graph>, Ghost(after): Ghost<Graph>)
    requires
        old(graph).wf(),
        reverts(before, after, e),
        old(graph).same_edges(&after),
    ensures
        final(graph).wf(),
        final(graph).same_edges(&before),
{
    let ghost g0 = *graph;
    match e {
        Edit::Edge(a, b) => {
            graph.add_edge(a, b);
            assert forall|u: usize, x: usize| u < graph.n() implies #[trigger] occurrences(
                graph.adj()[u as int],
                x,
            ) == occurrences(before.adj()[u as int], x) by {
                assert(occurrences(before.adj()[u as int], x) == occurrences(after.adj()[u as int], x)
                    + (if u == a && x == b { 1nat } else { 0nat }) + (if u == b && x == a { 1nat } else { 0nat }));
                assert(occurrences(g0.adj()[u as int], x) == occurrences(after.adj()[u as int], x));
                if u == a {
                    assert(graph.adj()[u as int] == g0.adj()[u as int].push(b));
                } else if u == b {
                    assert(graph.adj()[u as int] == g0.adj()[u as int].push(a));
                } else {
                    assert(graph.adj()[u as int] == g0.adj()[u as int]);
                }
            }
        },
        Edit::Vertex(v, s) => {
            assert forall|k: int| 0 <= k < s@.len() implies #[trigger] s@[k] < graph.n() by {
                assert(before.adj()[v as int][k] < before.n());
            }
            graph.restore_edges(v, &s);
            assert forall|u: usize, x: usize| u < graph.n() implies #[trigger] occurrences(
                graph.adj()[u as int],
                x,
            ) == occurrences(before.adj()[u as int], x) by {
                assert(occurrences(g0.adj()[u as int], x) == occurrences(after.adj()[u as int], x));
                assert(occurrences(after.adj()[u as int], x) == if u == v || x == v {
                    0nat
                } else {
                    occurrences(before.adj()[u as int], x)
                });
                if u != v && x == v {
                    assert(occurrences(g0.adj()[v as int], u) == occurrences(after.adj()[v as int], u));
                    assert(occurrences(after.adj()[v as int], u) == 0);
                    assert(occurrences(before.adj()[u as int], v) == occurrences(before.adj()[v as int], u));
                }
            }
        },
    }
}

/// `t` runs with `last` up to and including index `i`, and goes on past it.
pub open spec fn shares(t: Seq<usize>, last: Seq<usize>, i: int) -> bool {
    &&& t.len() > i + 1
    &&& last.len() > i
    &&& t.subrange(0, i + 1) == last.subrange(0, i + 1)
}

/// The pair `u`, `x` is an edge that a spur step at index `i` cuts: some
/// known path shares `last` up to `i` and goes on along it.
pub open spec fn cut(paths: Seq<Vec<usize>>, last: Seq<usize>, i: int, u: usize, x: usize) -> bool {
    exists|t: int|
        0 <= t < paths.len() && #[trigger] shares(paths[t]@, last, i) && ((u == last[i] && x
            == paths[t]@[i + 1]) || (x == last[i] && u == paths[t]@[i + 1]))
}

/// No two edges join the same two distinct vertices.
pub open spec fn no_parallel(g: &Graph) -> bool {
    forall|a: usize, b: usize| a < g.n() && a != b ==> #[trigger] occurrences(g.adj()[a as int], b) <= 1
}

/// `cur` keeps every count of `orig` but on cut pairs and pairs that touch
/// a vertex of `gone`.
pub open spec fn kept(
    cur: &Graph,
    orig: &Graph,
    paths: Seq<Vec<usize>>,
    last: Seq<usize>,
    i: int,
    gone: Seq<usize>,
) -> bool {
    forall|u: usize, x: usize|
        u < orig.n() && !cut(paths, last, i, u, x) && !gone.contains(u) && !gone.contains(x)
            ==> #[trigger] occurrences(cur.adj()[u as int], x) == occurrences(orig.adj()[u as int], x)
}

/// Among the first `upto` known paths, each one that shares `last` up to
/// `i` has lost in `cur` the edge it takes next.
pub open spec fn blocked(cur: &Graph, paths: Seq<Vec<usize>>, last: Seq<usize>, i: int, upto: int) -> bool {
    forall|t: int|
        0 <= t < upto && #[trigger] shares(paths[t]@, last, i) ==> occurrences(
            cur.adj()[last[i] as int],
            paths[t]@[i + 1],
        ) == 0
}

proof fn lemma_blocked_within(
    before: &Graph,
    after: &Graph,
    paths: Seq<Vec<usize>>,
    last: Seq<usize>,
    i: int,
    upto: int,
)
    requires
        blocked(before, paths, last, i, upto),
        within(after, before),
        0 <= i < last.len(),
        last[i] < before.n(),
    ensures
        blocked(after, paths, last, i, upto),
{
    assert forall|t: int| 0 <= t < upto && #[trigger] shares(paths[t]@, last, i) implies occurrences(
        after.adj()[last[i] as int],
        paths[t]@[i + 1],
    ) == 0 by {
        assert(occurrences(after.adj()[last[i] as int], paths[t]@[i + 1]) <= occurrences(
            before.adj()[last[i] as int],
            paths[t]@[i + 1],
        ));
    }
}

/// Removing the edge that the `t`-th known path takes after index `i` keeps
/// the counts that `kept` speaks of.
proof fn lemma_kept_edge(
    before: &Graph,
    after: &Graph,
    orig: &Graph,
    paths: Seq<Vec<usize>>,
    last: Seq<usize>,
    i: int,
    t: int,
    a: usize,
    b: usize,
)
    requires
        kept(before, orig, paths, last, i, Seq::empty()),
        reverts(*before, *after, Edit::Edge(a, b)),
        before.n() == orig.n(),
        0 <= i,
        0 <= t < paths.len(),
        shares(paths[t]@, last, i),
        a == paths[t]@[i],
        b == paths[t]@[i + 1],
    ensures
        kept(after, orig, paths, last, i, Seq::empty()),
{
    assert(paths[t]@.subrange(0, i + 1)[i] == paths[t]@[i]);
    assert(last.subrange(0, i + 1)[i] == last[i]);
    assert(a == last[i]);
    assert forall|u: usize, x: usize|
        u < orig.n() && !cut(paths, last, i, u, x) && !Seq::<usize>::empty().contains(u)
            && !Seq::<usize>::empty().contains(x) implies #[trigger] occurrences(after.adj()[u as int], x)
        == occurrences(orig.adj()[u as int], x) by {
        if u == a && x == b {
            assert(cut(paths, last, i, u, x));
        }
        if u == b && x == a {
            assert(cut(paths, last, i, u, x));
        }
        assert(occurrences(before.adj()[u as int], x) == occurrences(after.adj()[u as int], x) + (if u
            == a && x == b { 1nat } else { 0nat }) + (if u == b && x == a { 1nat } else { 0nat }));
    }
}

/// Taking every edge at `v` out keeps the counts of pairs away from `v`.
proof fn lemma_kept_vertex(
    before: &Graph,
    after: &Graph,
    orig: &Graph,
    paths: Seq<Vec<usize>>,
    last: Seq<usize>,
    i: int,
    gone: Seq<usize>,
    v: usize,
    s: Vec<usize>,
)
    requires
        kept(before, orig, paths, last, i, gone),
        reverts(*before, *after, Edit::Vertex(v, s)),
        before.n() == orig.n(),
    ensures
        kept(after, orig, paths, last, i, gone.push(v)),
{
    assert forall|u: usize, x: usize|
        u < orig.n() && !cut(paths, last, i, u, x) && !gone.push(v).contains(u) && !gone.push(
            v,
        ).contains(x) implies #[trigger] occurrences(after.adj()[u as int], x) == occurrences(
        orig.adj()[u as int],
        x,
    ) by {
        assert(gone.push(v)[gone.len() as int] == v);
        assert forall|y: usize| gone.contains(y) implies gone.push(v).contains(y) by {
            let k = choose|k: int| 0 <= k < gone.len() && gone[k] == y;
            assert(gone.push(v)[k] == y);
        }
        assert(occurrences(after.adj()[u as int], x) == if u == v || x == v {
            0nat
        } else {
            occurrences(before.adj()[u as int], x)
        });
    }
}

/// A walk of the unpruned graph that agrees with `last` up to the spur index
/// and then leaves every known path sharing that root is still there, from
/// the spur vertex on, once the root is taken out and the cut edges removed.
proof fn lemma_spur_walk(
    orig: &Graph,
    pruned: &Graph,
    paths: Seq<Vec<usize>>,
    last: Seq<usize>,
    i: int,
    q: Seq<usize>,
    start: usize,
    end: usize,
)
    requires
        orig.wf(),
        pruned.n() == orig.n(),
        kept(pruned, orig, paths, last, i, last.subrange(0, i)),
        is_simple_path(orig, q, start, end),
        0 <= i,
        i + 1 < q.len(),
        i + 1 < last.len(),
        q.subrange(0, i + 1) == last.subrange(0, i + 1),
        forall|t: int| 0 <= t < paths.len() && #[trigger] shares(paths[t]@, last, i) ==> q[i + 1] != paths[t]@[i + 1],
    ensures
        is_walk(pruned, q.subrange(i, q.len() as int)),
        q.subrange(i, q.len() as int)[0] == last[i],
        q.subrange(i, q.len() as int).last() == end,
{
    let w = q.subrange(i, q.len() as int);
    let root = last.subrange(0, i);
    assert(q.subrange(0, i + 1)[i] == q[i]);
    assert(last.subrange(0, i + 1)[i] == last[i]);
    assert(q[i] == last[i]);
    assert forall|m: int| 0 <= m < w.len() implies !root.contains(#[trigger] w[m]) by {
        if root.contains(w[m]) {
            let r = choose|r: int| 0 <= r < root.len() && root[r] == w[m];
            assert(q.subrange(0, i + 1)[r] == last.subrange(0, i + 1)[r]);
            assert(q.subrange(0, i + 1)[r] == q[r]);
            assert(last.subrange(0, i + 1)[r] == last[r]);
            assert(root[r] == last[r]);
            assert(q[r] == q[m + i]);
        }
    }
    assert forall|m: int| 0 <= m < w.len() implies #[trigger] w[m] < pruned.n() by {
        assert(w[m] == q[m + i]);
    }
    assert forall|m: int| 0 <= m < w.len() - 1 implies pruned.edge(#[trigger] w[m], w[m + 1]) by {
        let x = w[m];
        let y = w[m + 1];
        assert(x == q[m + i] && y == q[m + i + 1]);
        assert(orig.edge(q[m + i], q[m + i + 1]));
        assert(!root.contains(x));
        assert(!root.contains(y));
        if cut(paths, last, i, x, y) {
            let t = choose|t: int|
                0 <= t < paths.len() && #[trigger] shares(paths[t]@, last, i) && ((x == last[i] && y
                    == paths[t]@[i + 1]) || (y == last[i] && x == paths[t]@[i + 1]));
            if x == last[i] {
                assert(q[m + i] == q[i]);
                if m > 0 {
                    assert(q.no_duplicates());
                }
            } else {
                assert(q[m + i + 1] == q[i]);
                assert(q.no_duplicates());
            }
        }
        assert(occurrences(pruned.adj()[x as int], y) == occurrences(orig.adj()[x as int], y));
    }
}

/// Whether `p` and `q` agree on their first `m` entries.
fn agrees(p: &Vec<usize>, q: &Vec<usize>, m: usize) -> (r: bool)
    requires
        m <= p@.len(),
        m <= q@.len(),
    ensures
        r == (p@.subrange(0, m as int) == q@.subrange(0, m as int)),
{
    let mut k: usize = 0;
    while k < m
        invariant
            k <= m,
            m <= p@.len(),
            m <= q@.len(),
            p@.subrange(0, k as int) == q@.subrange(0, k as int),
        decreases m - k,
    {
        if p[k] != q[k] {
            assert(p@.subrange(0, m as int)[k as int] != q@.subrange(0, m as int)[k as int]);
            return false;
        }
        k = k + 1;
        assert(p@.subrange(0, k as int) =~= q@.subrange(0, k as int)) by {
            assert forall|t: int| 0 <= t < k implies p@.subrange(0, k as int)[t] == q@.subrange(0, k as int)[t] by {
                if t < k - 1 {
                    assert(p@.subrange(0, k - 1)[t] == q@.subrange(0, k - 1)[t]);
                }
            }
        }
    }
    true
}

/// Whether some entry of `paths` is `c`.
fn holds_path(paths: &Vec<Vec<usize>>, c: &Vec<usize>) -> (r: bool)
    ensures
        r == exists|k: int| 0 <= k < paths@.len() && (#[trigger] paths@[k])@ == c@,
{
    let mut k: usize = 0;
    while k < paths.len()
        invariant
            k <= paths@.len(),
            forall|t: int| 0 <= t < k ==> (#[trigger] paths@[t])@ != c@,
        decreases paths@.len() - k,
    {
        let p = &paths[k];
        if p.len() == c.len() && agrees(p, c, c.len()) {
            assert(p@ =~= p@.subrange(0, c@.len() as int));
            assert(c@ =~= c@.subrange(0, c@.len() as int));
            return true;
        }
        k = k + 1;
    }
    false
}

/// The first of the shortest entries of `paths`.
fn first_shortest(paths: &Vec<Vec<usize>>) -> (idx: usize)
    requires
        paths@.len() > 0,
    ensures
        idx < paths@.len(),
        forall|k: int| 0 <= k < paths@.len() ==> paths@[idx as int]@.len() <= (#[trigger] paths@[k])@.len(),
        forall|k: int| 0 <= k < idx ==> paths@[idx as int]@.len() < (#[trigger] paths@[k])@.len(),
{
    let mut best: usize = 0;
    let mut k: usize = 1;
    while k < paths.len()
        invariant
            1 <= k <= paths@.len(),
            best < k,
            forall|t: int| 0 <= t < k ==> paths@[best as int]@.len() <= (#[trigger] paths@[t])@.len(),
            forall|t: int| 0 <= t < best ==> paths@[best as int]@.len() < (#[trigger] paths@[t])@.len(),
        decreases paths@.len() - k,
    {
        if paths[k].len() < paths[best].len() {
            best = k;
        }
        k = k + 1;
    }
    best
}

/// The root `last[0..i]` followed by a spur path found after the root's
/// vertices lost all their edges is a simple path of the unpruned graph.
proof fn lemma_candidate(
    orig: &Graph,
    pruned: &Graph,
    last: Seq<usize>,
    i: int,
    sp: Seq<usize>,
    start: usize,
    end: usize,
)
    requires
        orig.wf(),
        pruned.wf(),
        within(pruned, orig),
        is_simple_path(orig, last, start, end),
        0 <= i < last.len() - 1,
        is_simple_path(pruned, sp, last[i], end),
        forall|r: int, u: usize|
            0 <= r < i && u < orig.n() ==> #[trigger] occurrences(pruned.adj()[u as int], last[r]) == 0,
    ensures
        is_simple_path(orig, last.subrange(0, i) + sp, start, end),
{
    let root = last.subrange(0, i);
    let c = root + sp;
    assert forall|a: usize, b: usize| a < orig.n() && pruned.edge(a, b) implies orig.edge(a, b) by {
        assert(occurrences(pruned.adj()[a as int], b) <= occurrences(orig.adj()[a as int], b));
    }
    assert forall|k: int| 0 <= k < c.len() implies #[trigger] c[k] < orig.n() by {
        if k < i {
            assert(c[k] == last[k]);
        } else {
            assert(c[k] == sp[k - i]);
        }
    }
    assert forall|k: int| 0 <= k < c.len() - 1 implies orig.edge(#[trigger] c[k], c[k + 1]) by {
        if k < i - 1 {
            assert(c[k] == last[k]);
            assert(c[k + 1] == last[k + 1]);
        } else if k == i - 1 {
            assert(c[k] == last[k]);
            assert(c[k + 1] == sp[0]);
        } else {
            assert(c[k] == sp[k - i]);
            assert(c[k + 1] == sp[k - i + 1]);
            assert(pruned.edge(sp[k - i], sp[k - i + 1]));
        }
    }
    assert forall|a: int, b: int| 0 <= a < b < c.len() implies c[a] != c[b] by {
        if b < i {
            assert(c[a] == last[a]);
            assert(c[b] == last[b]);
        } else if a >= i {
            assert(c[a] == sp[a - i]);
            assert(c[b] == sp[b - i]);
        } else {
            assert(c[a] == last[a]);
            assert(c[b] == sp[b - i]);
            if b == i {
                assert(sp[0] == last[i]);
            } else {
                let prev = sp[b - i - 1];
                assert(pruned.edge(prev, sp[b - i]));
                assert(occurrences(pruned.adj()[prev as int], last[a]) == 0);
            }
        }
    }
    if i == 0 {
        assert(c[0] == sp[0]);
    } else {
        assert(c[0] == last[0]);
    }
    assert(c[c.len() - 1] == sp[sp.len() - 1]);
}

/// One spur step of Yen's algorithm: with `last[i]` as the spur vertex and
/// `last[0..i]` as the root, cut the edge that each known path sharing
/// `last[0..=i]` takes next, take every edge at the root's vertices out,
/// search a shortest path from the spur vertex to `end`, then put every edge
/// back. Returns the root followed by that path, if one was found.
#[verifier::rlimit(80)]
#[verifier::spinoff_prover]
fn spur_candidate(
    graph: &mut Graph,
    paths: &Vec<Vec<usize>>,
    last: &Vec<usize>,
    i: usize,
    Ghost(start): Ghost<usize>,
    end: usize,
) -> (r: Option<Vec<usize>>)
    requires
        old(graph).wf(),
        forall|k: int| 0 <= k < paths@.len() ==> is_simple_path(&*old(graph), #[trigger] paths@[k]@, start, end),
        is_simple_path(&*old(graph), last@, start, end),
        i + 1 < last@.len(),
    ensures
        final(graph).wf(),
        final(graph).same_edges(&*old(graph)),
        r matches Some(c) ==> is_simple_path(&*old(graph), c@, start, end) && c@.subrange(0, i as int)
            == last@.subrange(0, i as int),
        forall|q: Seq<usize>|
            #[trigger] is_simple_path(&*old(graph), q, start, end) && i + 1 < q.len() && q.subrange(
                0,
                i + 1,
            ) == last@.subrange(0, i + 1) && (forall|t: int|
                0 <= t < paths@.len() && #[trigger] shares(paths@[t]@, last@, i as int) ==> q[i + 1]
                    != paths@[t]@[i + 1]) ==> (r matches Some(c) && c@.len() <= q.len()),
        no_parallel(&*old(graph)) ==> (r matches Some(c) ==> c@.len() > i + 1 && forall|t: int|
            0 <= t < paths@.len() && #[trigger] shares(paths@[t]@, last@, i as int) ==> c@[i + 1]
                != paths@[t]@[i + 1]),
{
    let ghost orig = *graph;
    let mut log: Vec<Edit> = Vec::new();
    let ghost mut hist: Seq<Graph> = seq![orig];
    let last_len = last.len();
    let mut t: usize = 0;
    while t < paths.len()
        invariant
            last_len == last@.len(),
            graph.wf(),
            graph.n() == orig.n(),
            orig.wf(),
            hist.len() == log@.len() + 1,
            hist[0] == orig,
            hist.last() == *graph,
            forall|j: int| 0 <= j < log@.len() ==> reverts(hist[j], hist[j + 1], #[trigger] log@[j]),
            within(&*graph, &orig),
            forall|k: int| 0 <= k < paths@.len() ==> is_simple_path(&orig, #[trigger] paths@[k]@, start, end),
            i + 1 < last@.len(),
            t <= paths@.len(),
            kept(&*graph, &orig, paths@, last@, i as int, Seq::empty()),
            no_parallel(&orig) ==> blocked(&*graph, paths@, last@, i as int, t as int),
        decreases paths@.len() - t,
    {
        let p = &paths[t];
        assert(is_simple_path(&orig, paths@[t as int]@, start, end));
        let ghost g_at = *graph;
        if p.len() > i + 1 && agrees(p, last, i + 1) {
            let a = p[i];
            let b = p[i + 1];
            proof {
                assert(shares(paths@[t as int]@, last@, i as int));
                assert(p@.subrange(0, i + 1)[i as int] == p@[i as int]);
                assert(last@.subrange(0, i + 1)[i as int] == last@[i as int]);
                assert(a == last@[i as int]);
                assert(a != b);
            }
            if a != b && graph.has_edge(a, b) {
                let ghost before = *graph;
                proof {
                    assert(graph.adj()[a as int].to_multiset().count(b) > 0);
                }
                graph.remove_edge(a, b);
                log.push(Edit::Edge(a, b));
                proof {
                    let after = *graph;
                    assert(occurrences(before.adj()[a as int], b) == occurrences(before.adj()[b as int], a));
                    assert forall|u: usize, x: usize| u < before.n() implies #[trigger] occurrences(
                        before.adj()[u as int],
                        x,
                    ) == occurrences(after.adj()[u as int], x) + (if u == a && x == b {
                        1nat
                    } else {
                        0nat
                    }) + (if u == b && x == a {
                        1nat
                    } else {
                        0nat
                    }) by {
                        if u == a {
                            assert(after.neighbor_bag(a) == before.neighbor_bag(a).remove(b));
                        } else if u == b {
                            assert(after.neighbor_bag(b) == before.neighbor_bag(b).remove(a));
                        } else {
                            assert(after.adj()[u as int] == before.adj()[u as int]);
                        }
                    }
                    assert(reverts(before, after, Edit::Edge(a, b)));
                    lemma_reverts_within(before, after, Edit::Edge(a, b));
                    lemma_kept_edge(&before, &after, &orig, paths@, last@, i as int, t as int, a, b);
                    if no_parallel(&orig) {
                        lemma_blocked_within(&before, &after, paths@, last@, i as int, t as int);
                        assert(occurrences(before.adj()[a as int], b) <= occurrences(orig.adj()[a as int], b));
                        assert(occurrences(orig.adj()[a as int], b) <= 1);
                        assert(blocked(&after, paths@, last@, i as int, t + 1));
                    }
                    let h2 = hist.push(after);
                    assert forall|j: int| 0 <= j < log@.len() implies reverts(h2[j], h2[j + 1], #[trigger] log@[j]) by {
                        if j < log@.len() - 1 {
                            assert(h2[j] == hist[j]);
                            assert(h2[j + 1] == hist[j + 1]);
                        }
                    }
                    assert forall|u: usize, x: usize| u < after.n() implies #[trigger] occurrences(
                        after.adj()[u as int],
                        x,
                    ) <= occurrences(orig.adj()[u as int], x) by {
                        assert(occurrences(after.adj()[u as int], x) <= occurrences(before.adj()[u as int], x));
                        assert(occurrences(before.adj()[u as int], x) <= occurrences(orig.adj()[u as int], x));
                    }
                    hist = h2;
                }
            } else {
                proof {
                    assert(!graph.adj()[a as int].contains(b));
                    assert(occurrences(graph.adj()[a as int], b) == 0);
                    if no_parallel(&orig) {
                        assert(blocked(&*graph, paths@, last@, i as int, t + 1));
                    }
                }
            }
        } else {
            proof {
                if no_parallel(&orig) {
                    assert(!shares(paths@[t as int]@, last@, i as int));
                    assert(blocked(&*graph, paths@, last@, i as int, t + 1));
                }
            }
        }
        t = t + 1;
    }
    assert(last@.subrange(0, 0) =~= Seq::<usize>::empty());
    let mut t: usize = 0;
    while t < i
        invariant
            graph.wf(),
            graph.n() == orig.n(),
            orig.wf(),
            hist.len() == log@.len() + 1,
            hist[0] == orig,
            hist.last() == *graph,
            forall|j: int| 0 <= j < log@.len() ==> reverts(hist[j], hist[j + 1], #[trigger] log@[j]),
            within(&*graph, &orig),
            is_simple_path(&orig, last@, start, end),
            t <= i,
            i + 1 < last@.len(),
            forall|r: int, u: usize|
                0 <= r < t && u < orig.n() ==> #[trigger] occurrences(graph.adj()[u as int], last@[r]) == 0,
            kept(&*graph, &orig, paths@, last@, i as int, last@.subrange(0, t as int)),
            no_parallel(&orig) ==> blocked(&*graph, paths@, last@, i as int, paths@.len() as int),
        decreases i - t,
    {
        let v = last[t];
        let ghost before = *graph;
        let snapshot = graph.pop_edges(v);
        log.push(Edit::Vertex(v, snapshot));
        proof {
            let after = *graph;
            assert forall|u: usize, x: usize| u < before.n() implies #[trigger] occurrences(
                after.adj()[u as int],
                x,
            ) == if u == v || x == v {
                0nat
            } else {
                occurrences(before.adj()[u as int], x)
            } by {
                if u == v {
                    assert(after.adj()[u as int].to_multiset() =~= Multiset::empty());
                }
            }
            assert(reverts(before, after, Edit::Vertex(v, snapshot)));
            lemma_reverts_within(before, after, Edit::Vertex(v, snapshot));
            lemma_kept_vertex(&before, &after, &orig, paths@, last@, i as int, last@.subrange(0, t as int), v, snapshot);
            assert(last@.subrange(0, t as int).push(v) =~= last@.subrange(0, t + 1));
            if no_parallel(&orig) {
                lemma_blocked_within(&before, &after, paths@, last@, i as int, paths@.len() as int);
            }
            let h2 = hist.push(after);
            assert forall|j: int| 0 <= j < log@.len() implies reverts(h2[j], h2[j + 1], #[trigger] log@[j]) by {
                if j < log@.len() - 1 {
                    assert(h2[j] == hist[j]);
                    assert(h2[j + 1] == hist[j + 1]);
                }
            }
            assert forall|u: usize, x: usize| u < after.n() implies #[trigger] occurrences(
                after.adj()[u as int],
                x,
            ) <= occurrences(orig.adj()[u as int], x) by {
                assert(occurrences(after.adj()[u as int], x) <= occurrences(before.adj()[u as int], x));
                assert(occurrences(before.adj()[u as int], x) <= occurrences(orig.adj()[u as int], x));
            }
            assert forall|r: int, u: usize| 0 <= r < t + 1 && u < orig.n() implies #[trigger] occurrences(
                after.adj()[u as int],
                last@[r],
            ) == 0 by {
                if r < t {
                    assert(occurrences(before.adj()[u as int], last@[r]) == 0);
                    assert(occurrences(after.adj()[u as int], last@[r]) <= occurrences(before.adj()[u as int], last@[r]));
                }
            }
            hist = h2;
        }
        t = t + 1;
    }
    let ghost pruned = *graph;
    let found = shortest_path(graph, last[i], end);
    proof {
        assert forall|q: Seq<usize>|
            #[trigger] is_simple_path(&orig, q, start, end) && i + 1 < q.len() && q.subrange(0, i + 1)
                == last@.subrange(0, i + 1) && (forall|t: int|
                0 <= t < paths@.len() && #[trigger] shares(paths@[t]@, last@, i as int) ==> q[i + 1]
                    != paths@[t]@[i + 1]) implies (found matches Some(sp) && sp@.len() + i <= q.len()) by {
            lemma_spur_walk(&orig, &pruned, paths@, last@, i as int, q, start, end);
            let w = q.subrange(i as int, q.len() as int);
            assert(connected(&pruned, last@[i as int], end));
            let sp = found->Some_0;
            if sp@.len() + i > q.len() {
                assert(reaches_within(&pruned, last@[i as int], end, (sp@.len() - 1) as nat));
            }
        }
        if no_parallel(&orig) {
            if found is Some {
                let sp = found->Some_0;
                assert(last@[i as int] != end) by {
                    assert(last@[last@.len() - 1] == end);
                }
                assert(sp@.len() >= 2);
                assert(pruned.edge(sp@[0], sp@[1]));
                assert(occurrences(pruned.adj()[last@[i as int] as int], sp@[1]) > 0);
            }
        }
    }
    while log.len() > 0
        invariant
            graph.wf(),
            hist.len() == log@.len() + 1,
            hist[0] == orig,
            forall|j: int| 0 <= j < log@.len() ==> reverts(hist[j], hist[j + 1], #[trigger] log@[j]),
            graph.same_edges(&hist.last()),
        decreases log@.len(),
    {
        let ghost m = log@.len() - 1;
        let e = log.pop().unwrap();
        assert(reverts(hist[m], hist[m + 1], e));
        undo(graph, e, Ghost(hist[m]), Ghost(hist[m + 1]));
        proof {
            hist = hist.drop_last();
        }
    }
    match found {
        None => None,
        Some(spur_path) => {
            let mut c: Vec<usize> = Vec::new();
            let mut k: usize = 0;
            while k < i
                invariant
                    k <= i,
                    i < last@.len(),
                    c@ == last@.subrange(0, k as int),
                decreases i - k,
            {
                c.push(last[k]);
                k = k + 1;
                assert(c@ =~= last@.subrange(0, k as int));
            }
            let mut k: usize = 0;
            while k < spur_path.len()
                invariant
                    k <= spur_path@.len(),
                    c@ == last@.subrange(0, i as int) + spur_path@.subrange(0, k as int),
                decreases spur_path@.len() - k,
            {
                c.push(spur_path[k]);
                k = k + 1;
                assert(c@ =~= last@.subrange(0, i as int) + spur_path@.subrange(0, k as int));
            }
            proof {
                assert(spur_path@.subrange(0, spur_path@.len() as int) =~= spur_path@);
                lemma_candidate(&orig, &pruned, last@, i as int, spur_path@, start, end);
                assert(c@.subrange(0, i as int) =~= last@.subrange(0, i as int));
                assert(c@.len() == i + spur_path@.len());
                if spur_path@.len() > 1 {
                    assert(c@[i + 1] == spur_path@[1]);
                }
            }
            Some(c)
        },
    }
}

/// A simple path of one graph is one of any graph with the same edges.
pub proof fn lemma_same_edges_path(a: &Graph, b: &Graph, p: Seq<usize>, start: usize, end: usize)
    requires
        a.same_edges(b),
        is_simple_path(b, p, start, end),
    ensures
        is_simple_path(a, p, start, end),
{
    assert forall|k: int| 0 <= k < p.len() - 1 implies a.edge(#[trigger] p[k], p[k + 1]) by {
        assert(b.edge(p[k], p[k + 1]));
        assert(occurrences(b.adj()[p[k] as int], p[k + 1]) == occurrences(a.adj()[p[k] as int], p[k + 1]));
    }
}

/// A graph where Yen's first round settles the search: no parallel edges,
/// more vertices than `length`, a simple path of `length` vertices from
/// `start` to `end`, and at most one shorter simple path.
pub open spec fn one_shorter_route(g: &Graph, start: usize, end: usize, length: usize) -> bool {
    &&& no_parallel(g)
    &&& length < g.n()
    &&& exists|q: Seq<usize>| #[trigger] is_simple_path(g, q, start, end) && q.len() == length
    &&& forall|q1: Seq<usize>, q2: Seq<usize>|
        #[trigger] is_simple_path(g, q1, start, end) && #[trigger] is_simple_path(g, q2, start, end)
            && q1.len() < length && q2.len() < length ==> q1 == q2
}

/// Two simple paths with the same last vertex, the second longer, part at
/// some index of the first: the first index from `e` on where they differ.
proof fn lemma_first_difference(q: Seq<usize>, s: Seq<usize>, e: int) -> (d: int)
    requires
        q.no_duplicates(),
        s.len() >= 1,
        q.len() > s.len(),
        q.last() == s.last(),
        0 <= e < s.len(),
        forall|j: int| 0 <= j < e ==> q[j] == s[j],
    ensures
        e <= d < s.len(),
        q[d] != s[d],
        forall|j: int| 0 <= j < d ==> q[j] == s[j],
    decreases s.len() - e,
{
    if q[e] != s[e] {
        e
    } else if e == s.len() - 1 {
        assert(q[e] == q[q.len() - 1]);
        e
    } else {
        lemma_first_difference(q, s, e + 1)
    }
}

/// A graph with the same edges has no parallel edges either.
proof fn lemma_same_edges_no_parallel(a: &Graph, b: &Graph)
    requires
        a.same_edges(b),
        no_parallel(b),
    ensures
        no_parallel(a),
{
    assert forall|x: usize, y: usize| x < a.n() && x != y implies #[trigger] occurrences(a.adj()[x as int], y)
        <= 1 by {
        assert(occurrences(b.adj()[x as int], y) <= 1);
    }
}

/// Searches for a simple path from `start` to `end` with exactly `length`
/// vertices by Yen's enumeration of loopless paths, shortest first.
///
/// The shortest path is accepted first. Each round then branches off the
/// path accepted last at each of its vertices in turn (see `spur_candidate`),
/// pools the new paths with the earlier ones, and takes out the shortest of
/// the pool, the first found among equals. A path of the length asked for is
/// returned; a longer one, or an empty pool, ends the search with `None`.
/// The rounds number at most the vertex count minus `length`, so a path of
/// that length can be missed; one is always found where the shortest path
/// has that length, or where the first round settles the search (see
/// `one_shorter_route`). The graph is edited during the search and has the
/// same edges again at the end.
#[verifier::rlimit(80)]
pub fn yen(graph: &mut Graph, start: usize, end: usize, length: usize) -> (r: Option<Vec<usize>>)
    requires
        old(graph).wf(),
        start < old(graph).n(),
        end < old(graph).n(),
        length >= 1,
    ensures
        final(graph).wf(),
        final(graph).same_edges(&*old(graph)),
        r matches Some(p) ==> (is_simple_path(&*old(graph), p@, start, end) && p@.len() == length),
        r matches Some(p) ==> is_simple_path(&*final(graph), p@, start, end),
        !connected(&*old(graph), start, end) ==> r is None,
        !reaches_within(&*old(graph), start, end, length as nat) ==> r is None,
        reaches_within(&*old(graph), start, end, length as nat) && !reaches_within(
            &*old(graph),
            start,
            end,
            (length - 1) as nat,
        ) ==> r is Some,
        one_shorter_route(&*old(graph), start, end, length) ==> r is Some,
{
    let ghost orig = *graph;
    let ghost owed = one_shorter_route(&orig, start, end, length);
    let first = match shortest_path(graph, start, end) {
        None => {
            return None;
        },
        Some(p) => p,
    };
    proof {
        assert(is_walk(&orig, first@));
        if reaches_within(&orig, start, end, length as nat) {
            let w = choose|w: Seq<usize>| #[trigger] is_walk(&orig, w) && w[0] == start && w.last() == end
                && w.len() <= length;
            assert(w.len() >= first@.len());
            if !reaches_within(&orig, start, end, (length - 1) as nat) {
                assert(first@.len() > length - 1);
            }
        }
        if owed {
            let q = choose|q: Seq<usize>| #[trigger] is_simple_path(&orig, q, start, end) && q.len() == length;
            assert(is_walk(&orig, q));
            assert(reaches_within(&orig, start, end, length as nat));
        }
    }
    if first.len() == length {
        return Some(first);
    }
    if first.len() > length {
        return None;
    }
    let n = graph.size();
    let limit: usize = if length <= n {
        n - length
    } else {
        0
    };
    let ghost least = first@.len();
    let ghost s = first@;
    let ghost mut q: Seq<usize> = Seq::empty();
    let ghost mut iq: int = 0;
    proof {
        if owed {
            q = choose|q: Seq<usize>| #[trigger] is_simple_path(&orig, q, start, end) && q.len() == length;
            let d = lemma_first_difference(q, s, 0);
            iq = d - 1;
        }
    }
    let mut paths: Vec<Vec<usize>> = Vec::new();
    paths.push(first);
    let mut candidates: Vec<Vec<usize>> = Vec::new();
    let mut k: usize = 1;
    while k <= limit
        invariant
            orig == *old(graph),
            graph.wf(),
            graph.same_edges(&orig),
            orig.wf(),
            n == orig.n(),
            limit < n,
            1 <= k,
            paths@.len() == k,
            !reaches_within(&orig, start, end, (least - 1) as nat),
            least >= 1,
            forall|t: int|
                0 <= t < paths@.len() ==> is_simple_path(&orig, #[trigger] paths@[t]@, start, end)
                    && least <= paths@[t]@.len() < length,
            forall|t: int| 0 <= t < candidates@.len() ==> is_simple_path(&orig, #[trigger] candidates@[t]@, start, end),
            owed == one_shorter_route(&orig, start, end, length),
            owed ==> k == 1 && paths@[0]@ == s && candidates@.len() == 0 && s.len() < length,
            owed ==> is_simple_path(&orig, s, start, end) && is_simple_path(&orig, q, start, end) && q.len()
                == length,
            owed ==> 0 <= iq && iq + 1 < s.len() && q.subrange(0, iq + 1) == s.subrange(0, iq + 1) && q[iq
                + 1] != s[iq + 1],
        decreases limit + 1 - k,
    {
        let last = copy_of(&paths[k - 1]);
        assert(is_simple_path(&orig, paths@[k - 1]@, start, end));
        let last_len = last.len();
        let mut i: usize = 0;
        while i + 1 < last_len
            invariant
                last_len == last@.len(),
                i < last_len,
                graph.wf(),
                graph.same_edges(&orig),
                orig.wf(),
                is_simple_path(&orig, last@, start, end),
                forall|t: int|
                    0 <= t < paths@.len() ==> is_simple_path(&orig, #[trigger] paths@[t]@, start, end)
                        && least <= paths@[t]@.len() < length,
                forall|t: int|
                    0 <= t < candidates@.len() ==> is_simple_path(&orig, #[trigger] candidates@[t]@, start, end),
                owed == one_shorter_route(&orig, start, end, length),
                owed ==> paths@.len() == 1 && paths@[0]@ == s && last@ == s && s.len() < length,
                owed ==> is_simple_path(&orig, s, start, end) && is_simple_path(&orig, q, start, end)
                    && q.len() == length,
                owed ==> 0 <= iq && iq + 1 < s.len() && q.subrange(0, iq + 1) == s.subrange(0, iq + 1)
                    && q[iq + 1] != s[iq + 1],
                owed ==> forall|t: int| 0 <= t < candidates@.len() ==> (#[trigger] candidates@[t])@.len() >= length,
                owed && i > iq ==> exists|t: int| 0 <= t < candidates@.len() && (#[trigger] candidates@[t])@.len() == length,
            decreases last@.len() - i,
        {
            let ghost before = *graph;
            proof {
                assert forall|t: int| 0 <= t < paths@.len() implies is_simple_path(&before, #[trigger] paths@[t]@, start, end) by {
                    lemma_same_edges_path(&before, &orig, paths@[t]@, start, end);
                }
                lemma_same_edges_path(&before, &orig, last@, start, end);
            }
            let found = spur_candidate(graph, &paths, &last, i, Ghost(start), end);
            proof {
                if owed {
                    lemma_same_edges_no_parallel(&before, &orig);
                    assert(shares(paths@[0]@, last@, i as int) ==> paths@[0]@[i + 1] == s[i + 1]);
                    if i == iq {
                        lemma_same_edges_path(&before, &orig, q, start, end);
                        assert(q.subrange(0, i + 1) == last@.subrange(0, i + 1));
                        assert forall|t: int| 0 <= t < paths@.len() && #[trigger] shares(paths@[t]@, last@, i as int)
                            implies q[i + 1] != paths@[t]@[i + 1] by {
                            assert(t == 0);
                        }
                        assert(found is Some && found->Some_0@.len() <= q.len());
                    }
                    if found is Some {
                        let c = found->Some_0@;
                        assert(c.len() > i + 1);
                        assert(shares(paths@[0]@, last@, i as int));
                        assert(c[i + 1] != s[i + 1]);
                        assert(orig.same_edges(&before));
                        lemma_same_edges_path(&orig, &before, c, start, end);
                        assert(c != s);
                        if c.len() < length {
                            assert(is_simple_path(&orig, c, start, end) && is_simple_path(&orig, s, start, end));
                        }
                        assert(c.len() >= length);
                    }
                }
                assert forall|u: usize, x: usize| u < graph.n() implies #[trigger] occurrences(
                    graph.adj()[u as int],
                    x,
                ) == occurrences(orig.adj()[u as int], x) by {
                    assert(occurrences(graph.adj()[u as int], x) == occurrences(before.adj()[u as int], x));
                }
            }
            if let Some(c) = found {
                proof {
                    assert(orig.same_edges(&before));
                    lemma_same_edges_path(&orig, &before, c@, start, end);
                }
                if !holds_path(&candidates, &c) {
                    let ghost pool = candidates@;
                    candidates.push(c);
                    proof {
                        assert(candidates@[candidates@.len() - 1] == c);
                        if owed {
                            assert forall|t: int| 0 <= t < candidates@.len() implies (#[trigger] candidates@[t])@.len()
                                >= length by {
                                if t < candidates@.len() - 1 {
                                    assert(candidates@[t] == pool[t]);
                                }
                            }
                            if i > iq {
                                let t0 = choose|t: int| 0 <= t < pool.len() && (#[trigger] pool[t])@.len() == length;
                                assert(candidates@[t0] == pool[t0]);
                            }
                            if i == iq {
                                assert(candidates@[candidates@.len() - 1]@.len() == length);
                            }
                        }
                        assert forall|t: int| 0 <= t < candidates@.len() implies is_simple_path(
                            &orig,
                            #[trigger] candidates@[t]@,
                            start,
                            end,
                        ) by {
                            if t < candidates@.len() - 1 {
                                assert(candidates@[t] == pool[t]);
                            }
                        }
                    }
                }
            }
            i = i + 1;
        }
        proof {
            if owed {
                assert(i > iq);
                let t0 = choose|t: int| 0 <= t < candidates@.len() && (#[trigger] candidates@[t])@.len() == length;
                assert(candidates@.len() > 0);
            }
        }
        if candidates.len() == 0 {
            return None;
        }
        let idx = first_shortest(&candidates);
        proof {
            if owed {
                let t0 = choose|t: int| 0 <= t < candidates@.len() && (#[trigger] candidates@[t])@.len() == length;
                assert(candidates@[idx as int]@.len() <= candidates@[t0]@.len());
                assert(candidates@[idx as int]@.len() >= length);
            }
        }
        let ghost chosen = candidates@[idx as int]@;
        let best = candidates.remove(idx);
        proof {
            if owed {
                assert(best@ == chosen);
                assert(best@.len() == length);
            }
        }
        assert(is_simple_path(&orig, best@, start, end));
        assert(is_walk(&orig, best@));
        assert(best@.len() >= least);
        if best.len() == length {
            proof {
                lemma_same_edges_path(graph, &orig, best@, start, end);
            }
            return Some(best);
        }
        if best.len() > length {
            return None;
        }
        paths.push(best);
        k = k + 1;
    }
    None
}

} // verus!
