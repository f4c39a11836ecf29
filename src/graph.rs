use crate::uniform::UniformRng;
use vstd::multiset::Multiset;
use vstd::prelude::*;

verus! {

broadcast use vstd::seq_lib::group_to_multiset_ensures;

/// How many times `x` occurs in `s`.
pub open spec fn occurrences(s: Seq<usize>, x: usize) -> nat {
    s.to_multiset().count(x)
}

/// Each list of `a` starts with the same list of `b` and goes on with other
/// vertices only.
pub open spec fn grows_from(a: Seq<Seq<usize>>, b: Seq<Seq<usize>>) -> bool {
    &&& a.len() == b.len()
    &&& forall|v: int|
        0 <= v < b.len() ==> {
            &&& b[v].len() <= (#[trigger] a[v]).len()
            &&& forall|j: int| 0 <= j < b[v].len() ==> #[trigger] a[v][j] == b[v][j]
            &&& forall|j: int| b[v].len() <= j < a[v].len() ==> #[trigger] a[v][j] != v
        }
}

/// An undirected, unweighted graph over the vertices `0..size`, kept as
/// adjacency lists. An edge `a`-`b` puts `b` in the list of `a` and `a` in the
/// list of `b`; parallel edges are kept.
pub struct Graph {
    size: usize,
    data: Vec<Vec<usize>>,
}

impl Graph {
    /// The adjacency lists, one per vertex.
    pub closed spec fn adj(&self) -> Seq<Seq<usize>> {
        self.data@.map_values(|l: Vec<usize>| l@)
    }

    /// The number of vertices.
    pub open spec fn n(&self) -> int {
        self.adj().len() as int
    }

    /// The recorded vertex count matches the lists.
    pub closed spec fn sized(&self) -> bool {
        self.size == self.data@.len()
    }

    /// Every list belongs to a vertex, names vertices only, and the lists are
    /// symmetric: `b` occurs in the list of `a` as often as `a` in that of `b`.
    pub open spec fn wf(&self) -> bool {
        &&& self.sized()
        &&& self.n() <= usize::MAX
        &&& forall|v: int, j: int|
            0 <= v < self.n() && 0 <= j < self.adj()[v].len() ==> #[trigger] self.adj()[v][j]
                < self.n()
        &&& forall|a: usize, b: usize|
            a < self.n() && b < self.n() ==> #[trigger] occurrences(self.adj()[a as int], b)
                == occurrences(self.adj()[b as int], a)
    }

    /// `b` is a neighbour of `a`.
    pub open spec fn edge(&self, a: usize, b: usize) -> bool {
        self.adj()[a as int].contains(b)
    }

    /// The neighbours of `v`, counted with multiplicity.
    pub open spec fn neighbor_bag(&self, v: usize) -> Multiset<usize> {
        self.adj()[v as int].to_multiset()
    }

    /// Two graphs with the same vertices and the same edges, counted with
    /// multiplicity; the order inside each list may differ.
    pub open spec fn same_edges(&self, other: &Graph) -> bool {
        &&& self.n() == other.n()
        &&& forall|u: usize, x: usize|
            u < self.n() ==> #[trigger] occurrences(self.adj()[u as int], x) == occurrences(
                other.adj()[u as int],
                x,
            )
    }

    /// A graph on the vertices `0..size` with no edges.
    pub fn new(size: usize) -> (g: Graph)
        ensures
            g.wf(),
            g.n() == size,
            forall|v: int| 0 <= v < size ==> #[trigger] g.adj()[v] == Seq::<usize>::empty(),
    {
        let mut data: Vec<Vec<usize>> = Vec::new();
        let mut i: usize = 0;
        while i < size
            invariant
                i <= size,
                data@.len() == i,
                forall|v: int| 0 <= v < i ==> (#[trigger] data@[v])@ == Seq::<usize>::empty(),
            decreases size - i,
        {
            data.push(Vec::new());
            i = i + 1;
        }
        let g = Graph { size, data };
        assert(g.adj().len() == size);
        assert forall|a: usize, b: usize| a < size && b < size implies #[trigger] occurrences(
            g.adj()[a as int],
            b,
        ) == occurrences(g.adj()[b as int], a) by {
            assert(g.adj()[a as int] == Seq::<usize>::empty());
            assert(g.adj()[b as int] == Seq::<usize>::empty());
        }
        g
    }

    /// Adds the edge `a`-`b`: `b` is appended to the list of `a` and `a` to the
    /// list of `b`. A loop `a`-`a` appends `a` twice to its own list.
    pub fn add_edge(&mut self, a: usize, b: usize)
        requires
            old(self).wf(),
            a < old(self).n(),
            b < old(self).n(),
        ensures
            final(self).wf(),
            final(self).n() == old(self).n(),
            final(self).adj() == (if a == b {
                old(self).adj().update(a as int, old(self).adj()[a as int].push(b).push(a))
            } else {
                old(self).adj().update(a as int, old(self).adj()[a as int].push(b)).update(
                    b as int,
                    old(self).adj()[b as int].push(a),
                )
            }),
    {
        let ghost g0 = self.adj();
        self.data[a].push(b);
        self.data[b].push(a);
        let ghost g1 = self.adj();
        if a == b {
            assert(g1 =~= g0.update(a as int, g0[a as int].push(b).push(a)));
        } else {
            assert(g1 =~= g0.update(a as int, g0[a as int].push(b)).update(b as int, g0[b as int].push(a)));
        }
        assert forall|x: usize, y: usize| x < self.n() && y < self.n() implies #[trigger] occurrences(
            g1[x as int],
            y,
        ) == occurrences(g1[y as int], x) by {
            assert(occurrences(g0[x as int], y) == occurrences(g0[y as int], x));
        }
        assert forall|v: int, j: int| 0 <= v < self.n() && 0 <= j < g1[v].len() implies #[trigger] g1[v][j]
            < self.n() by {
            if v != a && v != b {
                assert(g1[v] == g0[v]);
            }
        }
    }

    /// The number of vertices.
    pub fn size(&self) -> (r: usize)
        requires
            self.wf(),
        ensures
            r == self.n(),
    {
        self.size
    }

    /// Whether `b` is a neighbour of `a`.
    pub fn has_edge(&self, a: usize, b: usize) -> (r: bool)
        requires
            self.wf(),
            a < self.n(),
        ensures
            r == self.edge(a, b),
    {
        let list = &self.data[a];
        let mut i: usize = 0;
        while i < list.len()
            invariant
                i <= list@.len(),
                list@ == self.adj()[a as int],
                forall|j: int| 0 <= j < i ==> list@[j] != b,
            decreases list@.len() - i,
        {
            if list[i] == b {
                return true;
            }
            i = i + 1;
        }
        false
    }

    /// The current neighbours of `vertex`.
    pub fn get_neighbors(&self, vertex: usize) -> (r: &Vec<usize>)
        requires
            self.wf(),
            vertex < self.n(),
        ensures
            r@ == self.adj()[vertex as int],
    {
        &self.data[vertex]
    }

    /// Removes the edge `a`-`b`: one `b` leaves the list of `a` and one `a` the
    /// list of `b`. The order left in those lists is not specified.
    pub fn remove_edge(&mut self, a: usize, b: usize)
        requires
            old(self).wf(),
            a < old(self).n(),
            b < old(self).n(),
            occurrences(old(self).adj()[a as int], b) >= (if a == b { 2nat } else { 1nat }),
        ensures
            final(self).wf(),
            final(self).n() == old(self).n(),
            a == b ==> final(self).neighbor_bag(a) == old(self).neighbor_bag(a).remove(b).remove(a),
            a != b ==> final(self).neighbor_bag(a) == old(self).neighbor_bag(a).remove(b),
            a != b ==> final(self).neighbor_bag(b) == old(self).neighbor_bag(b).remove(a),
            forall|v: int| 0 <= v < old(self).n() && v != a && v != b ==> #[trigger] final(self).adj()[v]
                == old(self).adj()[v],
    {
        let ghost g0 = self.adj();
        let i = position(&self.data[a], b);
        self.data[a].remove(i);
        let ghost g1 = self.adj();
        assert(g1 =~= g0.update(a as int, g0[a as int].remove(i as int)));
        assert(g1[a as int].to_multiset() == g0[a as int].to_multiset().remove(b));
        assert(occurrences(g0[a as int], b) == occurrences(g0[b as int], a));
        assert(g1[b as int].to_multiset().count(a) > 0);
        assert(g1[b as int].contains(a));
        let j = position(&self.data[b], a);
        self.data[b].remove(j);
        let ghost g2 = self.adj();
        assert(g2 =~= g1.update(b as int, g1[b as int].remove(j as int)));
        assert(g2[b as int].to_multiset() == g1[b as int].to_multiset().remove(a));
        assert forall|x: usize, y: usize| x < self.n() && y < self.n() implies #[trigger] occurrences(
            g2[x as int],
            y,
        ) == occurrences(g2[y as int], x) by {
            assert(occurrences(g0[x as int], y) == occurrences(g0[y as int], x));
        }
        assert forall|v: int, k: int| 0 <= v < self.n() && 0 <= k < g2[v].len() implies #[trigger] g2[v][k]
            < self.n() by {
            let e = g2[v][k];
            assert(g2[v].contains(e));
            assert(g0[v].to_multiset().count(e) >= g2[v].to_multiset().count(e));
            assert(g0[v].contains(e));
            let kk = choose|kk: int| 0 <= kk < g0[v].len() && g0[v][kk] == e;
            assert(g0[v][kk] < self.n());
            if v != a && v != b {
                assert(g2[v] == g0[v]);
            }
        }
    }

    /// Takes every edge at `v` out of the graph: the list of `v` is emptied and
    /// `v` leaves the lists of its former neighbours. Returns the former list,
    /// which `restore_edges` puts back.
    pub fn pop_edges(&mut self, v: usize) -> (r: Vec<usize>)
        requires
            old(self).wf(),
            v < old(self).n(),
        ensures
            final(self).wf(),
            final(self).n() == old(self).n(),
            r@ == old(self).adj()[v as int],
            final(self).adj()[v as int] == Seq::<usize>::empty(),
            forall|u: usize, x: usize|
                u < old(self).n() && u != v ==> #[trigger] occurrences(final(self).adj()[u as int], x)
                    == if x == v {
                    0
                } else {
                    occurrences(old(self).adj()[u as int], x)
                },
    {
        let ghost g0 = self.adj();
        let mut snapshot: Vec<usize> = Vec::new();
        std::mem::swap(&mut snapshot, &mut self.data[v]);
        assert(self.adj() =~= g0.update(v as int, Seq::<usize>::empty()));
        let len = snapshot.len();
        let mut i: usize = 0;
        assert(snapshot@.subrange(0, len as int) =~= snapshot@);
        assert forall|u: usize, x: usize| u < g0.len() && u != v implies #[trigger] occurrences(
            self.adj()[u as int],
            x,
        ) == if x == v {
            occurrences(snapshot@.subrange(i as int, len as int), u)
        } else {
            occurrences(g0[u as int], x)
        } by {
            assert(self.adj()[u as int] == g0[u as int]);
            assert(occurrences(g0[u as int], v) == occurrences(g0[v as int], u));
        }
        while i < len
            invariant
                0 <= i <= len,
                len == snapshot@.len(),
                snapshot@ == g0[v as int],
                g0.len() == old(self).n(),
                self.sized(),
                self.adj().len() == g0.len(),
                self.adj()[v as int] == Seq::<usize>::empty(),
                v < g0.len(),
                forall|w: int, k: int|
                    0 <= w < g0.len() && 0 <= k < g0[w].len() ==> #[trigger] g0[w][k] < g0.len(),
                forall|a: usize, b: usize|
                    a < g0.len() && b < g0.len() ==> #[trigger] occurrences(g0[a as int], b)
                        == occurrences(g0[b as int], a),
                forall|u: usize, x: usize|
                    u < g0.len() && u != v ==> #[trigger] occurrences(self.adj()[u as int], x)
                        == if x == v {
                        occurrences(snapshot@.subrange(i as int, len as int), u)
                    } else {
                        occurrences(g0[u as int], x)
                    },
                forall|w: int, k: int|
                    0 <= w < g0.len() && 0 <= k < self.adj()[w].len() ==> #[trigger] self.adj()[w][k]
                        < g0.len(),
            decreases len - i,
        {
            let u = snapshot[i];
            proof {
                lemma_occurrences_step(snapshot@, i as int);
            }
            let ghost h0 = self.adj();
            if u != v {
                assert(occurrences(h0[u as int], v) > 0);
                assert(h0[u as int].contains(v));
                let j = position(&self.data[u], v);
                self.data[u].remove(j);
                let ghost h1 = self.adj();
                assert(h1 =~= h0.update(u as int, h0[u as int].remove(j as int)));
                assert(h1[u as int].to_multiset() == h0[u as int].to_multiset().remove(v));
                assert forall|w: int, k: int|
                    0 <= w < g0.len() && 0 <= k < h1[w].len() implies #[trigger] h1[w][k] < g0.len() by {
                    if w == u {
                        let e = h1[w][k];
                        assert(h1[w].contains(e));
                        assert(h0[w].to_multiset().count(e) >= h1[w].to_multiset().count(e));
                        assert(h0[w].contains(e));
                        let kk = choose|kk: int| 0 <= kk < h0[w].len() && h0[w][kk] == e;
                        assert(h0[w][kk] < g0.len());
                    }
                }
            }
            let ghost h1 = self.adj();
            assert forall|w: usize, x: usize| w < g0.len() && w != v implies #[trigger] occurrences(
                h1[w as int],
                x,
            ) == if x == v {
                occurrences(snapshot@.subrange(i + 1, len as int), w)
            } else {
                occurrences(g0[w as int], x)
            } by {
                assert(occurrences(h0[w as int], x) == if x == v {
                    occurrences(snapshot@.subrange(i as int, len as int), w)
                } else {
                    occurrences(g0[w as int], x)
                });
                if w == u {
                    assert(h1[w as int].to_multiset() == h0[w as int].to_multiset().remove(v));
                } else {
                    assert(h1[w as int] == h0[w as int]);
                }
            }
            i = i + 1;
        }
        let ghost g1 = self.adj();
        assert forall|a: usize, b: usize| a < self.n() && b < self.n() implies #[trigger] occurrences(
            g1[a as int],
            b,
        ) == occurrences(g1[b as int], a) by {
            assert(snapshot@.subrange(len as int, len as int) =~= Seq::<usize>::empty());
            assert(occurrences(g0[a as int], b) == occurrences(g0[b as int], a));
            if a == v {
                assert(g1[a as int].to_multiset() =~= Multiset::empty());
            }
            if b == v {
                assert(g1[b as int].to_multiset() =~= Multiset::empty());
            }
        }
        assert(snapshot@.subrange(len as int, len as int) =~= Seq::<usize>::empty());
        snapshot
    }

    /// Puts back the edges that `pop_edges(v)` took out, given the list it
    /// returned. Each entry of the list is one end of an edge at `v`, so a loop
    /// at `v`, listed twice, comes back as one loop.
    pub fn restore_edges(&mut self, v: usize, neighbors: &Vec<usize>)
        requires
            old(self).wf(),
            v < old(self).n(),
            forall|k: int| 0 <= k < neighbors@.len() ==> #[trigger] neighbors@[k] < old(self).n(),
        ensures
            final(self).wf(),
            final(self).n() == old(self).n(),
            forall|x: usize| #[trigger] occurrences(final(self).adj()[v as int], x)
                == occurrences(old(self).adj()[v as int], x) + occurrences(neighbors@, x),
            forall|u: usize, x: usize|
                u < old(self).n() && u != v ==> #[trigger] occurrences(final(self).adj()[u as int], x)
                    == occurrences(old(self).adj()[u as int], x) + if x == v {
                    occurrences(neighbors@, u)
                } else {
                    0
                },
    {
        let ghost g0 = self.adj();
        let len = neighbors.len();
        let mut i: usize = 0;
        assert(neighbors@.subrange(0, 0) =~= Seq::<usize>::empty());
        while i < len
            invariant
                0 <= i <= len,
                len == neighbors@.len(),
                v < self.n(),
                self.wf(),
                self.n() == old(self).n(),
                g0 == old(self).adj(),
                forall|k: int| 0 <= k < neighbors@.len() ==> #[trigger] neighbors@[k] < old(self).n(),
                forall|x: usize| #[trigger] occurrences(self.adj()[v as int], x)
                    == occurrences(g0[v as int], x) + occurrences(neighbors@.subrange(0, i as int), x),
                forall|u: usize, x: usize|
                    u < self.n() && u != v ==> #[trigger] occurrences(self.adj()[u as int], x)
                        == occurrences(g0[u as int], x) + if x == v {
                        occurrences(neighbors@.subrange(0, i as int), u)
                    } else {
                        0
                    },
            decreases len - i,
        {
            let u = neighbors[i];
            assert(neighbors@.subrange(0, i + 1) =~= neighbors@.subrange(0, i as int).push(u));
            let ghost h0 = self.adj();
            if u != v {
                self.add_edge(v, u);
            } else {
                self.data[v].push(v);
                let ghost h1 = self.adj();
                assert(h1 =~= h0.update(v as int, h0[v as int].push(v)));
                assert forall|a: usize, b: usize| a < self.n() && b < self.n() implies #[trigger] occurrences(
                    h1[a as int],
                    b,
                ) == occurrences(h1[b as int], a) by {
                    assert(occurrences(h0[a as int], b) == occurrences(h0[b as int], a));
                }
                assert forall|w: int, k: int| 0 <= w < self.n() && 0 <= k < h1[w].len() implies #[trigger] h1[w][k]
                    < self.n() by {
                    if w != v || k < h0[w].len() {
                        assert(h1[w][k] == h0[w][k]);
                    }
                }
            }
            let ghost h1 = self.adj();
            proof {
                let pre = neighbors@.subrange(0, i as int);
                assert forall|x: usize| #[trigger] occurrences(h1[v as int], x)
                    == occurrences(g0[v as int], x) + occurrences(pre.push(u), x) by {
                    assert(occurrences(h0[v as int], x) == occurrences(g0[v as int], x) + occurrences(pre, x));
                    assert(h1[v as int] == h0[v as int].push(u));
                    assert(h0[v as int].push(u).to_multiset() == h0[v as int].to_multiset().insert(u));
                    assert(pre.push(u).to_multiset() == pre.to_multiset().insert(u));
                }
                assert forall|w: usize, x: usize| w < self.n() && w != v implies #[trigger] occurrences(
                    h1[w as int],
                    x,
                ) == occurrences(g0[w as int], x) + if x == v {
                    occurrences(pre.push(u), w)
                } else {
                    0
                } by {
                    assert(occurrences(h0[w as int], x) == occurrences(g0[w as int], x) + if x == v {
                        occurrences(pre, w)
                    } else {
                        0
                    });
                    assert(pre.push(u).to_multiset() == pre.to_multiset().insert(u));
                    if w == u {
                        assert(h1[w as int] == h0[w as int].push(v));
                        assert(h0[w as int].push(v).to_multiset() == h0[w as int].to_multiset().insert(v));
                    } else {
                        assert(h1[w as int] == h0[w as int]);
                    }
                }
            }
            i = i + 1;
        }
        assert(neighbors@.subrange(0, len as int) =~= neighbors@);
    }

    /// Draws `marked` pairs of vertices from `vertex_rng` and adds an edge for
    /// each pair of two distinct vertices. Every list keeps what it held and
    /// gains only other vertices.
    pub fn add_random_edges(&mut self, vertex_rng: &mut UniformRng, marked: usize)
        requires
            old(self).wf(),
            old(vertex_rng).wf(),
            old(vertex_rng).low() == 0,
            old(vertex_rng).high() == old(self).n(),
        ensures
            final(self).wf(),
            final(self).n() == old(self).n(),
            final(vertex_rng).wf(),
            final(vertex_rng).low() == old(vertex_rng).low(),
            final(vertex_rng).high() == old(vertex_rng).high(),
            grows_from(final(self).adj(), old(self).adj()),
    {
        let ghost g0 = self.adj();
        let mut k: usize = 0;
        while k < marked
            invariant
                g0 == old(self).adj(),
                self.wf(),
                self.n() == g0.len(),
                vertex_rng.wf(),
                vertex_rng.low() == 0,
                vertex_rng.high() == self.n(),
                vertex_rng.low() == old(vertex_rng).low(),
                vertex_rng.high() == old(vertex_rng).high(),
                grows_from(self.adj(), g0),
            decreases marked - k,
        {
            let a = vertex_rng.sample();
            let b = vertex_rng.sample();
            if a != b {
                let ghost h0 = self.adj();
                self.add_edge(a, b);
                proof {
                    let h1 = self.adj();
                    assert forall|v: int| 0 <= v < g0.len() implies {
                        &&& g0[v].len() <= (#[trigger] h1[v]).len()
                        &&& forall|j: int| 0 <= j < g0[v].len() ==> #[trigger] h1[v][j] == g0[v][j]
                        &&& forall|j: int| g0[v].len() <= j < h1[v].len() ==> #[trigger] h1[v][j] != v
                    } by {
                        assert(g0[v].len() <= h0[v].len());
                        if v == a || v == b {
                            assert forall|j: int| 0 <= j < h0[v].len() implies h1[v][j] == h0[v][j] by {}
                        } else {
                            assert(h1[v] == h0[v]);
                        }
                    }
                }
            }
            k = k + 1;
        }
    }
}

/// Dropping the first element of a suffix takes one occurrence of it away.
proof fn lemma_occurrences_step(s: Seq<usize>, i: int)
    requires
        0 <= i < s.len(),
    ensures
        forall|x: usize| #[trigger] occurrences(s.subrange(i, s.len() as int), x)
            == occurrences(s.subrange(i + 1, s.len() as int), x) + if s[i] == x { 1nat } else { 0nat },
{
    let t = s.subrange(i, s.len() as int);
    assert(t.remove(0) =~= s.subrange(i + 1, s.len() as int));
    assert(t.remove(0).to_multiset() == t.to_multiset().remove(t[0]));
}

/// Where `x` first occurs in `list`.
fn position(list: &Vec<usize>, x: usize) -> (i: usize)
    requires
        list@.contains(x),
    ensures
        i < list@.len(),
        list@[i as int] == x,
{
    let mut i: usize = 0;
    while i < list.len()
        invariant
            i <= list@.len(),
            list@.contains(x),
            forall|j: int| 0 <= j < i ==> list@[j] != x,
        decreases list@.len() - i,
    {
        if list[i] == x {
            return i;
        }
        i = i + 1;
    }
    i
}

} // verus!
