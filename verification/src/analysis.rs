//! The graph store and the distance analyzer: an immutable undirected graph
//! of labeled nodes held as a dense index arena with adjacency lists, a
//! breadth-first search for the shortest-hop distance between two node
//! handles, and the all-pairs aggregation of those distances into a
//! histogram keyed by distance.

use vstd::prelude::*;

verus! {

/// True when some record of `edges` connects `u` and `v`, in either order.
pub open spec fn edge_listed(edges: Seq<(usize, usize)>, u: usize, v: usize) -> bool {
    exists|i: int|
        0 <= i < edges.len() && ((#[trigger] edges[i]) == (u, v) || edges[i] == (v, u))
}

/// An undirected graph of labeled nodes. A node handle is its index into the
/// label arena; each adjacency row lists the neighbors of one node, with one
/// entry per incident edge record, so parallel edges and self-loops are kept.
pub struct RoadNetwork {
    labels: Vec<String>,
    adjacency: Vec<Vec<usize>>,
}

impl RoadNetwork {
    /// The number of nodes.
    pub closed spec fn n(self) -> nat {
        self.labels@.len()
    }

    /// The adjacency row of node `u`.
    pub closed spec fn adj_row(self, u: int) -> Seq<usize> {
        self.adjacency@[u]@
    }

    /// The label of node `v`.
    pub closed spec fn label_of(self, v: int) -> Seq<char> {
        self.labels@[v]@
    }

    /// Nodes `u` and `v` are joined by an edge.
    pub closed spec fn edge(self, u: usize, v: usize) -> bool {
        u < self.adjacency@.len() && self.adj_row(u as int).contains(v)
    }

    /// Every adjacency entry is a valid node handle and the edge relation is
    /// symmetric: the shape every constructed graph has and analysis relies on.
    pub closed spec fn wf(self) -> bool {
        &&& self.adjacency@.len() == self.labels@.len()
        &&& forall|u: int, j: int|
            0 <= u < self.adjacency@.len() && 0 <= j < self.adj_row(u).len()
                ==> (#[trigger] self.adj_row(u)[j]) < self.n()
        &&& forall|u: usize, v: usize| #[trigger] self.edge(u, v) ==> self.edge(v, u)
    }

    /// Builds the graph from a label arena and a list of edge records. Each
    /// record must join two valid node handles; duplicates create parallel
    /// edges and self-loops are not rejected, as the data model allows both.
    pub fn new(labels: Vec<String>, edges: Vec<(usize, usize)>) -> (network: RoadNetwork)
        requires
            forall|i: int|
                0 <= i < edges@.len()
                    ==> (#[trigger] edges@[i]).0 < labels@.len() && edges@[i].1 < labels@.len(),
        ensures
            network.wf(),
            network.n() == labels@.len(),
            forall|v: int| 0 <= v < labels@.len() ==> network.label_of(v) == labels@[v]@,
            forall|u: usize, v: usize|
                #[trigger] network.edge(u, v) <==> edge_listed(edges@, u, v),
    {
        let n = labels.len();
        let mut adjacency: Vec<Vec<usize>> = Vec::new();
        let mut u: usize = 0;
        while u < n
            invariant
                u <= n,
                n == labels@.len(),
                adjacency@.len() == u,
                forall|i: int|
                    0 <= i < edges@.len()
                        ==> (#[trigger] edges@[i]).0 < n && edges@[i].1 < n,
                forall|x: int, j: int|
                    0 <= x < u && 0 <= j < adjacency@[x]@.len()
                        ==> (#[trigger] adjacency@[x]@[j]) < n,
                forall|x: usize, w: usize|
                    x < u ==> ((#[trigger] adjacency@[x as int]@.contains(w)) <==> edge_listed(
                        edges@,
                        x,
                        w,
                    )),
            decreases n - u,
        {
            let mut row: Vec<usize> = Vec::new();
            let mut i: usize = 0;
            while i < edges.len()
                invariant
                    i <= edges@.len(),
                    u < n,
                    forall|k: int|
                        0 <= k < edges@.len()
                            ==> (#[trigger] edges@[k]).0 < n && edges@[k].1 < n,
                    forall|j: int| 0 <= j < row@.len() ==> (#[trigger] row@[j]) < n,
                    forall|w: usize|
                        (#[trigger] row@.contains(w)) <==> edge_listed(
                            edges@.take(i as int),
                            u,
                            w,
                        ),
                decreases edges@.len() - i,
            {
                let ghost row0 = row@;
                let (a, b) = edges[i];
                if a == u {
                    row.push(b);
                }
                if b == u && a != u {
                    row.push(a);
                }
                proof {
                    let prev = edges@.take(i as int);
                    let next = edges@.take(i as int + 1);
                    assert(next.drop_last() =~= prev);
                    assert(next[i as int] == edges@[i as int]);
                    assert forall|w: usize| #[trigger] row@.contains(w) implies edge_listed(
                        next,
                        u,
                        w,
                    ) by {
                        let j = choose|j: int| 0 <= j < row@.len() && row@[j] == w;
                        if j < row0.len() {
                            assert(row0[j] == w);
                            assert(row0.contains(w));
                            let k = choose|k: int|
                                0 <= k < prev.len() && (prev[k] == (u, w) || prev[k] == (w, u));
                            assert(next[k] == prev[k]);
                        } else {
                            assert(a == u && w == b || b == u && a != u && w == a);
                            assert(next[i as int] == (u, w) || next[i as int] == (w, u));
                        }
                    }
                    assert forall|w: usize| edge_listed(next, u, w) implies #[trigger] row@.contains(
                        w,
                    ) by {
                        let k = choose|k: int|
                            0 <= k < next.len() && (next[k] == (u, w) || next[k] == (w, u));
                        if k < i as int {
                            assert(prev[k] == next[k]);
                            assert(edge_listed(prev, u, w));
                            assert(row0.contains(w));
                            let j = choose|j: int| 0 <= j < row0.len() && row0[j] == w;
                            assert(row@[j] == w);
                        } else {
                            assert((a, b) == (u, w) || (a, b) == (w, u));
                            if a == u {
                                assert(row@[row0.len() as int] == b);
                                assert(w == b || w == u && b == u);
                            } else {
                                assert(b == u && a == w);
                                assert(row@[row0.len() as int] == a);
                            }
                        }
                    }
                }
                i = i + 1;
            }
            proof {
                assert(edges@.take(edges@.len() as int) =~= edges@);
            }
            adjacency.push(row);
            u = u + 1;
        }
        let network = RoadNetwork { labels, adjacency };
        proof {
            assert forall|x: usize, w: usize| #[trigger] network.edge(x, w) implies edge_listed(
                edges@,
                x,
                w,
            ) by {}
            assert forall|x: usize, w: usize| edge_listed(edges@, x, w) implies #[trigger] network.edge(
                x,
                w,
            ) by {
                let k = choose|k: int|
                    0 <= k < edges@.len() && (edges@[k] == (x, w) || edges@[k] == (w, x));
            }
            assert forall|x: usize, w: usize| #[trigger] network.edge(x, w) implies network.edge(
                w,
                x,
            ) by {
                assert(edge_listed(edges@, x, w));
                let k = choose|k: int|
                    0 <= k < edges@.len() && (edges@[k] == (x, w) || edges@[k] == (w, x));
                assert(edge_listed(edges@, w, x));
            }
        }
        network
    }

    /// The total number of nodes in the graph.
    pub fn node_count(&self) -> (count: usize)
        ensures
            count == self.n(),
    {
        self.labels.len()
    }

    /// There is a path of at most `k` edges from `a` to `b`.
    pub open spec fn connected_within(self, a: usize, b: usize, k: nat) -> bool
        decreases k,
    {
        a == b || (k > 0 && exists|w: usize|
            #[trigger] self.edge(a, w) && self.connected_within(w, b, (k - 1) as nat))
    }

    /// `d` is the graph-theoretic shortest-hop distance from `a` to `b`:
    /// some path of `d` edges connects them and no shorter path does.
    pub open spec fn is_hop_distance(self, a: usize, b: usize, d: nat) -> bool {
        self.connected_within(a, b, d) && (d == 0 || !self.connected_within(
            a,
            b,
            (d - 1) as nat,
        ))
    }

    /// Some path connects `a` to `b`.
    pub open spec fn reachable(self, a: usize, b: usize) -> bool {
        exists|k: nat| self.connected_within(a, b, k)
    }

    /// What a shortest-hop-distance query may answer for the pair `(a, b)`:
    /// the exact distance when the pair is connected, nothing otherwise.
    pub open spec fn hop_distance_is(self, a: usize, b: usize, r: Option<usize>) -> bool {
        match r {
            Some(d) => self.is_hop_distance(a, b, d as nat),
            None => !self.reachable(a, b),
        }
    }

    /// A path of at most `k1` edges is also a path of at most `k2 >= k1` edges.
    pub proof fn lemma_connected_within_mono(self, a: usize, b: usize, k1: nat, k2: nat)
        requires
            self.connected_within(a, b, k1),
            k1 <= k2,
        ensures
            self.connected_within(a, b, k2),
        decreases k1,
    {
        if a != b {
            let w = choose|w: usize|
                #[trigger] self.edge(a, w) && self.connected_within(w, b, (k1 - 1) as nat);
            self.lemma_connected_within_mono(w, b, (k1 - 1) as nat, (k2 - 1) as nat);
            assert(self.edge(a, w) && self.connected_within(w, b, (k2 - 1) as nat));
        }
    }

    /// A path from `a` to `b` extends along the edge `(b, c)`.
    pub proof fn lemma_connected_step(self, a: usize, b: usize, c: usize, k: nat)
        requires
            self.connected_within(a, b, k),
            self.edge(b, c),
        ensures
            self.connected_within(a, c, (k + 1) as nat),
        decreases k,
    {
        if a == b {
            assert(self.edge(a, c) && self.connected_within(c, c, k));
        } else {
            let w = choose|w: usize|
                #[trigger] self.edge(a, w) && self.connected_within(w, b, (k - 1) as nat);
            self.lemma_connected_step(w, b, c, (k - 1) as nat);
            assert(self.edge(a, w) && self.connected_within(w, c, k));
        }
    }

    /// In a well-formed graph every path runs both ways: connectivity within
    /// `k` hops is symmetric.
    pub proof fn lemma_connected_within_sym(self, a: usize, b: usize, k: nat)
        requires
            self.wf(),
            self.connected_within(a, b, k),
        ensures
            self.connected_within(b, a, k),
        decreases k,
    {
        if a != b {
            let w = choose|w: usize|
                #[trigger] self.edge(a, w) && self.connected_within(w, b, (k - 1) as nat);
            self.lemma_connected_within_sym(w, b, (k - 1) as nat);
            assert(self.edge(w, a));
            self.lemma_connected_step(b, w, a, (k - 1) as nat);
        }
    }

    /// Paths concatenate: at most `k1` hops from `a` to `b` and at most `k2`
    /// hops from `b` to `c` give at most `k1 + k2` hops from `a` to `c`.
    pub proof fn lemma_connected_concat(self, a: usize, b: usize, c: usize, k1: nat, k2: nat)
        requires
            self.connected_within(a, b, k1),
            self.connected_within(b, c, k2),
        ensures
            self.connected_within(a, c, (k1 + k2) as nat),
        decreases k1,
    {
        if a == b {
            self.lemma_connected_within_mono(b, c, k2, (k1 + k2) as nat);
        } else {
            let w = choose|w: usize|
                #[trigger] self.edge(a, w) && self.connected_within(w, b, (k1 - 1) as nat);
            self.lemma_connected_concat(w, b, c, (k1 - 1) as nat, k2);
            assert(self.edge(a, w) && self.connected_within(w, c, (k1 - 1 + k2) as nat));
        }
    }

    /// A pair has at most one shortest-hop distance.
    pub proof fn lemma_hop_distance_unique(self, a: usize, b: usize, d1: nat, d2: nat)
        requires
            self.is_hop_distance(a, b, d1),
            self.is_hop_distance(a, b, d2),
        ensures
            d1 == d2,
    {
        if d1 < d2 {
            self.lemma_connected_within_mono(a, b, d1, (d2 - 1) as nat);
        }
        if d2 < d1 {
            self.lemma_connected_within_mono(a, b, d2, (d1 - 1) as nat);
        }
    }

    /// The state of one breadth-first search from `origin`. `q` is the full
    /// record of enqueued `(node, distance)` pairs in order, `vis` marks the
    /// enqueued nodes, and the entries before `head` have been popped.
    #[verifier::opaque]
    spec fn bfs_inv(
        self,
        origin: usize,
        destination: usize,
        q: Seq<(usize, usize)>,
        vis: Seq<bool>,
        head: int,
    ) -> bool {
        &&& vis.len() == self.n()
        &&& 0 < q.len() <= self.n()
        &&& 0 <= head <= q.len()
        &&& q[0] == (origin, 0usize)
        &&& forall|i: int|
            0 <= i < q.len() ==> (#[trigger] q[i]).0 < self.n() && vis[q[i].0 as int]
        &&& forall|v: usize|
            v < self.n() && vis[v as int] ==> exists|i: int|
                0 <= i < q.len() && (#[trigger] q[i]).0 == v
        &&& forall|i: int, j: int|
            0 <= i < j < q.len() ==> (#[trigger] q[i]).0 != (#[trigger] q[j]).0
        &&& forall|i: int|
            0 <= i < q.len() ==> self.is_hop_distance(origin, (#[trigger] q[i]).0, q[i].1 as nat)
        &&& forall|i: int, j: int|
            0 <= i <= j < q.len() ==> (#[trigger] q[i]).1 <= (#[trigger] q[j]).1
        &&& forall|i: int| 0 <= i < q.len() ==> (#[trigger] q[i]).1 <= i
        &&& (head < q.len() ==> q[q.len() - 1].1 <= q[head].1 + 1)
        &&& forall|i: int, j: int|
            0 <= i < head && 0 <= j < self.adj_row(q[i].0 as int).len()
                ==> vis[(#[trigger] self.adj_row(q[i].0 as int)[j]) as int]
        &&& forall|i: int| 0 <= i < head ==> (#[trigger] q[i]).0 != destination
        &&& (head < q.len() ==> forall|v: usize|
            v < self.n() && #[trigger] self.connected_within(origin, v, q[head].1 as nat)
                ==> vis[v as int])
    }

    /// Marking an unvisited neighbor `w` of the front node and enqueueing it
    /// with distance `d + 1` preserves the search invariant.
    #[verifier::rlimit(100)]
    proof fn lemma_bfs_push(
        self,
        origin: usize,
        destination: usize,
        q0: Seq<(usize, usize)>,
        v0: Seq<bool>,
        head: int,
        cur: usize,
        d: usize,
        w: usize,
    )
        requires
            self.wf(),
            origin < self.n(),
            destination < self.n(),
            self.n() <= usize::MAX,
            self.bfs_inv(origin, destination, q0, v0, head),
            0 <= head < q0.len(),
            q0[head] == (cur, d),
            self.edge(cur, w),
            w < self.n(),
            !v0[w as int],
        ensures
            d + 1 <= q0.len(),
            q0.len() + 1 <= self.n(),
            self.bfs_inv(
                origin,
                destination,
                q0.push((w, (d + 1) as usize)),
                v0.update(w as int, true),
                head,
            ),
    {
        reveal(RoadNetwork::bfs_inv);
        let q = q0.push((w, (d + 1) as usize));
        let vis = v0.update(w as int, true);
        assert(q0[head].1 <= head);
        assert(d + 1 <= q0.len());
        assert forall|i: int, j: int| 0 <= i < j < q.len() implies (#[trigger] q[i]).0
            != (#[trigger] q[j]).0 by {
            if j == q0.len() {
                assert(v0[q0[i].0 as int]);
            }
        }
        lemma_distinct_nodes_bound(q, self.n());
        assert forall|v: usize| v < self.n() && vis[v as int] implies exists|i: int|
            0 <= i < q.len() && (#[trigger] q[i]).0 == v by {
            if v == w {
                assert(q[q0.len() as int].0 == v);
            } else {
                let i = choose|i: int| 0 <= i < q0.len() && (#[trigger] q0[i]).0 == v;
                assert(q[i].0 == v);
            }
        }
        assert(self.is_hop_distance(origin, w, (d + 1) as nat)) by {
            assert(self.connected_within(origin, cur, d as nat));
            self.lemma_connected_step(origin, cur, w, d as nat);
            if self.connected_within(origin, w, d as nat) {
                assert(self.connected_within(origin, w, q0[head].1 as nat));
                assert(v0[w as int]);
            }
        }
        assert forall|i: int, j: int| 0 <= i <= j < q.len() implies (#[trigger] q[i]).1
            <= (#[trigger] q[j]).1 by {
            if j < q0.len() {
                assert(q[i] == q0[i]);
                assert(q[j] == q0[j]);
                assert(q0[i].1 <= q0[j].1);
            } else if i < j {
                assert(q[j].1 == d + 1);
                assert(q[i] == q0[i]);
                assert(q0[i].1 <= q0[q0.len() - 1].1);
                assert(q0[q0.len() - 1].1 <= q0[head].1 + 1);
            }
        }
        assert forall|i: int, j: int|
            0 <= i < head && 0 <= j < self.adj_row(q[i].0 as int).len() implies vis[(
        #[trigger] self.adj_row(q[i].0 as int)[j]) as int] by {
            assert(q[i] == q0[i]);
            assert(v0[self.adj_row(q0[i].0 as int)[j] as int]);
        }
    }

    /// Once every neighbor of the front node, at distance `d` from `origin`,
    /// is marked, every node connected to `origin` within `d + 1` hops is
    /// marked: it is either a node at distance at most `d`, already popped or
    /// in front, or a neighbor of such a node.
    #[verifier::rlimit(100)]
    proof fn lemma_bfs_next_level_marked(
        self,
        origin: usize,
        destination: usize,
        q: Seq<(usize, usize)>,
        vis: Seq<bool>,
        head: int,
        cur: usize,
        d: usize,
        v: usize,
    )
        requires
            self.wf(),
            origin < self.n(),
            destination < self.n(),
            self.n() <= usize::MAX,
            self.bfs_inv(origin, destination, q, vis, head),
            0 <= head < q.len(),
            q[head] == (cur, d),
            forall|j: int|
                0 <= j < self.adj_row(cur as int).len()
                    ==> vis[(#[trigger] self.adj_row(cur as int)[j]) as int],
            head + 1 < q.len(),
            q[head + 1].1 == d + 1,
            v < self.n(),
            self.connected_within(origin, v, (d + 1) as nat),
        ensures
            vis[v as int],
    {
        if v == origin {
            assert(vis[v as int]) by {
                reveal(RoadNetwork::bfs_inv);
                assert(q[0].0 == origin);
            }
        } else {
            self.lemma_connected_within_sym(origin, v, (d + 1) as nat);
            let u = choose|u: usize|
                #[trigger] self.edge(v, u) && self.connected_within(u, origin, d as nat);
            self.lemma_connected_within_sym(u, origin, d as nat);
            assert(u < self.n() && self.edge(u, v)) by {
                let jj = choose|jj: int|
                    0 <= jj < self.adj_row(v as int).len() && self.adj_row(v as int)[jj] == u;
                assert(self.adj_row(v as int)[jj] < self.n());
            }
            assert(vis[u as int]) by {
                reveal(RoadNetwork::bfs_inv);
                assert(self.connected_within(origin, u, q[head].1 as nat));
            }
            assert(exists|i: int| 0 <= i <= head && (#[trigger] q[i]).0 == u) by {
                reveal(RoadNetwork::bfs_inv);
                let i = choose|i: int| 0 <= i < q.len() && (#[trigger] q[i]).0 == u;
                assert(q[i].1 <= d) by {
                    reveal(RoadNetwork::bfs_inv);
                    if q[i].1 > d {
                        assert(self.is_hop_distance(origin, u, q[i].1 as nat));
                        self.lemma_connected_within_mono(origin, u, d as nat, (q[i].1 - 1) as nat);
                    }
                }
                if i > head {
                    assert(q[head + 1].1 <= q[i].1);
                }
            }
            let i = choose|i: int| 0 <= i <= head && (#[trigger] q[i]).0 == u;
            let jj = choose|jj: int|
                0 <= jj < self.adj_row(u as int).len() && self.adj_row(u as int)[jj] == v;
            if i < head {
                assert(vis[v as int]) by {
                    reveal(RoadNetwork::bfs_inv);
                    assert(vis[self.adj_row(q[i].0 as int)[jj] as int]);
                }
            } else {
                assert(vis[v as int]) by {
                    reveal(RoadNetwork::bfs_inv);
                    assert(q[head].0 == u);
                    assert(vis[self.adj_row(cur as int)[jj] as int]);
                }
            }
        }
    }

    /// The frontier bound carries over to the next queue entry: with the
    /// front node's neighbors all marked, every node connected within the
    /// next entry's distance is marked.
    #[verifier::rlimit(100)]
    proof fn lemma_bfs_advance_key(
        self,
        origin: usize,
        destination: usize,
        q: Seq<(usize, usize)>,
        vis: Seq<bool>,
        head: int,
        cur: usize,
        d: usize,
    )
        requires
            self.wf(),
            origin < self.n(),
            destination < self.n(),
            self.n() <= usize::MAX,
            self.bfs_inv(origin, destination, q, vis, head),
            0 <= head < q.len(),
            q[head] == (cur, d),
            forall|j: int|
                0 <= j < self.adj_row(cur as int).len()
                    ==> vis[(#[trigger] self.adj_row(cur as int)[j]) as int],
            head + 1 < q.len(),
        ensures
            forall|v: usize|
                v < self.n() && #[trigger] self.connected_within(origin, v, q[head + 1].1 as nat)
                    ==> vis[v as int],
    {
        reveal(RoadNetwork::bfs_inv);
        let d2 = q[head + 1].1;
        assert(d <= d2 <= d + 1) by {
            assert(q[head].1 <= q[head + 1].1);
            assert(q[head + 1].1 <= q[q.len() - 1].1);
        }
        if d2 == d + 1 {
            assert forall|v: usize|
                v < self.n() && #[trigger] self.connected_within(origin, v, d2 as nat)
                    implies vis[v as int] by {
                assert(self.connected_within(origin, v, (d + 1) as nat));
                self.lemma_bfs_next_level_marked(origin, destination, q, vis, head, cur, d, v);
            }
        } else {
            assert forall|v: usize|
                v < self.n() && #[trigger] self.connected_within(origin, v, d2 as nat)
                    implies vis[v as int] by {
                assert(self.connected_within(origin, v, q[head].1 as nat));
            }
        }
    }

    /// Once every neighbor of the front node is marked, the front can move
    /// past it: nodes connected within the new front distance are all marked.
    #[verifier::rlimit(100)]
    proof fn lemma_bfs_advance(
        self,
        origin: usize,
        destination: usize,
        q: Seq<(usize, usize)>,
        vis: Seq<bool>,
        head: int,
        cur: usize,
        d: usize,
    )
        requires
            self.wf(),
            origin < self.n(),
            destination < self.n(),
            self.n() <= usize::MAX,
            self.bfs_inv(origin, destination, q, vis, head),
            0 <= head < q.len(),
            q[head] == (cur, d),
            cur != destination,
            forall|j: int|
                0 <= j < self.adj_row(cur as int).len()
                    ==> vis[(#[trigger] self.adj_row(cur as int)[j]) as int],
        ensures
            self.bfs_inv(origin, destination, q, vis, head + 1),
    {
        reveal(RoadNetwork::bfs_inv);
        assert forall|i: int, j: int|
            0 <= i < head + 1 && 0 <= j < self.adj_row(q[i].0 as int).len() implies vis[(
        #[trigger] self.adj_row(q[i].0 as int)[j]) as int] by {
            if i == head {
                assert(q[i].0 == cur);
            }
        }
        if head + 1 < q.len() {
            self.lemma_bfs_advance_key(origin, destination, q, vis, head, cur, d);
        }
    }

    /// Finds the shortest-hop distance from `origin` to `destination` by
    /// breadth-first search: `Some` of the exact distance when the pair is
    /// connected, `None` when no path joins it.
    #[verifier::rlimit(100)]
    pub fn shortest_hop_distance(&self, origin: usize, destination: usize) -> (r: Option<usize>)
        requires
            self.wf(),
            origin < self.n(),
            destination < self.n(),
        ensures
            self.hop_distance_is(origin, destination, r),
            origin == destination ==> r == Some(0usize),
            r matches Some(d) ==> (d as nat) < self.n(),
    {
        if origin == destination {
            proof {
                assert(self.connected_within(origin, destination, 0));
            }
            return Some(0);
        }
        let n = self.labels.len();
        let mut visited: Vec<bool> = Vec::new();
        let mut v: usize = 0;
        while v < n
            invariant
                v <= n,
                visited@.len() == v,
                forall|i: int| 0 <= i < v ==> !(#[trigger] visited@[i]),
            decreases n - v,
        {
            visited.push(false);
            v = v + 1;
        }
        visited[origin] = true;
        let mut queue: Vec<(usize, usize)> = Vec::new();
        queue.push((origin, 0));
        proof {
            reveal(RoadNetwork::bfs_inv);
            assert(queue@[0] == (origin, 0usize));
            assert(self.connected_within(origin, origin, 0));
            assert forall|x: usize| x < self.n() && visited@[x as int] implies exists|i: int|
                0 <= i < queue@.len() && (#[trigger] queue@[i]).0 == x by {
                assert(x == origin);
                assert(queue@[0].0 == x);
            }
            assert forall|x: usize|
                x < self.n() && #[trigger] self.connected_within(origin, x, queue@[0].1 as nat)
                    implies visited@[x as int] by {
                assert(queue@[0].1 == 0);
                if x != origin {
                    assert(!self.connected_within(origin, x, 0));
                }
            }
            assert(self.bfs_inv(origin, destination, queue@, visited@, 0));
        }
        let mut head: usize = 0;
        while head < queue.len()
            invariant
                self.wf(),
                origin < self.n(),
                destination < self.n(),
                origin != destination,
                n == self.n(),
                visited@.len() == n,
                head <= queue@.len() <= n,
                self.bfs_inv(origin, destination, queue@, visited@, head as int),
            decreases n - head,
        {
            let (cur, d) = queue[head];
            proof {
                reveal(RoadNetwork::bfs_inv);
                assert(cur < self.n());
                assert(d <= head);
            }
            if cur == destination {
                proof {
                    reveal(RoadNetwork::bfs_inv);
                    assert(self.is_hop_distance(origin, destination, d as nat));
                    assert(d <= head < queue@.len() <= n);
                }
                return Some(d);
            }
            let deg = self.adjacency[cur].len();
            let mut j: usize = 0;
            while j < deg
                invariant
                    self.wf(),
                    origin < self.n(),
                    destination < self.n(),
                    origin != destination,
                    n == self.n(),
                    visited@.len() == n,
                    (head as int) < queue@.len(),
                    queue@.len() <= n,
                    self.bfs_inv(origin, destination, queue@, visited@, head as int),
                    queue@[head as int] == (cur, d),
                    cur != destination,
                    cur < self.n(),
                    d <= head,
                    deg == self.adj_row(cur as int).len(),
                    j <= deg,
                    forall|jj: int|
                        0 <= jj < j ==> visited@[(#[trigger] self.adj_row(cur as int)[jj]) as int],
                decreases deg - j,
            {
                let w = self.adjacency[cur][j];
                proof {
                    assert(self.adj_row(cur as int)[j as int] == w);
                    assert(self.adj_row(cur as int).contains(w));
                    assert(self.edge(cur, w));
                    assert(w < self.n());
                }
                if !visited[w] {
                    proof {
                        self.lemma_bfs_push(
                            origin,
                            destination,
                            queue@,
                            visited@,
                            head as int,
                            cur,
                            d,
                            w,
                        );
                    }
                    visited[w] = true;
                    queue.push((w, d + 1));
                }
                j = j + 1;
            }
            proof {
                self.lemma_bfs_advance(
                    origin,
                    destination,
                    queue@,
                    visited@,
                    head as int,
                    cur,
                    d,
                );
            }
            head = head + 1;
        }
        proof {
            reveal(RoadNetwork::bfs_inv);
            assert forall|u: usize, w: usize|
                u < self.n() && visited@[u as int] && #[trigger] self.edge(u, w) implies w
                < self.n() && visited@[w as int] by {
                let i = choose|i: int| 0 <= i < queue@.len() && (#[trigger] queue@[i]).0 == u;
                let jj = choose|jj: int|
                    0 <= jj < self.adj_row(u as int).len() && self.adj_row(u as int)[jj] == w;
                assert(visited@[self.adj_row(queue@[i].0 as int)[jj] as int]);
                assert(self.adj_row(u as int)[jj] < self.n());
            }
            assert(!visited@[destination as int]) by {
                if visited@[destination as int] {
                    let i = choose|i: int|
                        0 <= i < queue@.len() && (#[trigger] queue@[i]).0 == destination;
                }
            }
            assert(!self.reachable(origin, destination)) by {
                if self.reachable(origin, destination) {
                    let k = choose|k: nat| self.connected_within(origin, destination, k);
                    assert(visited@[origin as int]) by {
                        assert(queue@[0].0 == origin);
                    }
                    self.lemma_closed_set_contains(visited@, origin, destination, k);
                }
            }
        }
        None
    }

    /// The number of ordered pairs `(a, b)` with `b < b_end` whose
    /// shortest-hop distance is exactly `d`.
    pub open spec fn pair_count_row(self, a: usize, b_end: int, d: nat) -> nat
        decreases b_end,
    {
        if b_end <= 0 {
            0
        } else {
            self.pair_count_row(a, b_end - 1, d) + if self.is_hop_distance(
                a,
                (b_end - 1) as usize,
                d,
            ) {
                1nat
            } else {
                0nat
            }
        }
    }

    /// The number of ordered pairs `(a, b)` with `a < a_end` and `b` any node
    /// whose shortest-hop distance is exactly `d`.
    pub open spec fn pair_count(self, a_end: int, d: nat) -> nat
        decreases a_end,
    {
        if a_end <= 0 {
            0
        } else {
            self.pair_count(a_end - 1, d) + self.pair_count_row(
                (a_end - 1) as usize,
                self.n() as int,
                d,
            )
        }
    }

    /// The number of ordered pairs `(a, b)` with `b < b_end` that are
    /// connected by some path.
    pub open spec fn reachable_count_row(self, a: usize, b_end: int) -> nat
        decreases b_end,
    {
        if b_end <= 0 {
            0
        } else {
            self.reachable_count_row(a, b_end - 1) + if self.reachable(a, (b_end - 1) as usize) {
                1nat
            } else {
                0nat
            }
        }
    }

    /// The number of ordered pairs `(a, b)` with `a < a_end` and `b` any node
    /// that are connected by some path.
    pub open spec fn reachable_count(self, a_end: int) -> nat
        decreases a_end,
    {
        if a_end <= 0 {
            0
        } else {
            self.reachable_count(a_end - 1) + self.reachable_count_row(
                (a_end - 1) as usize,
                self.n() as int,
            )
        }
    }

    /// The number of ordered pairs `(a, b)` with `b < b_end` that no path
    /// connects.
    pub open spec fn unreachable_count_row(self, a: usize, b_end: int) -> nat
        decreases b_end,
    {
        if b_end <= 0 {
            0
        } else {
            self.unreachable_count_row(a, b_end - 1) + if self.reachable(
                a,
                (b_end - 1) as usize,
            ) {
                0nat
            } else {
                1nat
            }
        }
    }

    /// The number of ordered pairs `(a, b)` with `a < a_end` and `b` any node
    /// that no path connects.
    pub open spec fn unreachable_count(self, a_end: int) -> nat
        decreases a_end,
    {
        if a_end <= 0 {
            0
        } else {
            self.unreachable_count(a_end - 1) + self.unreachable_count_row(
                (a_end - 1) as usize,
                self.n() as int,
            )
        }
    }

    /// Each pair of a row is connected or not: the two row counts split it.
    proof fn lemma_row_counts_split(self, a: usize, b_end: int)
        requires
            b_end >= 0,
        ensures
            self.reachable_count_row(a, b_end) + self.unreachable_count_row(a, b_end) == b_end,
        decreases b_end,
    {
        if b_end > 0 {
            self.lemma_row_counts_split(a, b_end - 1);
        }
    }

    /// The first `a_end` rows split into connected and unconnected pairs.
    proof fn lemma_counts_split(self, a_end: int)
        requires
            a_end >= 0,
        ensures
            self.reachable_count(a_end) + self.unreachable_count(a_end) == a_end * self.n(),
        decreases a_end,
    {
        if a_end > 0 {
            self.lemma_counts_split(a_end - 1);
            self.lemma_row_counts_split((a_end - 1) as usize, self.n() as int);
            assert(self.reachable_count(a_end) == self.reachable_count(a_end - 1)
                + self.reachable_count_row((a_end - 1) as usize, self.n() as int));
            assert(self.unreachable_count(a_end) == self.unreachable_count(a_end - 1)
                + self.unreachable_count_row((a_end - 1) as usize, self.n() as int));
            assert((a_end - 1) * self.n() + self.n() == a_end * self.n()) by (nonlinear_arith);
        } else {
            assert(self.reachable_count(a_end) == 0 && self.unreachable_count(a_end) == 0);
        }
    }

    /// Law: the histogram entries add up to the square of the node count
    /// minus the number of unreachable ordered pairs; self-pairs are always
    /// counted, and a connected graph reaches the full square.
    pub proof fn lemma_histogram_total(self, h: Seq<usize>)
        requires
            self.wf(),
            self.is_degree_histogram(h),
            crate::stats::sum_of(h) == self.reachable_count(self.n() as int),
        ensures
            crate::stats::sum_of(h) + self.unreachable_count(self.n() as int) == self.n()
                * self.n(),
    {
        self.lemma_counts_split(self.n() as int);
    }

    /// `h` is the degrees-of-separation histogram of this graph: one entry
    /// per distance `0 ..= n`, counting the ordered node pairs, self-pairs
    /// included, at exactly that distance.
    pub open spec fn is_degree_histogram(self, h: Seq<usize>) -> bool {
        &&& h.len() == self.n() + 1
        &&& forall|d: int|
            0 <= d <= self.n() ==> #[trigger] h[d] == self.pair_count(self.n() as int, d as nat)
    }

    /// At most `b_end` pairs stand in a row prefix of length `b_end`.
    proof fn lemma_pair_count_row_bound(self, a: usize, b_end: int, d: nat)
        requires
            b_end >= 0,
        ensures
            self.pair_count_row(a, b_end, d) <= b_end,
        decreases b_end,
    {
        if b_end > 0 {
            self.lemma_pair_count_row_bound(a, b_end - 1, d);
        }
    }

    /// At most `a_end * n` pairs stand in the first `a_end` rows.
    proof fn lemma_pair_count_bound(self, a_end: int, d: nat)
        requires
            a_end >= 0,
        ensures
            self.pair_count(a_end, d) <= a_end * self.n(),
        decreases a_end,
    {
        if a_end > 0 {
            self.lemma_pair_count_bound(a_end - 1, d);
            self.lemma_pair_count_row_bound((a_end - 1) as usize, self.n() as int, d);
            assert((a_end - 1) * self.n() + self.n() == a_end * self.n()) by (nonlinear_arith);
        }
    }

    /// Computes the degrees-of-separation histogram: for every ordered pair
    /// of nodes, self-pairs included, the shortest-hop distance is measured
    /// by one breadth-first search, and entry `d` of the result counts the
    /// pairs at distance exactly `d`. Unreachable pairs contribute nothing,
    /// so the entries add up to the number of connected ordered pairs. The
    /// histogram is sized `n + 1` although no distance can exceed `n - 1`.
    pub fn evaluate_degrees(&self) -> (hist: Vec<usize>)
        requires
            self.wf(),
            self.n() * self.n() <= usize::MAX,
        ensures
            self.is_degree_histogram(hist@),
            crate::stats::sum_of(hist@) == self.reachable_count(self.n() as int),
    {
        let n = self.labels.len();
        proof {
            if n >= 2 {
                assert(n * n >= n + 1) by (nonlinear_arith)
                    requires
                        n >= 2,
                ;
            }
        }
        let mut hist: Vec<usize> = Vec::new();
        let mut k: usize = 0;
        while k < n + 1
            invariant
                n + 1 <= usize::MAX,
                k <= n + 1,
                hist@.len() == k,
                forall|j: int| 0 <= j < k ==> (#[trigger] hist@[j]) == 0,
            decreases n + 1 - k,
        {
            hist.push(0);
            k = k + 1;
        }
        proof {
            crate::stats::lemma_sum_to_zero(hist@, hist@.len() as int);
        }
        let mut a: usize = 0;
        while a < n
            invariant
                self.wf(),
                n == self.n(),
                self.n() * self.n() <= usize::MAX,
                a <= n,
                hist@.len() == n + 1,
                forall|dd: int|
                    0 <= dd <= n ==> (#[trigger] hist@[dd]) == self.pair_count(a as int, dd as nat),
                crate::stats::sum_of(hist@) == self.reachable_count(a as int),
            decreases n - a,
        {
            let mut b: usize = 0;
            while b < n
                invariant
                    self.wf(),
                    n == self.n(),
                    self.n() * self.n() <= usize::MAX,
                    a < n,
                    b <= n,
                    hist@.len() == n + 1,
                    forall|dd: int|
                        0 <= dd <= n ==> (#[trigger] hist@[dd]) == self.pair_count(a as int, dd as nat)
                            + self.pair_count_row(a, b as int, dd as nat),
                    crate::stats::sum_of(hist@) == self.reachable_count(a as int)
                        + self.reachable_count_row(a, b as int),
                decreases n - b,
            {
                let separation = self.shortest_hop_distance(a, b);
                let ghost h0 = hist@;
                match separation {
                    Some(dist) => {
                        proof {
                            assert(self.is_hop_distance(a, b, dist as nat));
                            self.lemma_pair_count_bound(a as int, dist as nat);
                            self.lemma_pair_count_row_bound(a, b as int, dist as nat);
                            assert(a * self.n() + b < self.n() * self.n()) by (nonlinear_arith)
                                requires
                                    a < self.n(),
                                    b < self.n(),
                            ;
                        }
                        let c = hist[dist];
                        hist[dist] = c + 1;
                        proof {
                            assert(self.reachable(a, b)) by {
                                assert(self.connected_within(a, b, dist as nat));
                            }
                            crate::stats::lemma_sum_to_update(h0, h0.len() as int, dist as int, (c
                                + 1) as usize);
                            assert forall|dd: int| 0 <= dd <= n implies (#[trigger] hist@[dd])
                                == self.pair_count(a as int, dd as nat) + self.pair_count_row(
                                a,
                                b as int + 1,
                                dd as nat,
                            ) by {
                                if dd == dist {
                                    assert(hist@[dd] == h0[dd] + 1);
                                } else {
                                    assert(hist@[dd] == h0[dd]);
                                    if self.is_hop_distance(a, b, dd as nat) {
                                        self.lemma_hop_distance_unique(a, b, dd as nat, dist as nat);
                                    }
                                }
                            }
                        }
                    },
                    None => {
                        proof {
                            assert forall|dd: int| 0 <= dd <= n implies (#[trigger] hist@[dd])
                                == self.pair_count(a as int, dd as nat) + self.pair_count_row(
                                a,
                                b as int + 1,
                                dd as nat,
                            ) by {
                                if self.is_hop_distance(a, b, dd as nat) {
                                    assert(self.connected_within(a, b, dd as nat));
                                    assert(self.reachable(a, b));
                                }
                            }
                        }
                    },
                }
                b = b + 1;
            }
            a = a + 1;
        }
        hist
    }

    /// Law: a shortest-hop-distance query is symmetric. Whatever outcome is
    /// valid for the pair `(x, y)` is the one valid for `(y, x)`, because
    /// every path in the undirected graph runs both ways; in particular the
    /// outcome for a pair is unique, so two queries over the same unmutated
    /// graph agree.
    pub proof fn lemma_distance_symmetric(
        self,
        x: usize,
        y: usize,
        rxy: Option<usize>,
        ryx: Option<usize>,
    )
        requires
            self.wf(),
            self.hop_distance_is(x, y, rxy),
            self.hop_distance_is(y, x, ryx),
        ensures
            rxy == ryx,
    {
        match (rxy, ryx) {
            (Some(d1), Some(d2)) => {
                self.lemma_connected_within_sym(x, y, d1 as nat);
                if d1 > 0 && self.connected_within(y, x, (d1 - 1) as nat) {
                    self.lemma_connected_within_sym(y, x, (d1 - 1) as nat);
                }
                assert(self.is_hop_distance(y, x, d1 as nat));
                self.lemma_hop_distance_unique(y, x, d1 as nat, d2 as nat);
            },
            (Some(d1), None) => {
                self.lemma_connected_within_sym(x, y, d1 as nat);
                assert(self.connected_within(y, x, d1 as nat));
            },
            (None, Some(d2)) => {
                self.lemma_connected_within_sym(y, x, d2 as nat);
                assert(self.connected_within(x, y, d2 as nat));
            },
            (None, None) => {},
        }
    }

    /// Law: the triangle inequality. When `(x, y)` and `(y, z)` are both
    /// connected, `(x, z)` is connected too and its distance is at most the
    /// sum of the two.
    pub proof fn lemma_triangle_inequality(
        self,
        x: usize,
        y: usize,
        z: usize,
        dxy: usize,
        dyz: usize,
        rxz: Option<usize>,
    )
        requires
            self.wf(),
            self.hop_distance_is(x, y, Some(dxy)),
            self.hop_distance_is(y, z, Some(dyz)),
            self.hop_distance_is(x, z, rxz),
        ensures
            rxz matches Some(dxz) && dxz <= dxy + dyz,
    {
        self.lemma_connected_concat(x, y, z, dxy as nat, dyz as nat);
        match rxz {
            Some(dxz) => {
                if dxz > dxy + dyz {
                    self.lemma_connected_within_mono(x, z, (dxy + dyz) as nat, (dxz - 1) as nat);
                }
            },
            None => {
                assert(self.connected_within(x, z, (dxy + dyz) as nat));
            },
        }
    }

    /// Law: the degrees-of-separation histogram is a function of the graph
    /// alone, so evaluating the same unmutated graph twice yields identical
    /// histograms.
    pub proof fn lemma_degrees_deterministic(self, h1: Seq<usize>, h2: Seq<usize>)
        requires
            self.is_degree_histogram(h1),
            self.is_degree_histogram(h2),
        ensures
            h1 == h2,
    {
        assert forall|d: int| 0 <= d < h1.len() implies h1[d] == h2[d] by {}
        assert(h1 =~= h2);
    }

    /// Every pair in a full row prefix counts when `a` reaches every node.
    proof fn lemma_reachable_count_full_row(self, a: usize, b_end: int)
        requires
            self.n() <= usize::MAX,
            0 <= b_end <= self.n(),
            forall|y: usize| y < self.n() ==> #[trigger] self.reachable(a, y),
        ensures
            self.reachable_count_row(a, b_end) == b_end,
        decreases b_end,
    {
        if b_end > 0 {
            self.lemma_reachable_count_full_row(a, b_end - 1);
            assert(self.reachable(a, (b_end - 1) as usize));
        }
    }

    /// Every pair in the first `a_end` rows counts when all pairs reach.
    proof fn lemma_reachable_count_full(self, a_end: int)
        requires
            self.n() <= usize::MAX,
            0 <= a_end <= self.n(),
            forall|x: usize, y: usize|
                x < self.n() && y < self.n() ==> #[trigger] self.reachable(x, y),
        ensures
            self.reachable_count(a_end) == a_end * self.n(),
        decreases a_end,
    {
        if a_end > 0 {
            self.lemma_reachable_count_full(a_end - 1);
            self.lemma_reachable_count_full_row((a_end - 1) as usize, self.n() as int);
            assert(self.reachable_count(a_end) == self.reachable_count(a_end - 1)
                + self.reachable_count_row((a_end - 1) as usize, self.n() as int));
            assert(self.reachable_count_row((a_end - 1) as usize, self.n() as int) == self.n());
            assert(self.reachable_count(a_end - 1) == (a_end - 1) * self.n());
            assert((a_end - 1) * self.n() + self.n() == a_end * self.n()) by (nonlinear_arith);
        } else {
            assert(self.reachable_count(a_end) == 0);
        }
    }

    /// Law: the histogram entries add up to the number of connected ordered
    /// pairs, which is the square of the node count whenever every ordered
    /// pair is connected; each unreachable pair reduces the total by one.
    pub proof fn lemma_histogram_total_connected(self, h: Seq<usize>)
        requires
            self.n() <= usize::MAX,
            self.wf(),
            self.is_degree_histogram(h),
            crate::stats::sum_of(h) == self.reachable_count(self.n() as int),
            forall|x: usize, y: usize|
                x < self.n() && y < self.n() ==> #[trigger] self.reachable(x, y),
        ensures
            crate::stats::sum_of(h) == self.n() * self.n(),
    {
        self.lemma_reachable_count_full(self.n() as int);
    }

    /// A set of nodes that contains `a` and is closed under the edge relation
    /// contains everything connected to `a`.
    proof fn lemma_closed_set_contains(self, marked: Seq<bool>, a: usize, b: usize, k: nat)
        requires
            marked.len() == self.n(),
            a < self.n(),
            marked[a as int],
            forall|u: usize, w: usize|
                u < self.n() && marked[u as int] && #[trigger] self.edge(u, w)
                    ==> w < self.n() && marked[w as int],
            self.connected_within(a, b, k),
        ensures
            b < self.n() && marked[b as int],
        decreases k,
    {
        if a != b {
            let w = choose|w: usize|
                #[trigger] self.edge(a, w) && self.connected_within(w, b, (k - 1) as nat);
            self.lemma_closed_set_contains(marked, w, b, (k - 1) as nat);
        }
    }
}

/// A sequence of pairs whose first components are distinct node handles below
/// `n` has at most `n` entries.
proof fn lemma_distinct_nodes_bound(q: Seq<(usize, usize)>, n: nat)
    requires
        forall|i: int, j: int|
            0 <= i < j < q.len() ==> (#[trigger] q[i]).0 != (#[trigger] q[j]).0,
        forall|i: int| 0 <= i < q.len() ==> (#[trigger] q[i]).0 < n,
    ensures
        q.len() <= n,
{
    let s = q.map_values(|p: (usize, usize)| p.0 as int);
    assert(s.no_duplicates()) by {
        assert forall|i: int, j: int| 0 <= i < s.len() && 0 <= j < s.len() && i != j implies s[i]
            != s[j] by {
            assert(s[i] == q[i].0 as int && s[j] == q[j].0 as int);
        }
    }
    s.unique_seq_to_set();
    let r = vstd::set_lib::set_int_range(0, n as int);
    vstd::set_lib::lemma_int_range(0, n as int);
    assert(s.to_set().subset_of(r)) by {
        assert forall|x: int| s.to_set().contains(x) implies r.contains(x) by {
            let i = choose|i: int| 0 <= i < s.len() && s[i] == x;
            assert(s[i] == q[i].0 as int);
        }
    }
    vstd::set_lib::lemma_len_subset(s.to_set(), r);
}

} // verus!

