//! Undirected connectivity graph over small integer node handles.
//!
//! Nodes live in a contiguous arena; an adjacency list per node keeps the
//! edges, duplicate-free and symmetric.  Reachability is specified through
//! explicit paths, and the breadth-first search both proves which nodes are
//! reachable and leaves a parent tree from which shortest routes are
//! reconstructed.

use vstd::prelude::*;
use vstd::set_lib::lemma_int_range;
use vstd::set_lib::lemma_len_subset;
use vstd::set_lib::set_int_range;

verus! {

pub struct RouteGraph {
    adj: Vec<Vec<u32>>,
}

impl RouteGraph {
    /// Number of nodes in the arena.
    pub closed spec fn node_count(self) -> int {
        self.adj@.len() as int
    }

    pub open spec fn in_range(self, n: int) -> bool {
        0 <= n < self.node_count()
    }

    /// Undirected adjacency: `b` occurs in `a`'s list.
    pub closed spec fn has_edge(self, a: int, b: int) -> bool {
        &&& self.in_range(a)
        &&& self.in_range(b)
        &&& self.adj@[a]@.contains(b as u32)
    }

    /// Number of neighbours of `n`; with the well-formedness below this is
    /// the undirected degree.
    pub closed spec fn degree(self, n: int) -> int {
        self.adj@[n]@.len() as int
    }

    /// Adjacency lists hold in-range nodes, no duplicates, no self loops,
    /// and are symmetric.
    pub closed spec fn wf(self) -> bool {
        &&& self.node_count() <= 0xffff_ffff
        &&& forall|i: int, k: int|
            0 <= i < self.node_count() && 0 <= k < self.adj@[i]@.len()
                ==> self.in_range(#[trigger] self.adj@[i]@[k] as int)
        &&& forall|i: int, k1: int, k2: int|
            0 <= i < self.node_count() && 0 <= k1 < k2 < self.adj@[i]@.len()
                ==> #[trigger] self.adj@[i]@[k1] != #[trigger] self.adj@[i]@[k2]
        &&& forall|a: int, b: int| #[trigger] self.has_edge(a, b) ==> self.has_edge(b, a)
        &&& forall|a: int| !#[trigger] self.has_edge(a, a)
    }

    pub fn new() -> (g: RouteGraph)
        ensures
            g.node_count() == 0,
            g.wf(),
            forall|a: int, b: int| !g.has_edge(a, b),
    {
        let g = RouteGraph { adj: Vec::new() };
        proof {
            assert(forall|a: int, b: int| !g.has_edge(a, b));
        }
        g
    }

    pub fn len(&self) -> (n: usize)
        ensures
            n as int == self.node_count(),
    {
        self.adj.len()
    }

    /// Allocates a fresh, isolated node and returns its handle.
    pub fn add_node(&mut self) -> (n: u32)
        requires
            old(self).wf(),
            old(self).node_count() < 0xffff_ffff,
        ensures
            final(self).wf(),
            n as int == old(self).node_count(),
            final(self).node_count() == old(self).node_count() + 1,
            forall|a: int, b: int|
                #[trigger] final(self).has_edge(a, b) <==> old(self).has_edge(a, b),
            forall|i: int|
                old(self).in_range(i) ==> final(self).degree(i) == old(self).degree(i),
            final(self).degree(n as int) == 0,
    {
        let n = self.adj.len() as u32;
        self.adj.push(Vec::new());
        proof {
            assert forall|a: int, b: int|
                #[trigger] self.has_edge(a, b) <==> old(self).has_edge(a, b) by {
                if 0 <= a < old(self).node_count() {
                    assert(self.adj@[a] == old(self).adj@[a]);
                }
                if a == old(self).node_count() {
                    assert(self.adj@[a]@.len() == 0);
                }
            }
        }
        n
    }

    /// Adds the undirected edge `a - b`; a no-op when it is already present.
    pub fn add_edge(&mut self, a: u32, b: u32)
        requires
            old(self).wf(),
            old(self).in_range(a as int),
            old(self).in_range(b as int),
            a != b,
        ensures
            final(self).wf(),
            final(self).node_count() == old(self).node_count(),
            forall|x: int, y: int|
                #[trigger] final(self).has_edge(x, y) <==> old(self).has_edge(x, y) || (x == a && y
                    == b) || (x == b && y == a),
            old(self).has_edge(a as int, b as int) ==> *final(self) == *old(self),
            forall|i: int|
                old(self).in_range(i) && i != a && i != b ==> final(self).degree(i) == old(
                    self,
                ).degree(i),
            !old(self).has_edge(a as int, b as int) ==> final(self).degree(a as int) == old(
                self,
            ).degree(a as int) + 1 && final(self).degree(b as int) == old(self).degree(b as int)
                + 1,
    {
        let ai = a as usize;
        let bi = b as usize;
        let present = contains_u32(&self.adj[ai], b);
        proof {
            if present {
                assert(old(self).has_edge(a as int, b as int));
                assert(old(self).has_edge(b as int, a as int));
            }
        }
        if !present {
            self.adj[ai].push(b);
            self.adj[bi].push(a);
            proof {
                let g0 = *old(self);
                assert(self.adj@[a as int]@ == g0.adj@[a as int]@.push(b));
                assert(self.adj@[b as int]@ == g0.adj@[b as int]@.push(a));
                assert forall|x: int, y: int|
                    #[trigger] self.has_edge(x, y) <==> g0.has_edge(x, y) || (x == a && y == b) || (
                    x == b && y == a) by {
                    lemma_push_contains(g0.adj@[a as int]@, b);
                    lemma_push_contains(g0.adj@[b as int]@, a);
                    if 0 <= x < self.node_count() && x != a && x != b {
                        assert(self.adj@[x] == g0.adj@[x]);
                    }
                }
                assert forall|i: int, k: int|
                    0 <= i < self.node_count() && 0 <= k < self.adj@[i]@.len() implies self.in_range(
                    #[trigger] self.adj@[i]@[k] as int,
                ) by {
                    if i == a as int && k == self.adj@[i]@.len() - 1 {
                        assert(self.adj@[i]@[k] == b);
                    } else if i == b as int && k == self.adj@[i]@.len() - 1 {
                        assert(self.adj@[i]@[k] == a);
                    } else if i == a as int || i == b as int {
                        assert(self.adj@[i]@[k] == g0.adj@[i]@[k]);
                    } else {
                        assert(self.adj@[i]@ == g0.adj@[i]@);
                    }
                }
                assert forall|i: int, k1: int, k2: int|
                    0 <= i < self.node_count() && 0 <= k1 < k2 < self.adj@[i]@.len() implies #[trigger] self.adj@[i]@[k1]
                    != #[trigger] self.adj@[i]@[k2] by {
                    if i == a as int {
                        if k2 == self.adj@[i]@.len() - 1 {
                            assert(self.adj@[i]@[k2] == b);
                            assert(!g0.adj@[a as int]@.contains(b));
                            assert(self.adj@[i]@[k1] == g0.adj@[i]@[k1]);
                        } else {
                            assert(self.adj@[i]@[k1] == g0.adj@[i]@[k1]);
                            assert(self.adj@[i]@[k2] == g0.adj@[i]@[k2]);
                        }
                    } else if i == b as int {
                        if k2 == self.adj@[i]@.len() - 1 {
                            assert(self.adj@[i]@[k2] == a);
                            assert(!g0.has_edge(b as int, a as int));
                            assert(!g0.adj@[b as int]@.contains(a));
                            assert(self.adj@[i]@[k1] == g0.adj@[i]@[k1]);
                        } else {
                            assert(self.adj@[i]@[k1] == g0.adj@[i]@[k1]);
                            assert(self.adj@[i]@[k2] == g0.adj@[i]@[k2]);
                        }
                    } else {
                        assert(self.adj@[i]@ == g0.adj@[i]@);
                    }
                }
            }
        }
    }

    /// Undirected degree of a node.
    pub fn degree_of(&self, n: u32) -> (d: usize)
        requires
            self.in_range(n as int),
        ensures
            d as int == self.degree(n as int),
    {
        self.adj[n as usize].len()
    }
}

proof fn lemma_push_contains(s: Seq<u32>, e: u32)
    ensures
        forall|x: u32| #[trigger] s.push(e).contains(x) <==> s.contains(x) || x == e,
{
    assert forall|x: u32| #[trigger] s.push(e).contains(x) <==> s.contains(x) || x == e by {
        if s.push(e).contains(x) {
            let k = choose|k: int| 0 <= k < s.push(e).len() && s.push(e)[k] == x;
            if k < s.len() {
                assert(s[k] == x);
            }
        }
        if s.contains(x) {
            let k = choose|k: int| 0 <= k < s.len() && s[k] == x;
            assert(s.push(e)[k] == x);
        }
        if x == e {
            assert(s.push(e)[s.len() as int] == x);
        }
    }
}

fn contains_u32(v: &Vec<u32>, x: u32) -> (r: bool)
    ensures
        r == v@.contains(x),
{
    let mut i: usize = 0;
    while i < v.len()
        invariant
            i <= v@.len(),
            forall|k: int| 0 <= k < i ==> v@[k] != x,
        decreases v@.len() - i,
    {
        if v[i] == x {
            return true;
        }
        i = i + 1;
    }
    false
}

/// `p` is a walk through `g`: non-empty, every node in range, consecutive
/// nodes joined by an edge.
pub open spec fn is_path(g: RouteGraph, p: Seq<int>) -> bool {
    &&& p.len() >= 1
    &&& forall|i: int| 0 <= i < p.len() ==> g.in_range(#[trigger] p[i])
    &&& forall|i: int| 0 <= i < p.len() - 1 ==> g.has_edge(#[trigger] p[i], p[i + 1])
}

/// `b` can be reached from `a` along existing edges.
pub open spec fn reachable(g: RouteGraph, a: int, b: int) -> bool {
    exists|p: Seq<int>| is_path(g, p) && p.first() == a && p.last() == b
}

pub proof fn lemma_reachable_refl(g: RouteGraph, a: int)
    requires
        g.in_range(a),
    ensures
        reachable(g, a, a),
{
    let p: Seq<int> = seq![a];
    assert(is_path(g, p) && p.first() == a && p.last() == a);
}

pub proof fn lemma_reachable_step(g: RouteGraph, a: int, b: int, c: int)
    requires
        reachable(g, a, b),
        g.has_edge(b, c),
    ensures
        reachable(g, a, c),
{
    let p = choose|p: Seq<int>| is_path(g, p) && p.first() == a && p.last() == b;
    let q = p.push(c);
    assert forall|i: int| 0 <= i < q.len() - 1 implies g.has_edge(#[trigger] q[i], q[i + 1]) by {
        if i == p.len() - 1 {
            assert(q[i] == b && q[i + 1] == c);
        }
    }
    assert(is_path(g, q) && q.first() == a && q.last() == c);
}

/// Any set of nodes that contains the start of a path and is closed under
/// the graph's edges contains the path's end.
proof fn lemma_closed_under_edges(g: RouteGraph, visited: Seq<bool>, p: Seq<int>)
    requires
        visited.len() == g.node_count(),
        is_path(g, p),
        visited[p.first()],
        forall|a: int, b: int|
            g.in_range(a) && visited[a] && #[trigger] g.has_edge(a, b) ==> visited[b],
    ensures
        visited[p.last()],
    decreases p.len(),
{
    if p.len() > 1 {
        let q = p.subrange(1, p.len() as int);
        assert(g.has_edge(p[0], p[1]));
        assert(visited[q.first()]);
        assert forall|i: int| 0 <= i < q.len() - 1 implies g.has_edge(#[trigger] q[i], q[i + 1]) by {
            assert(q[i] == p[i + 1] && q[i + 1] == p[i + 2]);
        }
        lemma_closed_under_edges(g, visited, q);
    }
}

/// A duplicate-free sequence of handles below `n` has at most `n` entries.
proof fn lemma_distinct_bounded_len(q: Seq<u32>, n: int)
    requires
        q.no_duplicates(),
        forall|i: int| 0 <= i < q.len() ==> (#[trigger] q[i] as int) < n,
        n >= 0,
    ensures
        q.len() <= n,
{
    let qi = q.map_values(|x: u32| x as int);
    assert(qi.no_duplicates()) by {
        assert forall|i: int, j: int|
            0 <= i < qi.len() && 0 <= j < qi.len() && i != j implies qi[i] != qi[j] by {
            assert(q[i] != q[j]);
        }
    }
    qi.unique_seq_to_set();
    assert(qi.to_set().subset_of(set_int_range(0, n))) by {
        assert forall|x: int| qi.to_set().contains(x) implies set_int_range(0, n).contains(x) by {
            let i = choose|i: int| 0 <= i < qi.len() && qi[i] == x;
            assert((q[i] as int) < n);
        }
    }
    lemma_int_range(0, n);
    lemma_len_subset(qi.to_set(), set_int_range(0, n));
}

/// When every queued node has been processed (its whole neighbourhood is
/// marked), the marked set is closed under edges and therefore holds every
/// reachable node.
proof fn lemma_bfs_complete(g: RouteGraph, queue: Seq<u32>, visited: Seq<bool>, src: int)
    requires
        g.wf(),
        visited.len() == g.node_count(),
        g.in_range(src),
        visited[src],
        forall|v: int| g.in_range(v) && #[trigger] visited[v] ==> queue.contains(v as u32),
        forall|i: int, b: int|
            0 <= i < queue.len() && #[trigger] g.has_edge(queue[i] as int, b) ==> visited[b],
    ensures
        forall|v: int| g.in_range(v) && reachable(g, src, v) ==> #[trigger] visited[v],
{
    assert forall|v: int| g.in_range(v) && reachable(g, src, v) implies #[trigger] visited[v] by {
        let p = choose|p: Seq<int>| is_path(g, p) && p.first() == src && p.last() == v;
        assert forall|a: int, b: int|
            g.in_range(a) && visited[a] && #[trigger] g.has_edge(a, b) implies visited[b] by {
            let i = choose|i: int| 0 <= i < queue.len() && queue[i] == a as u32;
            assert(g.has_edge(queue[i] as int, b));
        }
        lemma_closed_under_edges(g, visited, p);
    }
}

/// With the source at distance zero and every edge out of the visited
/// region raising the recorded distance by at most one, that distance is a
/// lower bound: no walk from the source reaches a node in fewer steps.
pub proof fn lemma_distances_minimal(
    g: RouteGraph,
    visited: Seq<bool>,
    dist: Seq<u64>,
    src: int,
    p: Seq<int>,
)
    requires
        visited.len() == g.node_count(),
        dist.len() == g.node_count(),
        g.in_range(src),
        visited[src],
        dist[src] == 0,
        forall|a: int, b: int|
            g.in_range(a) && visited[a] && #[trigger] g.has_edge(a, b) ==> visited[b] && dist[b]
                <= dist[a] + 1,
        is_path(g, p),
        p.first() == src,
    ensures
        visited[p.last()],
        dist[p.last()] <= p.len() - 1,
    decreases p.len(),
{
    if p.len() > 1 {
        let q = p.drop_last();
        assert forall|i: int| 0 <= i < q.len() - 1 implies g.has_edge(
            #[trigger] q[i],
            q[i + 1],
        ) by {
            assert(g.has_edge(p[i], p[i + 1]));
        }
        assert(is_path(g, q));
        lemma_distances_minimal(g, visited, dist, src, q);
        assert(g.has_edge(p[p.len() - 2], p[p.len() - 1]));
        assert(q.last() == p[p.len() - 2]);
    }
}

/// The parent tree a search leaves behind: every visited node other than the
/// source has a visited parent one edge away and one step closer to the
/// source.
pub open spec fn bfs_tree_ok(
    g: RouteGraph,
    src: int,
    visited: Seq<bool>,
    parent: Seq<u32>,
    dist: Seq<u64>,
) -> bool {
    &&& visited.len() == g.node_count()
    &&& parent.len() == g.node_count()
    &&& dist.len() == g.node_count()
    &&& g.in_range(src)
    &&& visited[src]
    &&& dist[src] == 0
    &&& forall|v: int|
        g.in_range(v) && #[trigger] visited[v] ==> dist[v] <= g.node_count()
    &&& forall|v: int|
        g.in_range(v) && #[trigger] visited[v] && v != src ==> {
            &&& g.in_range(parent[v] as int)
            &&& visited[parent[v] as int]
            &&& g.has_edge(parent[v] as int, v)
            &&& dist[parent[v] as int] + 1 == dist[v]
        }
}

fn filled<T: Copy>(n: usize, val: T) -> (v: Vec<T>)
    ensures
        v@.len() == n,
        forall|i: int| 0 <= i < n ==> v@[i] == val,
{
    let mut v: Vec<T> = Vec::new();
    let mut i: usize = 0;
    while i < n
        invariant
            i <= n,
            v@.len() == i,
            forall|k: int| 0 <= k < i ==> v@[k] == val,
        decreases n - i,
    {
        v.push(val);
        i = i + 1;
    }
    v
}

impl RouteGraph {
    /// Breadth-first search from `src`.  The returned `visited` vector marks
    /// exactly the reachable nodes; `parent` and `dist` form a tree along
    /// which paths back to `src` can be walked.
    #[verifier::rlimit(100)]
    #[verifier::spinoff_prover]
    pub fn bfs(&self, src: u32) -> (res: (Vec<bool>, Vec<u32>, Vec<u64>))
        requires
            self.wf(),
            self.in_range(src as int),
        ensures
            forall|v: int|
                self.in_range(v) ==> (#[trigger] res.0@[v] <==> reachable(*self, src as int, v)),
            bfs_tree_ok(*self, src as int, res.0@, res.1@, res.2@),
            forall|a: int, b: int|
                self.in_range(a) && res.0@[a] && #[trigger] self.has_edge(a, b) ==> res.0@[b]
                    && res.2@[b] <= res.2@[a] + 1,
    {
        let n = self.adj.len();
        let mut visited: Vec<bool> = filled(n, false);
        let mut parent: Vec<u32> = filled(n, 0u32);
        let mut dist: Vec<u64> = filled(n, 0u64);
        let mut queue: Vec<u32> = Vec::new();
        let mut head: usize = 0;

        visited[src as usize] = true;
        queue.push(src);
        proof {
            lemma_reachable_refl(*self, src as int);
            assert(queue@[0] == src);
            assert forall|v: int|
                self.in_range(v) && #[trigger] visited@[v] implies queue@.contains(v as u32) by {
                assert(v == src as int);
                assert(queue@[0] == v as u32);
            }
        }

        while head < queue.len()
            invariant
                self.wf(),
                self.in_range(src as int),
                n as int == self.node_count(),
                head <= queue@.len(),
                visited@.len() == n,
                parent@.len() == n,
                dist@.len() == n,
                visited@[src as int],
                dist@[src as int] == 0,
                queue@.no_duplicates(),
                forall|i: int|
                    0 <= i < queue@.len() ==> self.in_range(#[trigger] queue@[i] as int)
                        && visited@[queue@[i] as int],
                forall|v: int|
                    self.in_range(v) && #[trigger] visited@[v] ==> queue@.contains(v as u32),
                forall|v: int|
                    self.in_range(v) && #[trigger] visited@[v] ==> reachable(
                        *self,
                        src as int,
                        v,
                    ),
                forall|v: int|
                    self.in_range(v) && #[trigger] visited@[v] ==> dist@[v] <= queue@.len(),
                forall|v: int|
                    self.in_range(v) && #[trigger] visited@[v] && v != src ==> {
                        &&& self.in_range(parent@[v] as int)
                        &&& visited@[parent@[v] as int]
                        &&& self.has_edge(parent@[v] as int, v)
                        &&& dist@[parent@[v] as int] + 1 == dist@[v]
                    },
                forall|i: int, j: int|
                    0 <= i < j < queue@.len() ==> dist@[#[trigger] queue@[i] as int] <= dist@[
                        #[trigger] queue@[j] as int],
                head < queue@.len() ==> dist@[queue@[queue@.len() - 1] as int] <= dist@[queue@[
                    head as int] as int] + 1,
                forall|i: int, b: int|
                    0 <= i < head && #[trigger] self.has_edge(queue@[i] as int, b) ==> visited@[b]
                        && dist@[b] <= dist@[queue@[i] as int] + 1,
            decreases n - head,
        {
            proof {
                lemma_distinct_bounded_len(queue@, n as int);
            }
            let v = queue[head];
            let dv = dist[v as usize];
            let row_len = self.adj[v as usize].len();
            let mut k: usize = 0;
            while k < row_len
                invariant
                    self.wf(),
                    self.in_range(src as int),
                    n as int == self.node_count(),
                    self.in_range(v as int),
                    head < queue@.len(),
                    queue@[head as int] == v,
                    dv == dist@[v as int],
                    k <= row_len,
                    row_len == self.adj@[v as int]@.len(),
                    visited@.len() == n,
                    parent@.len() == n,
                    dist@.len() == n,
                    visited@[src as int],
                    visited@[v as int],
                    dist@[src as int] == 0,
                    queue@.no_duplicates(),
                    forall|i: int|
                        0 <= i < queue@.len() ==> self.in_range(#[trigger] queue@[i] as int)
                            && visited@[queue@[i] as int],
                    forall|w: int|
                        self.in_range(w) && #[trigger] visited@[w] ==> queue@.contains(w as u32),
                    forall|w: int|
                        self.in_range(w) && #[trigger] visited@[w] ==> reachable(
                            *self,
                            src as int,
                            w,
                        ),
                    forall|w: int|
                        self.in_range(w) && #[trigger] visited@[w] ==> dist@[w] <= queue@.len(),
                    forall|w: int|
                        self.in_range(w) && #[trigger] visited@[w] && w != src ==> {
                            &&& self.in_range(parent@[w] as int)
                            &&& visited@[parent@[w] as int]
                            &&& self.has_edge(parent@[w] as int, w)
                            &&& dist@[parent@[w] as int] + 1 == dist@[w]
                        },
                    forall|i: int, j: int|
                        0 <= i < j < queue@.len() ==> dist@[#[trigger] queue@[i] as int] <= dist@[
                            #[trigger] queue@[j] as int],
                    dist@[queue@[queue@.len() - 1] as int] <= dv + 1,
                    dist@[queue@[queue@.len() - 1] as int] >= dv,
                    forall|i: int, b: int|
                        0 <= i < head && #[trigger] self.has_edge(queue@[i] as int, b)
                            ==> visited@[b] && dist@[b] <= dist@[queue@[i] as int] + 1,
                    forall|kk: int|
                        0 <= kk < k ==> visited@[#[trigger] self.adj@[v as int]@[kk] as int]
                            && dist@[self.adj@[v as int]@[kk] as int] <= dv + 1,
                decreases row_len - k,
            {
                let w = self.adj[v as usize][k];
                proof {
                    assert(self.adj@[v as int]@.contains(w));
                    assert(self.has_edge(v as int, w as int));
                }
                if !visited[w as usize] {
                    proof {
                        lemma_distinct_bounded_len(queue@, n as int);
                        lemma_reachable_step(*self, src as int, v as int, w as int);
                    }
                    let ghost q0 = queue@;
                    let ghost vis0 = visited@;
                    visited[w as usize] = true;
                    parent[w as usize] = v;
                    dist[w as usize] = dv + 1;
                    queue.push(w);
                    proof {
                        assert(queue@ == q0.push(w));
                        assert(!q0.contains(w)) by {
                            if q0.contains(w) {
                                let i = choose|i: int| 0 <= i < q0.len() && q0[i] == w;
                                assert(vis0[q0[i] as int]);
                            }
                        }
                        assert(queue@.no_duplicates()) by {
                            assert forall|i: int, j: int|
                                0 <= i < queue@.len() && 0 <= j < queue@.len() && i != j
                                    implies queue@[i] != queue@[j] by {
                                if i < q0.len() && j < q0.len() {
                                    assert(q0[i] != q0[j]);
                                } else if j == q0.len() && i < q0.len() {
                                    assert(queue@[j] == w && queue@[i] == q0[i]);
                                } else if i == q0.len() && j < q0.len() {
                                    assert(queue@[i] == w && queue@[j] == q0[j]);
                                }
                            }
                        }
                        assert forall|u: int|
                            self.in_range(u) && #[trigger] visited@[u]
                                implies queue@.contains(u as u32) by {
                            if u == w as int {
                                assert(queue@[q0.len() as int] == w);
                            } else {
                                assert(vis0[u]);
                                let i = choose|i: int| 0 <= i < q0.len() && q0[i] == u as u32;
                                assert(queue@[i] == u as u32);
                            }
                        }
                        // the queue's distances stay sorted: the new tail's
                        // distance tops the old tail's
                        assert forall|i: int, j: int|
                            0 <= i < j < queue@.len() implies dist@[#[trigger] queue@[i] as int]
                            <= dist@[#[trigger] queue@[j] as int] by {
                            if j == queue@.len() - 1 {
                                assert(queue@[j] == w);
                                assert(queue@[i] == q0[i]);
                                assert(q0[i] != w);
                                if i < q0.len() - 1 {
                                    assert(dist@[q0[i] as int] <= dist@[q0[q0.len() - 1] as int]);
                                }
                            } else {
                                assert(queue@[i] == q0[i] && queue@[j] == q0[j]);
                                assert(q0[i] != w && q0[j] != w);
                            }
                        }
                        assert(dist@[queue@[queue@.len() - 1] as int] == dv + 1);
                    }
                } else {
                    proof {
                        // an already-visited neighbour sits in the queue, so
                        // its distance is bounded by the tail's
                        assert(visited@[w as int]);
                        assert(queue@.contains(w));
                        let i = choose|i: int| 0 <= i < queue@.len() && queue@[i] == w;
                        if i < queue@.len() - 1 {
                            assert(dist@[queue@[i] as int] <= dist@[queue@[queue@.len()
                                - 1] as int]);
                        }
                        assert(dist@[w as int] <= dv + 1);
                    }
                }
                k = k + 1;
            }
            proof {
                assert forall|b: int| #[trigger] self.has_edge(v as int, b) implies visited@[b]
                    && dist@[b] <= dist@[v as int] + 1 by {
                    let kk = choose|kk: int|
                        0 <= kk < self.adj@[v as int]@.len() && self.adj@[v as int]@[kk] == b as u32;
                    assert(visited@[self.adj@[v as int]@[kk] as int]);
                    assert(dist@[self.adj@[v as int]@[kk] as int] <= dv + 1);
                }
                if head + 1 < queue@.len() {
                    assert(dist@[queue@[head as int] as int] <= dist@[queue@[head + 1] as int]);
                }
            }
            head = head + 1;
        }
        proof {
            lemma_distinct_bounded_len(queue@, n as int);
            lemma_bfs_complete(*self, queue@, visited@, src as int);
            assert forall|a: int, b: int|
                self.in_range(a) && visited@[a] && #[trigger] self.has_edge(a, b)
                    implies visited@[b] && dist@[b] <= dist@[a] + 1 by {
                let i = choose|i: int| 0 <= i < queue@.len() && queue@[i] == a as u32;
                assert(self.has_edge(queue@[i] as int, b));
            }
        }
        (visited, parent, dist)
    }

    /// Walks the parent tree from `dst` back to `src` and returns the path
    /// the search found, oriented from `src` to `dst`.
    #[verifier::loop_isolation(false)]
    pub fn extract_path(
        &self,
        src: u32,
        dst: u32,
        visited: &Vec<bool>,
        parent: &Vec<u32>,
        dist: &Vec<u64>,
    ) -> (p: Vec<u32>)
        requires
            self.wf(),
            bfs_tree_ok(*self, src as int, visited@, parent@, dist@),
            self.in_range(dst as int),
            visited@[dst as int],
        ensures
            is_path(*self, p@.map_values(|x: u32| x as int)),
            p@.len() >= 1,
            p@.first() == src,
            p@.last() == dst,
            p@.len() == dist@[dst as int] + 1,
    {
        let mut rev: Vec<u32> = Vec::new();
        let mut cur = dst;
        rev.push(dst);
        while cur != src
            invariant
                rev@.len() >= 1,
                rev@.first() == dst,
                rev@.last() == cur,
                rev@.len() + dist@[cur as int] == dist@[dst as int] + 1,
                self.in_range(cur as int),
                visited@[cur as int],
                forall|i: int|
                    0 <= i < rev@.len() ==> self.in_range(#[trigger] rev@[i] as int),
                forall|i: int|
                    0 <= i < rev@.len() - 1 ==> self.has_edge(
                        #[trigger] rev@[i] as int,
                        rev@[i + 1] as int,
                    ),
            decreases dist@[cur as int],
        {
            let prev = parent[cur as usize];
            proof {
                assert(self.has_edge(prev as int, cur as int));
                assert(dist@[prev as int] < dist@[cur as int]);
            }
            rev.push(prev);
            proof {
                assert(self.has_edge(rev@[rev@.len() - 2] as int, rev@[rev@.len() - 1] as int)) by {
                    assert(self.has_edge(cur as int, prev as int));
                }
            }
            cur = prev;
        }
        // reverse the collected walk
        let mut p: Vec<u32> = Vec::new();
        let mut i: usize = rev.len();
        while i > 0
            invariant
                i <= rev@.len(),
                p@.len() == rev@.len() - i,
                forall|j: int| 0 <= j < p@.len() ==> p@[j] == rev@[rev@.len() - 1 - j],
            decreases i,
        {
            i = i - 1;
            p.push(rev[i]);
        }
        proof {
            let pi = p@.map_values(|x: u32| x as int);
            assert(pi.len() == rev@.len());
            assert forall|j: int| 0 <= j < pi.len() - 1 implies self.has_edge(
                #[trigger] pi[j],
                pi[j + 1],
            ) by {
                let a = rev@[rev@.len() - 1 - j];
                let b = rev@[rev@.len() - 2 - j];
                assert(self.has_edge(b as int, a as int));
            }
            assert(p@.first() == rev@.last());
            assert(p@.last() == rev@.first());
        }
        p
    }
}

} // verus!
