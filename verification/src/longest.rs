//! The longest causal path through a node. A two-sided dynamic program
//! over the DAG gives, for every node, the longest path starting there and
//! the longest path ending there; the displayed path is assembled
//! greedily, breaking ties towards the smaller origin index so the result
//! is deterministic.
use vstd::prelude::*;

use crate::graph::{edges_wf, is_edge, Edge, InstGraph};
use crate::reach::{lemma_first_step, lemma_path_extend, valid_path};

verus! {

/// The best (longest, then smallest-index) continuation below `v` among
/// the first `k` edges: a pair of the best child's `down_len` and the best
/// child itself, with `n` standing for "no child".
pub open spec fn down_best(edges: Seq<Edge>, n: int, v: int, k: int) -> (int, int)
    decreases n - v, k, 0int
        when edges_wf(n, edges) && 0 <= v < n && 0 <= k <= edges.len()
{
    if k <= 0 {
        (0, n)
    } else {
        let prev = down_best(edges, n, v, k - 1);
        let e = edges[k - 1];
        if e.from == v {
            let dl = down_len(edges, n, e.to as int);
            if dl > prev.0 || (dl == prev.0 && (e.to as int) < prev.1) {
                (dl, e.to as int)
            } else {
                prev
            }
        } else {
            prev
        }
    }
}

/// Number of nodes on the longest path starting at `v`.
pub open spec fn down_len(edges: Seq<Edge>, n: int, v: int) -> int
    decreases n - v, edges.len(), 1int
        when edges_wf(n, edges) && 0 <= v < n
{
    1 + down_best(edges, n, v, edges.len() as int).0
}

/// The greedy longest path starting at `v`.
pub open spec fn down_path(edges: Seq<Edge>, n: int, v: int) -> Seq<int>
    decreases n - v
        when edges_wf(n, edges) && 0 <= v < n
{
    let best = down_best(edges, n, v, edges.len() as int);
    if best.1 >= n || best.1 <= v {
        seq![v]
    } else {
        seq![v] + down_path(edges, n, best.1)
    }
}

/// The best (longest, then smallest-index) continuation above `v` among
/// the first `k` edges: the best parent's `up_len` and the best parent,
/// with `n` standing for "no parent".
pub open spec fn up_best(edges: Seq<Edge>, n: int, v: int, k: int) -> (int, int)
    decreases v, k, 0int
        when edges_wf(n, edges) && 0 <= v < n && 0 <= k <= edges.len()
{
    if k <= 0 {
        (0, n)
    } else {
        let prev = up_best(edges, n, v, k - 1);
        let e = edges[k - 1];
        if e.to == v {
            let ul = up_len(edges, n, e.from as int);
            if ul > prev.0 || (ul == prev.0 && (e.from as int) < prev.1) {
                (ul, e.from as int)
            } else {
                prev
            }
        } else {
            prev
        }
    }
}

/// Number of nodes on the longest path ending at `v`.
pub open spec fn up_len(edges: Seq<Edge>, n: int, v: int) -> int
    decreases v, edges.len(), 1int
        when edges_wf(n, edges) && 0 <= v < n
{
    1 + up_best(edges, n, v, edges.len() as int).0
}

/// The greedy longest path ending at `v`.
pub open spec fn up_path(edges: Seq<Edge>, n: int, v: int) -> Seq<int>
    decreases v
        when edges_wf(n, edges) && 0 <= v < n
{
    let best = up_best(edges, n, v, edges.len() as int);
    if best.1 >= n || best.1 >= v || best.1 < 0 {
        seq![v]
    } else {
        up_path(edges, n, best.1) + seq![v]
    }
}

/// The longest causal path through `x`: the greedy ascent to `x` joined
/// with the greedy descent from it.
pub open spec fn lp_path(edges: Seq<Edge>, n: int, x: int) -> Seq<int> {
    up_path(edges, n, x) + down_path(edges, n, x).drop_first()
}

/// What `down_best` finds: nothing (and no edge leaves `v` in the
/// prefix), or a true child whose `down_len` dominates every child in the
/// prefix, with ties broken towards the smaller index.
pub proof fn lemma_down_best(edges: Seq<Edge>, n: int, v: int, k: int)
    requires
        edges_wf(n, edges),
        0 <= v < n,
        0 <= k <= edges.len(),
    ensures
        ({
            let best = down_best(edges, n, v, k);
            &&& best.0 >= 0
            &&& (best.1 == n ==> best.0 == 0 && forall|k2: int|
                0 <= k2 < k ==> (#[trigger] edges[k2]).from != v)
            &&& (best.1 != n ==> v < best.1 < n && is_edge(edges, v, best.1) && best.0 == down_len(
                edges,
                n,
                best.1,
            ))
            &&& forall|k2: int|
                0 <= k2 < k && (#[trigger] edges[k2]).from == v ==> down_len(
                    edges,
                    n,
                    edges[k2].to as int,
                ) <= best.0
            &&& forall|k2: int|
                0 <= k2 < k && (#[trigger] edges[k2]).from == v && down_len(
                    edges,
                    n,
                    edges[k2].to as int,
                ) == best.0 ==> best.1 <= edges[k2].to as int
        }),
    decreases n - v, k,
{
    if k > 0 {
        lemma_down_best(edges, n, v, k - 1);
        let e = edges[k - 1];
        if e.from == v {
            assert(is_edge(edges, v, e.to as int));
            assert(down_len(edges, n, e.to as int) >= 1) by {
                lemma_down_best(edges, n, e.to as int, edges.len() as int);
            }
        }
    }
}

/// What `up_best` finds, mirroring `lemma_down_best`.
pub proof fn lemma_up_best(edges: Seq<Edge>, n: int, v: int, k: int)
    requires
        edges_wf(n, edges),
        0 <= v < n,
        0 <= k <= edges.len(),
    ensures
        ({
            let best = up_best(edges, n, v, k);
            &&& best.0 >= 0
            &&& (best.1 == n ==> best.0 == 0 && forall|k2: int|
                0 <= k2 < k ==> (#[trigger] edges[k2]).to != v)
            &&& (best.1 != n ==> 0 <= best.1 < v && is_edge(edges, best.1, v) && best.0 == up_len(
                edges,
                n,
                best.1,
            ))
            &&& forall|k2: int|
                0 <= k2 < k && (#[trigger] edges[k2]).to == v ==> up_len(
                    edges,
                    n,
                    edges[k2].from as int,
                ) <= best.0
            &&& forall|k2: int|
                0 <= k2 < k && (#[trigger] edges[k2]).to == v && up_len(
                    edges,
                    n,
                    edges[k2].from as int,
                ) == best.0 ==> best.1 <= edges[k2].from as int
        }),
    decreases v, k,
{
    if k > 0 {
        lemma_up_best(edges, n, v, k - 1);
        let e = edges[k - 1];
        if e.to == v {
            assert(is_edge(edges, e.from as int, v));
            assert(up_len(edges, n, e.from as int) >= 1) by {
                lemma_up_best(edges, n, e.from as int, edges.len() as int);
            }
        }
    }
}

/// The greedy descent is a path of exactly `down_len` nodes starting at
/// `v`.
pub proof fn lemma_down_path(edges: Seq<Edge>, n: int, v: int)
    requires
        edges_wf(n, edges),
        0 <= v < n,
    ensures
        valid_path(n, edges, down_path(edges, n, v)),
        down_path(edges, n, v).first() == v,
        down_path(edges, n, v).len() == down_len(edges, n, v),
    decreases n - v,
{
    lemma_down_best(edges, n, v, edges.len() as int);
    let best = down_best(edges, n, v, edges.len() as int);
    if best.1 < n {
        lemma_down_path(edges, n, best.1);
        lemma_first_step(n, edges, down_path(edges, n, best.1), v);
        assert(seq![v] + down_path(edges, n, best.1) == down_path(edges, n, v));
    } else {
        assert(valid_path(n, edges, seq![v]));
    }
}

/// The greedy ascent is a path of exactly `up_len` nodes ending at `v`.
pub proof fn lemma_up_path(edges: Seq<Edge>, n: int, v: int)
    requires
        edges_wf(n, edges),
        0 <= v < n,
    ensures
        valid_path(n, edges, up_path(edges, n, v)),
        up_path(edges, n, v).last() == v,
        up_path(edges, n, v).len() == up_len(edges, n, v),
    decreases v,
{
    lemma_up_best(edges, n, v, edges.len() as int);
    let best = up_best(edges, n, v, edges.len() as int);
    if best.1 < n {
        lemma_up_path(edges, n, best.1);
        lemma_path_extend(n, edges, up_path(edges, n, best.1), v);
        assert(up_path(edges, n, best.1).push(v) =~= up_path(edges, n, best.1) + seq![v]);
    } else {
        assert(valid_path(n, edges, seq![v]));
    }
}

/// No path starting at `v` has more nodes than `down_len(v)`.
pub proof fn lemma_down_len_max(edges: Seq<Edge>, n: int, p: Seq<int>)
    requires
        edges_wf(n, edges),
        valid_path(n, edges, p),
    ensures
        p.len() <= down_len(edges, n, p.first()),
    decreases p.len(),
{
    lemma_down_best(edges, n, p.first(), edges.len() as int);
    if p.len() >= 2 {
        let q = p.drop_first();
        assert forall|i: int| 0 <= i < q.len() implies 0 <= #[trigger] q[i] < n by {
            assert(q[i] == p[i + 1]);
        }
        assert forall|i: int|
            0 <= i < q.len() - 1 implies is_edge(edges, #[trigger] q[i], q[i + 1]) by {
            assert(q[i] == p[i + 1] && q[i + 1] == p[i + 2]);
        }
        lemma_down_len_max(edges, n, q);
        assert(is_edge(edges, p[0], p[1]));
        let k = choose|k: int|
            0 <= k < edges.len() && (#[trigger] edges[k]).from == p[0] && edges[k].to == p[1];
        assert(down_len(edges, n, p[1]) <= down_best(edges, n, p.first(), edges.len() as int).0);
    }
}

/// No path ending at `v` has more nodes than `up_len(v)`.
pub proof fn lemma_up_len_max(edges: Seq<Edge>, n: int, p: Seq<int>)
    requires
        edges_wf(n, edges),
        valid_path(n, edges, p),
    ensures
        p.len() <= up_len(edges, n, p.last()),
    decreases p.len(),
{
    lemma_up_best(edges, n, p.last(), edges.len() as int);
    if p.len() >= 2 {
        let q = p.drop_last();
        crate::reach::lemma_path_shrink(n, edges, p);
        lemma_up_len_max(edges, n, q);
        assert(is_edge(edges, p[p.len() - 2], p.last()));
        let k = choose|k: int|
            0 <= k < edges.len() && (#[trigger] edges[k]).from == p[p.len() - 2] && edges[k].to
                == p.last();
        assert(up_len(edges, n, p[p.len() - 2]) <= up_best(edges, n, p.last(), edges.len() as int).0);
    }
}

/// The assembled path through `x` is a path, contains `x`, and no other
/// path through `x` is longer.
pub proof fn lemma_lp_path(edges: Seq<Edge>, n: int, x: int)
    requires
        edges_wf(n, edges),
        0 <= x < n,
    ensures
        valid_path(n, edges, lp_path(edges, n, x)),
        lp_path(edges, n, x).contains(x),
        lp_path(edges, n, x).len() == up_len(edges, n, x) + down_len(edges, n, x) - 1,
        forall|q: Seq<int>, j: int|
            valid_path(n, edges, q) && 0 <= j < q.len() && q[j] == x ==> q.len() <= lp_path(
                edges,
                n,
                x,
            ).len(),
{
    lemma_up_path(edges, n, x);
    lemma_down_path(edges, n, x);
    let up = up_path(edges, n, x);
    let down = down_path(edges, n, x);
    let p = lp_path(edges, n, x);
    assert(p == up + down.drop_first());
    assert(p[up.len() - 1] == x);
    assert(p.contains(x));
    assert forall|i: int| 0 <= i < p.len() implies 0 <= #[trigger] p[i] < n by {
        if i < up.len() {
            assert(p[i] == up[i]);
        } else {
            assert(p[i] == down[i - up.len() + 1]);
        }
    }
    assert forall|i: int| 0 <= i < p.len() - 1 implies is_edge(edges, #[trigger] p[i], p[i + 1]) by {
        if i < up.len() - 1 {
            assert(p[i] == up[i] && p[i + 1] == up[i + 1]);
        } else if i == up.len() - 1 {
            assert(p[i] == x && down[0] == x);
            if down.len() >= 2 {
                assert(p[i + 1] == down[1]);
                assert(is_edge(edges, down[0], down[1]));
            }
        } else {
            assert(p[i] == down[i - up.len() + 1] && p[i + 1] == down[i - up.len() + 2]);
        }
    }
    assert forall|q: Seq<int>, j: int|
        valid_path(n, edges, q) && 0 <= j < q.len() && q[j] == x implies q.len() <= p.len() by {
        let front = q.subrange(0, j + 1);
        let back = q.subrange(j, q.len() as int);
        assert forall|i: int| 0 <= i < front.len() - 1 implies is_edge(
            edges,
            #[trigger] front[i],
            front[i + 1],
        ) by {
            assert(front[i] == q[i] && front[i + 1] == q[i + 1]);
        }
        assert forall|i: int| 0 <= i < back.len() - 1 implies is_edge(
            edges,
            #[trigger] back[i],
            back[i + 1],
        ) by {
            assert(back[i] == q[j + i] && back[i + 1] == q[j + i + 1]);
        }
        assert(valid_path(n, edges, front) && front.last() == x);
        assert(valid_path(n, edges, back) && back.first() == x);
        lemma_up_len_max(edges, n, front);
        lemma_down_len_max(edges, n, back);
        assert(q.len() == front.len() + back.len() - 1);
    }
}

/// The longest descent from `v` cannot have more nodes than remain at or
/// above index `v`.
pub proof fn lemma_down_len_bound(edges: Seq<Edge>, n: int, v: int)
    requires
        edges_wf(n, edges),
        0 <= v < n,
    ensures
        1 <= down_len(edges, n, v) <= n - v,
    decreases n - v,
{
    lemma_down_best(edges, n, v, edges.len() as int);
    let best = down_best(edges, n, v, edges.len() as int);
    if best.1 != n {
        lemma_down_len_bound(edges, n, best.1);
    }
}

/// The longest ascent to `v` cannot have more nodes than `v + 1`.
pub proof fn lemma_up_len_bound(edges: Seq<Edge>, n: int, v: int)
    requires
        edges_wf(n, edges),
        0 <= v < n,
    ensures
        1 <= up_len(edges, n, v) <= v + 1,
    decreases v,
{
    lemma_up_best(edges, n, v, edges.len() as int);
    let best = up_best(edges, n, v, edges.len() as int);
    if best.1 != n {
        lemma_up_len_bound(edges, n, best.1);
    }
}

impl InstGraph {
    /// Scans the edge list for the best greedy continuation below `v`,
    /// given settled descent lengths.
    #[verifier::loop_isolation(false)]
    fn scan_best_child(&self, v: usize, down: &Vec<usize>) -> (r: (usize, usize))
        requires
            self.topo_wf(),
            v < self.n(),
            down@.len() == self.n(),
            forall|j: int|
                0 <= j < self.n() ==> #[trigger] down@[j] == down_len(self.edges@, self.n(), j),
        ensures
            (r.0 as int, r.1 as int) == down_best(self.edges@, self.n(), v as int, self.m()),
            r.1 <= self.n(),
    {
        let n = self.nodes.len();
        let m = self.edges.len();
        let mut bl: usize = 0;
        let mut bc: usize = n;
        let mut k: usize = 0;
        while k < m
            invariant
                k <= m,
                bc <= n,
                (bl as int, bc as int) == down_best(self.edges@, self.n(), v as int, k as int),
            decreases m - k,
        {
            if self.edges[k].from == v {
                let t = self.edges[k].to;
                let dl = down[t];
                if dl > bl || (dl == bl && t < bc) {
                    bl = dl;
                    bc = t;
                }
            }
            k = k + 1;
        }
        (bl, bc)
    }

    /// Scans the edge list for the best greedy continuation above `v`,
    /// given settled ascent lengths.
    #[verifier::loop_isolation(false)]
    fn scan_best_parent(&self, v: usize, up: &Vec<usize>) -> (r: (usize, usize))
        requires
            self.topo_wf(),
            v < self.n(),
            up@.len() == self.n(),
            forall|j: int|
                0 <= j < self.n() ==> #[trigger] up@[j] == up_len(self.edges@, self.n(), j),
        ensures
            (r.0 as int, r.1 as int) == up_best(self.edges@, self.n(), v as int, self.m()),
            r.1 <= self.n(),
    {
        let n = self.nodes.len();
        let m = self.edges.len();
        let mut bl: usize = 0;
        let mut bp: usize = n;
        let mut k: usize = 0;
        while k < m
            invariant
                k <= m,
                bp <= n,
                (bl as int, bp as int) == up_best(self.edges@, self.n(), v as int, k as int),
            decreases m - k,
        {
            if self.edges[k].to == v {
                let f = self.edges[k].from;
                let ul = up[f];
                if ul > bl || (ul == bl && f < bp) {
                    bl = ul;
                    bp = f;
                }
            }
            k = k + 1;
        }
        (bl, bp)
    }

    /// Computes `down_len` for every node, in decreasing index order.
    #[verifier::loop_isolation(false)]
    fn compute_down_lens(&self) -> (down: Vec<usize>)
        requires
            self.topo_wf(),
        ensures
            down@.len() == self.n(),
            forall|j: int|
                0 <= j < self.n() ==> #[trigger] down@[j] == down_len(self.edges@, self.n(), j),
    {
        let n = self.nodes.len();
        let m = self.edges.len();
        let mut down: Vec<usize> = Vec::new();
        let mut i: usize = 0;
        while i < n
            invariant
                i <= n,
                down@.len() == i,
            decreases n - i,
        {
            down.push(0);
            i = i + 1;
        }
        let mut i: usize = n;
        while i > 0
            invariant
                i <= n,
                down@.len() == n,
                forall|j: int|
                    i <= j < n ==> #[trigger] down@[j] == down_len(self.edges@, self.n(), j),
            decreases i,
        {
            i = i - 1;
            let mut bl: usize = 0;
            let mut k: usize = 0;
            while k < m
                invariant
                    k <= m,
                    down@.len() == n,
                    forall|j: int|
                        i < j < n ==> #[trigger] down@[j] == down_len(self.edges@, self.n(), j),
                    bl == down_best(self.edges@, self.n(), i as int, k as int).0,
                    bl <= n,
                decreases m - k,
            {
                proof {
                    lemma_down_best(self.edges@, self.n(), i as int, k + 1);
                    if self.edges@[k as int].from == i {
                        lemma_down_len_bound(self.edges@, self.n(), self.edges@[k as int].to as int);
                    }
                }
                if self.edges[k].from == i {
                    let t = self.edges[k].to;
                    let dl = down[t];
                    if dl > bl {
                        bl = dl;
                    }
                }
                k = k + 1;
            }
            proof {
                lemma_down_len_bound(self.edges@, self.n(), i as int);
            }
            down.set(i, bl + 1);
        }
        down
    }

    /// Computes `up_len` for every node, in increasing index order.
    #[verifier::loop_isolation(false)]
    fn compute_up_lens(&self) -> (up: Vec<usize>)
        requires
            self.topo_wf(),
        ensures
            up@.len() == self.n(),
            forall|j: int|
                0 <= j < self.n() ==> #[trigger] up@[j] == up_len(self.edges@, self.n(), j),
    {
        let n = self.nodes.len();
        let m = self.edges.len();
        let mut up: Vec<usize> = Vec::new();
        let mut i: usize = 0;
        while i < n
            invariant
                i <= n,
                up@.len() == i,
                forall|j: int|
                    0 <= j < i ==> #[trigger] up@[j] == up_len(self.edges@, self.n(), j),
            decreases n - i,
        {
            let mut bl: usize = 0;
            let mut k: usize = 0;
            while k < m
                invariant
                    k <= m,
                    up@.len() == i,
                    forall|j: int|
                        0 <= j < i ==> #[trigger] up@[j] == up_len(self.edges@, self.n(), j),
                    bl == up_best(self.edges@, self.n(), i as int, k as int).0,
                    bl <= n,
                decreases m - k,
            {
                proof {
                    lemma_up_best(self.edges@, self.n(), i as int, k + 1);
                    if self.edges@[k as int].to == i {
                        lemma_up_len_bound(self.edges@, self.n(), self.edges@[k as int].from as int);
                    }
                }
                if self.edges[k].to == i {
                    let f = self.edges[k].from;
                    let ul = up[f];
                    if ul > bl {
                        bl = ul;
                    }
                }
                k = k + 1;
            }
            proof {
                lemma_up_len_bound(self.edges@, self.n(), i as int);
            }
            up.push(bl + 1);
            i = i + 1;
        }
        up
    }

    /// Computes the longest causal path through `x`: the greedy ascent to
    /// `x`, then the greedy descent from it, ties broken towards smaller
    /// origin indices.
    #[verifier::rlimit(60)]
    pub fn longest_path_through(&self, x: usize) -> (p: Vec<usize>)
        requires
            self.topo_wf(),
            x < self.n(),
        ensures
            p@.map_values(|u: usize| u as int) == lp_path(self.edges@, self.n(), x as int),
    {
        let n = self.nodes.len();
        let down = self.compute_down_lens();
        let up = self.compute_up_lens();

        // Ascent: follow the best parents, remembering the nodes walked.
        let mut rev_up: Vec<usize> = Vec::new();
        rev_up.push(x);
        let mut cur: usize = x;
        let ghost mut tail: Seq<int> = Seq::empty();
        proof {
            assert(up_path(self.edges@, self.n(), x as int) == up_path(
                self.edges@,
                self.n(),
                cur as int,
            ) + tail);
            assert(rev_up@.map_values(|u: usize| u as int).reverse() =~= seq![cur as int] + tail);
        }
        loop
            invariant
                cur < n,
                x < n,
                self.topo_wf(),
                n == self.n(),
                up@.len() == n,
                forall|j: int|
                    0 <= j < self.n() ==> #[trigger] up@[j] == up_len(self.edges@, self.n(), j),
                up_path(self.edges@, self.n(), x as int) == up_path(
                    self.edges@,
                    self.n(),
                    cur as int,
                ) + tail,
                rev_up@.map_values(|u: usize| u as int).reverse() =~= seq![cur as int] + tail,
                rev_up@.len() >= 1,
            ensures
                rev_up@.map_values(|u: usize| u as int).reverse() =~= up_path(
                    self.edges@,
                    self.n(),
                    x as int,
                ),
                forall|j: int| 0 <= j < rev_up@.len() ==> #[trigger] rev_up@[j] < n,
            decreases cur,
        {
            let (_, bp) = self.scan_best_parent(cur, &up);
            proof {
                lemma_up_best(self.edges@, self.n(), cur as int, self.m());
            }
            if bp >= n {
                proof {
                    assert(up_path(self.edges@, self.n(), cur as int) =~= seq![cur as int]);
                    assert forall|j: int| 0 <= j < rev_up@.len() implies #[trigger] rev_up@[j]
                        < n by {
                        let r = rev_up@.map_values(|u: usize| u as int).reverse();
                        assert(r[rev_up@.len() - 1 - j] == rev_up@[j] as int);
                        lemma_up_path(self.edges@, self.n(), x as int);
                    }
                }
                break ;
            }
            proof {
                assert(up_path(self.edges@, self.n(), cur as int) == up_path(
                    self.edges@,
                    self.n(),
                    bp as int,
                ) + seq![cur as int]);
                tail = seq![cur as int] + tail;
                assert(up_path(self.edges@, self.n(), bp as int) + (seq![cur as int] + tail.drop_first())
                    =~= up_path(self.edges@, self.n(), bp as int) + seq![cur as int]
                    + tail.drop_first());
            }
            rev_up.push(bp);
            cur = bp;
            proof {
                assert(rev_up@.map_values(|u: usize| u as int).reverse() =~= seq![cur as int]
                    + tail);
                assert(up_path(self.edges@, self.n(), x as int) =~= up_path(
                    self.edges@,
                    self.n(),
                    cur as int,
                ) + tail);
            }
        }

        // Emit the ascent in path order.
        let mut path: Vec<usize> = Vec::new();
        let mut idx: usize = rev_up.len();
        while idx > 0
            invariant
                idx <= rev_up@.len(),
                path@.len() == rev_up@.len() - idx,
                forall|j: int|
                    0 <= j < path@.len() ==> #[trigger] path@[j] == rev_up@[rev_up@.len() - 1 - j],
            decreases idx,
        {
            idx = idx - 1;
            path.push(rev_up[idx]);
        }
        proof {
            assert(path@.map_values(|u: usize| u as int) =~= rev_up@.map_values(
                |u: usize| u as int,
            ).reverse());
            assert(path@.map_values(|u: usize| u as int) =~= up_path(
                self.edges@,
                self.n(),
                x as int,
            ));
        }

        // Descent: follow the best children from `x`.
        let mut cur: usize = x;
        proof {
            lemma_up_path(self.edges@, self.n(), x as int);
            assert(path@.len() >= 1 && path@[path@.len() - 1] == x);
            assert(path@.map_values(|u: usize| u as int) + down_path(
                self.edges@,
                self.n(),
                cur as int,
            ).drop_first() =~= lp_path(self.edges@, self.n(), x as int));
        }
        loop
            invariant
                cur < n,
                x < n,
                self.topo_wf(),
                n == self.n(),
                down@.len() == n,
                forall|j: int|
                    0 <= j < self.n() ==> #[trigger] down@[j] == down_len(self.edges@, self.n(), j),
                path@.map_values(|u: usize| u as int) + down_path(
                    self.edges@,
                    self.n(),
                    cur as int,
                ).drop_first() =~= lp_path(self.edges@, self.n(), x as int),
            ensures
                path@.map_values(|u: usize| u as int) =~= lp_path(self.edges@, self.n(), x as int),
            decreases n - cur,
        {
            let (_, bc) = self.scan_best_child(cur, &down);
            proof {
                lemma_down_best(self.edges@, self.n(), cur as int, self.m());
            }
            if bc >= n {
                proof {
                    assert(down_path(self.edges@, self.n(), cur as int) =~= seq![cur as int]);
                }
                break ;
            }
            proof {
                assert(down_path(self.edges@, self.n(), cur as int) == seq![cur as int]
                    + down_path(self.edges@, self.n(), bc as int));
                assert(down_path(self.edges@, self.n(), cur as int).drop_first() =~= seq![
                    bc as int,
                ] + down_path(self.edges@, self.n(), bc as int).drop_first());
            }
            path.push(bc);
            cur = bc;
        }
        path
    }
}

} // verus!
