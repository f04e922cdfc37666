//! Reachability over the raw graph's edge list, as path-based spec
//! predicates together with verified closure scans. Because every edge
//! points from a lower origin index to a higher one, a single pass in
//! index order computes an exact forward or backward closure.
use vstd::prelude::*;

use crate::graph::{edges_wf, is_edge, Edge, InstGraph};

verus! {

/// `p` is a sequence of in-range nodes linked by raw edges.
pub open spec fn valid_path(n: int, edges: Seq<Edge>, p: Seq<int>) -> bool {
    &&& p.len() >= 1
    &&& forall|i: int| 0 <= i < p.len() ==> 0 <= #[trigger] p[i] < n
    &&& forall|i: int| 0 <= i < p.len() - 1 ==> is_edge(edges, #[trigger] p[i], p[i + 1])
}

/// `b` can be reached from `a` along raw edges (reflexively).
pub open spec fn reaches(n: int, edges: Seq<Edge>, a: int, b: int) -> bool {
    exists|p: Seq<int>|
        valid_path(n, edges, p) && p.first() == a && p.last() == b
}

/// A single node is a path from itself to itself.
pub proof fn lemma_reaches_self(n: int, edges: Seq<Edge>, a: int)
    requires
        0 <= a < n,
    ensures
        reaches(n, edges, a, a),
{
    let p = seq![a];
    assert(valid_path(n, edges, p));
    assert(p.first() == a && p.last() == a);
}

/// Appending an edge to a path yields a path.
pub proof fn lemma_path_extend(n: int, edges: Seq<Edge>, p: Seq<int>, b: int)
    requires
        valid_path(n, edges, p),
        is_edge(edges, p.last(), b),
        0 <= b < n,
    ensures
        valid_path(n, edges, p.push(b)),
        p.push(b).first() == p.first(),
        p.push(b).last() == b,
{
    let q = p.push(b);
    assert forall|i: int| 0 <= i < q.len() - 1 implies is_edge(edges, #[trigger] q[i], q[i + 1]) by {
        if i < p.len() - 1 {
            assert(q[i] == p[i] && q[i + 1] == p[i + 1]);
        } else {
            assert(q[i] == p.last() && q[i + 1] == b);
        }
    }
}

/// Removing the last node of a two-node-or-longer path yields a path.
pub proof fn lemma_path_shrink(n: int, edges: Seq<Edge>, p: Seq<int>)
    requires
        valid_path(n, edges, p),
        p.len() >= 2,
    ensures
        valid_path(n, edges, p.drop_last()),
        p.drop_last().first() == p.first(),
        p.drop_last().last() == p[p.len() - 2],
        is_edge(edges, p[p.len() - 2], p.last()),
{
    let q = p.drop_last();
    assert forall|i: int| 0 <= i < q.len() implies 0 <= #[trigger] q[i] < n by {
        assert(q[i] == p[i]);
    }
    assert forall|i: int| 0 <= i < q.len() - 1 implies is_edge(edges, #[trigger] q[i], q[i + 1]) by {
        assert(q[i] == p[i] && q[i + 1] == p[i + 1]);
    }
}

/// In a well-formed graph, paths are strictly increasing in node index.
pub proof fn lemma_path_monotone(n: int, edges: Seq<Edge>, p: Seq<int>)
    requires
        edges_wf(n, edges),
        valid_path(n, edges, p),
    ensures
        forall|i1: int, i2: int| 0 <= i1 < i2 < p.len() ==> p[i1] < p[i2],
    decreases p.len(),
{
    if p.len() >= 2 {
        lemma_path_shrink(n, edges, p);
        lemma_path_monotone(n, edges, p.drop_last());
        assert forall|i1: int, i2: int| 0 <= i1 < i2 < p.len() implies p[i1] < p[i2] by {
            if i2 < p.len() - 1 {
                assert(p.drop_last()[i1] == p[i1] && p.drop_last()[i2] == p[i2]);
            } else {
                assert(is_edge(edges, p[p.len() - 2], p[p.len() - 1]));
                if i1 < p.len() - 2 {
                    assert(p.drop_last()[i1] == p[i1] && p.drop_last()[p.len() - 2] == p[p.len()
                        - 2]);
                }
            }
        }
    }
}

/// The last step of a non-trivial reach comes over some edge from an
/// earlier reachable node.
pub proof fn lemma_reaches_step(n: int, edges: Seq<Edge>, a: int, b: int)
    requires
        edges_wf(n, edges),
        reaches(n, edges, a, b),
        a != b,
    ensures
        exists|c: int|
            0 <= c < n && #[trigger] is_edge(edges, c, b) && c < b && reaches(n, edges, a, c),
{
    let p = choose|p: Seq<int>|
        valid_path(n, edges, p) && p.first() == a && p.last() == b;
    assert(p.len() >= 2);
    lemma_path_shrink(n, edges, p);
    let c = p[p.len() - 2];
    let q = p.drop_last();
    assert(valid_path(n, edges, q) && q.first() == a && q.last() == c);
    assert(reaches(n, edges, a, c));
    assert(0 <= c < n && is_edge(edges, c, b) && c < b && reaches(n, edges, a, c));
}

impl InstGraph {
    /// Marks, for every node, whether it is forward-reachable from `root`
    /// (the descendant closure, `root` included). One pass in index order
    /// is exact because edges always point forward.
    #[verifier::loop_isolation(false)]
    pub fn forward_closure(&self, root: usize) -> (mark: Vec<bool>)
        requires
            self.topo_wf(),
            root < self.n(),
        ensures
            mark@.len() == self.n(),
            forall|i: int|
                0 <= i < self.n() ==> mark@[i] == reaches(
                    self.n(),
                    self.edges@,
                    root as int,
                    i,
                ),
    {
        let n = self.nodes.len();
        let m = self.edges.len();
        let mut mark: Vec<bool> = Vec::new();
        let mut i: usize = 0;
        while i < n
            invariant
                i <= n,
                mark@.len() == i,
                forall|j: int|
                    0 <= j < i ==> mark@[j] == reaches(self.n(), self.edges@, root as int, j),
            decreases n - i,
        {
            let mut hit = i == root;
            proof {
                if i == root {
                    lemma_reaches_self(self.n(), self.edges@, root as int);
                }
            }
            let mut k: usize = 0;
            while k < m
                invariant
                    k <= m,
                    mark@.len() == i,
                    hit ==> reaches(self.n(), self.edges@, root as int, i as int),
                    !hit ==> i != root && forall|k2: int|
                        0 <= k2 < k && (#[trigger] self.edges@[k2]).to == i ==> !mark@[self.edges@[k2].from as int],
                decreases m - k,
            {
                if !hit && self.edges[k].to == i {
                    let f = self.edges[k].from;
                    if mark[f] {
                        hit = true;
                        proof {
                            let p = choose|p: Seq<int>|
                                valid_path(self.n(), self.edges@, p) && p.first() == root as int
                                    && p.last() == f as int;
                            lemma_path_extend(self.n(), self.edges@, p, i as int);
                        }
                    }
                }
                k = k + 1;
            }
            proof {
                if !hit {
                    // No marked parent: a path from the root would have to
                    // make its final step over some edge from a marked,
                    // smaller-index node.
                    if reaches(self.n(), self.edges@, root as int, i as int) {
                        lemma_reaches_step(self.n(), self.edges@, root as int, i as int);
                        let c = choose|c: int|
                            0 <= c < self.n() && #[trigger] is_edge(self.edges@, c, i as int) && c
                                < i && reaches(self.n(), self.edges@, root as int, c);
                        let k2 = choose|k2: int|
                            0 <= k2 < self.edges@.len() && (#[trigger] self.edges@[k2]).from == c
                                && self.edges@[k2].to == i;
                        assert(!mark@[c]);
                    }
                }
            }
            mark.push(hit);
            i = i + 1;
        }
        mark
    }

    /// Marks, for every node, whether `root` is forward-reachable from it
    /// (the ancestor closure, `root` included). One pass in decreasing
    /// index order is exact because edges always point forward.
    #[verifier::loop_isolation(false)]
    pub fn backward_closure(&self, root: usize) -> (mark: Vec<bool>)
        requires
            self.topo_wf(),
            root < self.n(),
        ensures
            mark@.len() == self.n(),
            forall|i: int|
                0 <= i < self.n() ==> mark@[i] == reaches(
                    self.n(),
                    self.edges@,
                    i,
                    root as int,
                ),
    {
        let n = self.nodes.len();
        let m = self.edges.len();
        let mut mark: Vec<bool> = Vec::new();
        let mut i: usize = 0;
        // Fill a placeholder and overwrite from the top down.
        while i < n
            invariant
                i <= n,
                mark@.len() == i,
            decreases n - i,
        {
            mark.push(false);
            i = i + 1;
        }
        let mut i: usize = n;
        while i > 0
            invariant
                i <= n,
                mark@.len() == n,
                forall|j: int|
                    i <= j < n ==> mark@[j] == reaches(self.n(), self.edges@, j, root as int),
            decreases i,
        {
            i = i - 1;
            let mut hit = i == root;
            proof {
                if i == root {
                    lemma_reaches_self(self.n(), self.edges@, root as int);
                }
            }
            let mut k: usize = 0;
            while k < m
                invariant
                    k <= m,
                    mark@.len() == n,
                    forall|j: int|
                        i < j < n ==> mark@[j] == reaches(self.n(), self.edges@, j, root as int),
                    hit ==> reaches(self.n(), self.edges@, i as int, root as int),
                    !hit ==> i != root && forall|k2: int|
                        0 <= k2 < k && (#[trigger] self.edges@[k2]).from == i ==> !mark@[self.edges@[k2].to as int],
                decreases m - k,
            {
                if !hit && self.edges[k].from == i {
                    let t = self.edges[k].to;
                    if mark[t] {
                        hit = true;
                        proof {
                            let p = choose|p: Seq<int>|
                                valid_path(self.n(), self.edges@, p) && p.first() == t as int
                                    && p.last() == root as int;
                            lemma_first_step(self.n(), self.edges@, p, i as int);
                        }
                    }
                }
                k = k + 1;
            }
            proof {
                if !hit {
                    if reaches(self.n(), self.edges@, i as int, root as int) {
                        lemma_reaches_first_step(self.n(), self.edges@, i as int, root as int);
                        let c = choose|c: int|
                            0 <= c < self.n() && #[trigger] is_edge(self.edges@, i as int, c) && c
                                > i && reaches(self.n(), self.edges@, c, root as int);
                        let k2 = choose|k2: int|
                            0 <= k2 < self.edges@.len() && (#[trigger] self.edges@[k2]).from == i
                                && self.edges@[k2].to == c;
                        assert(!mark@[c]);
                    }
                }
            }
            mark.set(i, hit);
        }
        mark
    }
}

/// Prepending an edge to a path yields a path.
pub proof fn lemma_first_step(n: int, edges: Seq<Edge>, p: Seq<int>, a: int)
    requires
        valid_path(n, edges, p),
        is_edge(edges, a, p.first()),
        0 <= a < n,
    ensures
        valid_path(n, edges, seq![a] + p),
        (seq![a] + p).first() == a,
        (seq![a] + p).last() == p.last(),
{
    let q = seq![a] + p;
    assert forall|i: int| 0 <= i < q.len() implies 0 <= #[trigger] q[i] < n by {
        if i > 0 {
            assert(q[i] == p[i - 1]);
        }
    }
    assert forall|i: int| 0 <= i < q.len() - 1 implies is_edge(edges, #[trigger] q[i], q[i + 1]) by {
        if i == 0 {
            assert(q[0] == a && q[1] == p[0]);
        } else {
            assert(q[i] == p[i - 1] && q[i + 1] == p[i]);
        }
    }
    assert(q.last() == p.last());
}

/// The first step of a non-trivial reach goes over some edge to a later
/// node that still reaches the target.
pub proof fn lemma_reaches_first_step(n: int, edges: Seq<Edge>, a: int, b: int)
    requires
        edges_wf(n, edges),
        reaches(n, edges, a, b),
        a != b,
    ensures
        exists|c: int|
            0 <= c < n && #[trigger] is_edge(edges, a, c) && c > a && reaches(n, edges, c, b),
{
    let p = choose|p: Seq<int>|
        valid_path(n, edges, p) && p.first() == a && p.last() == b;
    assert(p.len() >= 2);
    let q = p.drop_first();
    let c = p[1];
    assert forall|i: int| 0 <= i < q.len() implies 0 <= #[trigger] q[i] < n by {
        assert(q[i] == p[i + 1]);
    }
    assert forall|i: int| 0 <= i < q.len() - 1 implies is_edge(edges, #[trigger] q[i], q[i + 1]) by {
        assert(q[i] == p[i + 1] && q[i + 1] == p[i + 2]);
    }
    assert(valid_path(n, edges, q) && q.first() == c && q.last() == b);
    assert(is_edge(edges, a, c));
    assert(c > a) by {
        let k = choose|k: int|
            0 <= k < edges.len() && (#[trigger] edges[k]).from == a && edges[k].to == c;
    }
    assert(reaches(n, edges, c, b));
    assert(0 <= c < n && is_edge(edges, a, c) && c > a && reaches(n, edges, c, b));
}

} // verus!
