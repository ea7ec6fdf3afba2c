//! Mathematical model of a directed graph given as adjacency lists.
use vstd::prelude::*;

verus! {

/// Every target of every adjacency list names a node of the graph.
pub open spec fn wf_adj(g: Seq<Seq<usize>>) -> bool {
    forall|i: int, e: int|
        0 <= i < g.len() && 0 <= e < g[i].len() ==> (#[trigger] g[i][e]) < g.len()
}

/// There is a directed edge from `i` to `j`.
pub open spec fn edge(g: Seq<Seq<usize>>, i: int, j: int) -> bool {
    &&& 0 <= i < g.len()
    &&& exists|e: int| 0 <= e < g[i].len() && g[i][e] as int == j
}

/// `p` is a non-empty walk along edges of `g`.
pub open spec fn is_path(g: Seq<Seq<usize>>, p: Seq<int>) -> bool {
    &&& p.len() >= 1
    &&& forall|k: int| 0 <= k < p.len() ==> 0 <= #[trigger] p[k] < g.len()
    &&& forall|k: int| 0 <= k < p.len() - 1 ==> edge(g, #[trigger] p[k], p[k + 1])
}

/// Node `j` can be reached from node `i` (every node reaches itself).
#[verifier::opaque]
pub open spec fn reach(g: Seq<Seq<usize>>, i: int, j: int) -> bool {
    exists|p: Seq<int>| #[trigger] is_path(g, p) && p[0] == i && p.last() == j
}

/// Nodes `i` and `j` lie in the same strongly connected component.
pub open spec fn mutual(g: Seq<Seq<usize>>, i: int, j: int) -> bool {
    reach(g, i, j) && reach(g, j, i)
}

pub proof fn lemma_reach_refl(g: Seq<Seq<usize>>, i: int)
    requires
        0 <= i < g.len(),
    ensures
        reach(g, i, i),
{
    reveal(reach);
    let p = seq![i];
    assert(is_path(g, p));
}

pub proof fn lemma_reach_in_range(g: Seq<Seq<usize>>, i: int, j: int)
    requires
        reach(g, i, j),
    ensures
        0 <= i < g.len(),
        0 <= j < g.len(),
{
    reveal(reach);
    let p = choose|p: Seq<int>| #[trigger] is_path(g, p) && p[0] == i && p.last() == j;
    assert(0 <= p[0] < g.len());
    assert(0 <= p[p.len() - 1] < g.len());
}

pub proof fn lemma_edge_in_range(g: Seq<Seq<usize>>, i: int, j: int)
    requires
        wf_adj(g),
        edge(g, i, j),
    ensures
        0 <= i < g.len(),
        0 <= j < g.len(),
{
    let e = choose|e: int| 0 <= e < g[i].len() && g[i][e] as int == j;
    assert(g[i][e] < g.len());
}

pub proof fn lemma_reach_trans(g: Seq<Seq<usize>>, i: int, j: int, k: int)
    requires
        reach(g, i, j),
        reach(g, j, k),
    ensures
        reach(g, i, k),
{
    reveal(reach);
    let p = choose|p: Seq<int>| #[trigger] is_path(g, p) && p[0] == i && p.last() == j;
    let q = choose|q: Seq<int>| #[trigger] is_path(g, q) && q[0] == j && q.last() == k;
    let r = p + q.drop_first();
    assert forall|t: int| 0 <= t < r.len() - 1 implies edge(g, #[trigger] r[t], r[t + 1]) by {
        if t < p.len() - 1 {
            assert(r[t] == p[t] && r[t + 1] == p[t + 1]);
        } else if t == p.len() - 1 {
            assert(r[t] == q[0] && r[t + 1] == q[1]);
        } else {
            let s = t - p.len() + 1;
            assert(r[t] == q[s] && r[t + 1] == q[s + 1]);
        }
    }
    assert forall|t: int| 0 <= t < r.len() implies 0 <= #[trigger] r[t] < g.len() by {
        if t < p.len() {
            assert(r[t] == p[t]);
        } else {
            assert(r[t] == q[t - p.len() + 1]);
        }
    }
    if q.len() == 1 {
        assert(r.last() == p.last());
    } else {
        assert(r.last() == q.last());
    }
    assert(is_path(g, r));
}

pub proof fn lemma_edge_reach(g: Seq<Seq<usize>>, i: int, j: int)
    requires
        wf_adj(g),
        edge(g, i, j),
    ensures
        reach(g, i, j),
{
    reveal(reach);
    lemma_edge_in_range(g, i, j);
    let p = seq![i, j];
    assert(is_path(g, p));
}

pub proof fn lemma_mutual_trans(g: Seq<Seq<usize>>, i: int, j: int, k: int)
    requires
        mutual(g, i, j),
        mutual(g, j, k),
    ensures
        mutual(g, i, k),
{
    lemma_reach_trans(g, i, j, k);
    lemma_reach_trans(g, k, j, i);
}

/// A path that witnesses a reachability.
pub proof fn lemma_reach_path(g: Seq<Seq<usize>>, i: int, j: int) -> (p: Seq<int>)
    requires
        reach(g, i, j),
    ensures
        is_path(g, p),
        p[0] == i,
        p.last() == j,
{
    reveal(reach);
    choose|p: Seq<int>| #[trigger] is_path(g, p) && p[0] == i && p.last() == j
}

/// Any node on a path is reached from its first node and reaches its last.
pub proof fn lemma_path_split(g: Seq<Seq<usize>>, p: Seq<int>, t: int)
    requires
        is_path(g, p),
        0 <= t < p.len(),
    ensures
        reach(g, p[0], p[t]),
        reach(g, p[t], p.last()),
{
    reveal(reach);
    let a = p.subrange(0, t + 1);
    let b = p.subrange(t, p.len() as int);
    assert forall|k: int| 0 <= k < a.len() - 1 implies edge(g, #[trigger] a[k], a[k + 1]) by {
        assert(a[k] == p[k] && a[k + 1] == p[k + 1]);
    }
    assert forall|k: int| 0 <= k < b.len() - 1 implies edge(g, #[trigger] b[k], b[k + 1]) by {
        assert(b[k] == p[k + t] && b[k + 1] == p[k + t + 1]);
    }
    assert(is_path(g, a));
    assert(is_path(g, b));
    assert(a.last() == p[t]);
    assert(b[0] == p[t]);
}

/// A path that starts inside `s` and ends outside it leaves `s` along some edge.
pub proof fn lemma_path_exit(g: Seq<Seq<usize>>, p: Seq<int>, s: Set<int>) -> (t: int)
    requires
        is_path(g, p),
        s.contains(p[0]),
        !s.contains(p.last()),
    ensures
        0 <= t < p.len() - 1,
        s.contains(p[t]),
        !s.contains(p[t + 1]),
        edge(g, p[t], p[t + 1]),
    decreases p.len(),
{
    if s.contains(p[1]) {
        let q = p.drop_first();
        assert forall|k: int| 0 <= k < q.len() - 1 implies edge(g, #[trigger] q[k], q[k + 1]) by {
            assert(q[k] == p[k + 1] && q[k + 1] == p[k + 2]);
        }
        assert(q.last() == p.last());
        let t = lemma_path_exit(g, q, s);
        assert(q[t] == p[t + 1] && q[t + 1] == p[t + 2]);
        t + 1
    } else {
        0
    }
}

} // verus!
