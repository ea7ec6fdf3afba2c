//! Strongly connected components by Kosaraju's algorithm.
use vstd::prelude::*;
use crate::graph::{
    edge, lemma_edge_in_range, lemma_mutual_trans, lemma_path_exit, lemma_path_split,
    lemma_reach_in_range, lemma_reach_refl, lemma_reach_trans, mutual, reach, wf_adj,
};
use crate::postorder::{dfs_order, fin_cover, finish_order, in_seq, lemma_unvisited_mark, postorder, unvisited};

verus! {

/// `r` holds the edges of `g` turned around.
pub open spec fn is_reverse(g: Seq<Seq<usize>>, r: Seq<Seq<usize>>) -> bool {
    &&& r.len() == g.len()
    &&& wf_adj(r)
    &&& forall|i: int, j: int| #[trigger] edge(r, j, i) <==> edge(g, i, j)
}

/// `g` has an edge from `x` to `j` that comes before position `e` of node `i`'s list.
pub open spec fn edge_upto(g: Seq<Seq<usize>>, i: int, e: int, x: int, j: int) -> bool {
    &&& 0 <= x < g.len()
    &&& exists|f: int| 0 <= f < g[x].len() && g[x][f] as int == j && (x < i || (x == i && f < e))
}

proof fn lemma_push_edge(r: Seq<Seq<usize>>, j0: int, v: usize, x: int, j: int)
    requires
        0 <= j0 < r.len(),
    ensures
        edge(r.update(j0, r[j0].push(v)), j, x) <==> edge(r, j, x) || (j == j0 && x == v),
{
    let r2 = r.update(j0, r[j0].push(v));
    if edge(r2, j, x) {
        let f = choose|f: int| 0 <= f < r2[j].len() && r2[j][f] as int == x;
        if j == j0 && f < r[j0].len() {
            assert(r[j][f] == r2[j][f]);
        }
    }
    if edge(r, j, x) {
        let f = choose|f: int| 0 <= f < r[j].len() && r[j][f] as int == x;
        assert(r2[j][f] == r[j][f]);
    }
    if j == j0 && x == v {
        assert(r2[j][r[j0].len() as int] == v);
    }
}

proof fn lemma_upto_step(g: Seq<Seq<usize>>, i: int, e: int, x: int, j: int)
    requires
        0 <= i < g.len(),
        0 <= e < g[i].len(),
    ensures
        edge_upto(g, i, e + 1, x, j) <==> edge_upto(g, i, e, x, j) || (x == i && j == g[i][e]),
{
    if edge_upto(g, i, e + 1, x, j) {
        let f = choose|f: int| 0 <= f < g[x].len() && g[x][f] as int == j && (x < i || (x == i && f < e + 1));
        if !(x == i && f == e) {
            assert(edge_upto(g, i, e, x, j));
        }
    }
}

proof fn lemma_upto_row(g: Seq<Seq<usize>>, i: int, x: int, j: int)
    requires
        0 <= i < g.len(),
    ensures
        edge_upto(g, i, g[i].len() as int, x, j) <==> edge_upto(g, i + 1, 0, x, j),
{
    if edge_upto(g, i + 1, 0, x, j) {
        let f = choose|f: int| 0 <= f < g[x].len() && g[x][f] as int == j && (x < i + 1 || (x == i + 1 && f < 0));
        assert(edge_upto(g, i, g[i].len() as int, x, j));
    }
}

/// The adjacency lists of the graph with every edge turned around.
fn reverse_adj(adj: &Vec<Vec<usize>>) -> (radj: Vec<Vec<usize>>)
    requires
        wf_adj(adj.deep_view()),
    ensures
        is_reverse(adj.deep_view(), radj.deep_view()),
{
    let ghost g = adj.deep_view();
    let n = adj.len();
    let mut radj: Vec<Vec<usize>> = Vec::new();
    let mut k: usize = 0;
    while k < n
        invariant
            k <= n,
            n == g.len(),
            radj@.len() == k,
            forall|x: int| 0 <= x < k ==> (#[trigger] radj@[x])@.len() == 0,
        decreases n - k,
    {
        radj.push(Vec::new());
        k = k + 1;
    }
    proof {
        assert forall|x: int, j: int| #[trigger] edge(radj.deep_view(), j, x) <==> edge_upto(g, 0, 0, x, j) by {
            if edge(radj.deep_view(), j, x) {
                assert(radj@[j]@.len() == 0);
            }
        }
    }
    let mut i: usize = 0;
    while i < n
        invariant
            i <= n,
            n == g.len(),
            g == adj.deep_view(),
            wf_adj(g),
            radj@.len() == n,
            wf_adj(radj.deep_view()),
            forall|x: int, j: int| #[trigger] edge(radj.deep_view(), j, x) <==> edge_upto(g, i as int, 0, x, j),
        decreases n - i,
    {
        let mut e: usize = 0;
        assert(adj@[i as int]@ == g[i as int]);
        while e < adj[i].len()
            invariant
                i < n,
                n == g.len(),
                g == adj.deep_view(),
                wf_adj(g),
                e <= g[i as int].len(),
                radj@.len() == n,
                wf_adj(radj.deep_view()),
                forall|x: int, j: int| #[trigger] edge(radj.deep_view(), j, x) <==> edge_upto(g, i as int, e as int, x, j),
            decreases g[i as int].len() - e,
        {
            assert(adj@[i as int]@ == g[i as int]);
            let j = adj[i][e];
            let ghost r0 = radj.deep_view();
            let ghost before = radj@;
            radj[j].push(i);
            proof {
                assert forall|x: int| 0 <= x < radj@.len() implies radj.deep_view()[x]
                    =~= r0.update(j as int, r0[j as int].push(i))[x] by {
                    if x == j {
                        assert(radj@[x]@ == before[x]@.push(i));
                    } else {
                        assert(radj@[x] == before[x]);
                    }
                }
                assert(radj.deep_view() =~= r0.update(j as int, r0[j as int].push(i)));
                assert forall|x: int, jj: int| #[trigger] edge(radj.deep_view(), jj, x) <==> edge_upto(
                    g,
                    i as int,
                    e + 1,
                    x,
                    jj,
                ) by {
                    lemma_push_edge(r0, j as int, i, x, jj);
                    lemma_upto_step(g, i as int, e as int, x, jj);
                }
                let r1 = radj.deep_view();
                assert forall|a: int, f: int| 0 <= a < r1.len() && 0 <= f < r1[a].len() implies (
                #[trigger] r1[a][f]) < r1.len() by {
                    if a == j && f == r0[a].len() {
                    } else {
                        assert(r1[a][f] == r0[a][f]);
                    }
                }
            }
            e = e + 1;
        }
        proof {
            assert forall|x: int, j: int| #[trigger] edge(radj.deep_view(), j, x) <==> edge_upto(
                g,
                i + 1,
                0,
                x,
                j,
            ) by {
                lemma_upto_row(g, i as int, x, j);
            }
        }
        i = i + 1;
    }
    proof {
        assert forall|x: int, j: int| #[trigger] edge(radj.deep_view(), j, x) <==> edge(g, x, j) by {
            if edge(g, x, j) {
                let f = choose|f: int| 0 <= f < g[x].len() && g[x][f] as int == j;
                assert(edge_upto(g, n as int, 0, x, j));
            }
        }
    }
    radj
}

/// `rep` names for each node a member of its strongly connected component,
/// the same member for the whole component, which names itself.
pub open spec fn is_scc_rep(g: Seq<Seq<usize>>, rep: Seq<usize>) -> bool {
    &&& rep.len() == g.len()
    &&& forall|i: int|
        0 <= i < g.len() ==> (#[trigger] rep[i]) < g.len() && rep[rep[i] as int] == rep[i]
            && mutual(g, i, rep[i] as int)
    &&& forall|i: int, j: int|
        0 <= i < g.len() && 0 <= j < g.len() ==> (rep[i] == rep[j] <==> #[trigger] mutual(g, i, j))
}

/// Position `c` of `o` holds the member of `x`'s component that comes last in `o`.
pub open spec fn latest(g: Seq<Seq<usize>>, o: Seq<usize>, x: int, c: int) -> bool {
    &&& 0 <= c < o.len()
    &&& mutual(g, x, o[c] as int)
    &&& forall|c2: int| c < c2 < o.len() ==> !mutual(g, x, #[trigger] o[c2] as int)
}

/// The member of `x`'s component that comes last in `o`.
pub open spec fn leader(g: Seq<Seq<usize>>, o: Seq<usize>, x: int) -> usize {
    o[choose|c: int| latest(g, o, x, c)]
}

proof fn lemma_leader(g: Seq<Seq<usize>>, o: Seq<usize>, x: int, c: int)
    requires
        latest(g, o, x, c),
    ensures
        leader(g, o, x) == o[c],
{
    let c1 = choose|c: int| latest(g, o, x, c);
    if c1 < c {
        assert(!mutual(g, x, o[c] as int));
    } else if c1 > c {
        assert(!mutual(g, x, o[c1] as int));
    }
}

/// Components of every finishing position from `k` on have been assigned.
#[verifier::opaque]
pub open spec fn assign_inv(g: Seq<Seq<usize>>, o: Seq<usize>, k: int, vis: Seq<bool>, rep: Seq<usize>) -> bool {
    &&& vis.len() == g.len()
    &&& rep.len() == g.len()
    &&& forall|x: int, y: int| 0 <= x < g.len() && vis[x] && #[trigger] mutual(g, x, y) ==> vis[y]
    &&& forall|b: int| k <= b < o.len() ==> vis[#[trigger] o[b] as int]
    &&& forall|x: int|
        0 <= x < g.len() && #[trigger] vis[x] ==> rep[x] < g.len() && vis[rep[x] as int] && mutual(
            g,
            x,
            rep[x] as int,
        ) && rep[rep[x] as int] == rep[x]
    &&& forall|x: int, y: int|
        0 <= x < g.len() && 0 <= y < g.len() && vis[x] && vis[y] && #[trigger] mutual(g, x, y)
            ==> rep[x] == rep[y]
    &&& forall|x: int| 0 <= x < g.len() && vis[x] ==> rep[x] == #[trigger] leader(g, o, x)
}

/// The traversal of the reversed graph from `u` over nodes not assigned before it began.
pub open spec fn sweep_inv(
    g: Seq<Seq<usize>>,
    u: int,
    vis0: Seq<bool>,
    rep0: Seq<usize>,
    vis: Seq<bool>,
    rep: Seq<usize>,
    work: Seq<usize>,
) -> bool {
    &&& vis.len() == g.len()
    &&& rep.len() == g.len()
    &&& vis0.len() == g.len()
    &&& 0 <= u < g.len()
    &&& vis[u]
    &&& !vis0[u]
    &&& forall|x: int| 0 <= x < g.len() && #[trigger] vis0[x] ==> vis[x] && rep[x] == rep0[x]
    &&& forall|x: int| 0 <= x < g.len() && #[trigger] vis[x] && !vis0[x] ==> reach(g, x, u) && rep[x] == u
    &&& forall|w: int| 0 <= w < work.len() ==> (#[trigger] work[w]) < g.len() && vis[work[w] as int] && !vis0[work[w] as int]
}

/// Every node reached so far, and no longer waiting, has had its predecessors visited.
pub open spec fn sweep_closed(g: Seq<Seq<usize>>, vis0: Seq<bool>, vis: Seq<bool>, work: Seq<usize>, skip: int) -> bool {
    forall|x: int, y: int|
        0 <= x < g.len() && vis[x] && !vis0[x] && !work.contains(x as usize) && x != skip && #[trigger] edge(g, y, x)
            ==> vis[y]
}

proof fn lemma_sweep_member(g: Seq<Seq<usize>>, o: Seq<usize>, k: int, vis0: Seq<bool>, rep0: Seq<usize>, x: int)
    requires
        finish_order(g, o),
        assign_inv(g, o, k + 1, vis0, rep0),
        0 <= k < o.len(),
        !vis0[o[k] as int],
        0 <= x < g.len(),
        !vis0[x],
        reach(g, x, o[k] as int),
    ensures
        mutual(g, x, o[k] as int),
{
    reveal(assign_inv);
    let u = o[k] as int;
    assert(in_seq(o, x));
    let bx = choose|b: int| 0 <= b < o.len() && o[b] as int == x;
    assert(fin_cover(g, o, o[bx] as int, u));
    let (b, c) = choose|b: int, c: int|
        0 <= b <= c < o.len() && #[trigger] o[b] as int == u && #[trigger] mutual(g, x, o[c] as int);
    assert(b == k) by {
        if b != k {
            if b < k {
                assert(o[b] != o[k]);
            } else {
                assert(o[k] != o[b]);
            }
        }
    }
    if c > k {
        assert(vis0[o[c] as int]);
        assert(mutual(g, o[c] as int, x));
        lemma_reach_in_range(g, x, o[c] as int);
    }
}

proof fn lemma_sweep_complete(
    g: Seq<Seq<usize>>,
    o: Seq<usize>,
    k: int,
    vis0: Seq<bool>,
    rep0: Seq<usize>,
    vis: Seq<bool>,
    rep: Seq<usize>,
    y: int,
)
    requires
        assign_inv(g, o, k + 1, vis0, rep0),
        sweep_inv(g, o[k] as int, vis0, rep0, vis, rep, Seq::empty()),
        sweep_closed(g, vis0, vis, Seq::empty(), -1),
        mutual(g, y, o[k] as int),
    ensures
        vis[y],
{
    reveal(assign_inv);
    let u = o[k] as int;
    lemma_reach_in_range(g, y, u);
    if !vis[y] {
        let p = crate::graph::lemma_reach_path(g, y, u);
        let out = Set::new(|x: int| !(0 <= x < g.len() && vis[x]));
        let t = lemma_path_exit(g, p, out);
        let a = p[t];
        let b = p[t + 1];
        if vis0[b] {
            lemma_path_split(g, p, t + 1);
            lemma_reach_trans(g, u, y, b);
            assert(mutual(g, b, u));
        } else {
            assert(!Seq::<usize>::empty().contains(b as usize));
        }
    }
}

#[verifier::rlimit(60)]
proof fn lemma_sweep_done(
    g: Seq<Seq<usize>>,
    o: Seq<usize>,
    k: int,
    vis0: Seq<bool>,
    rep0: Seq<usize>,
    vis: Seq<bool>,
    rep: Seq<usize>,
)
    requires
        finish_order(g, o),
        0 <= k < o.len(),
        assign_inv(g, o, k + 1, vis0, rep0),
        sweep_inv(g, o[k] as int, vis0, rep0, vis, rep, Seq::empty()),
        sweep_closed(g, vis0, vis, Seq::empty(), -1),
    ensures
        assign_inv(g, o, k, vis, rep),
{
    reveal(assign_inv);
    let u = o[k] as int;
    lemma_reach_refl(g, u);
    assert forall|x: int| 0 <= x < g.len() && vis[x] && !vis0[x] implies #[trigger] mutual(g, x, u) by {
        lemma_sweep_member(g, o, k, vis0, rep0, x);
    }
    assert forall|x: int, y: int| 0 <= x < g.len() && vis[x] && #[trigger] mutual(g, x, y) implies vis[y] by {
        lemma_reach_in_range(g, x, y);
        if vis0[x] {
        } else {
            assert(mutual(g, x, u));
            assert(mutual(g, y, x));
            lemma_mutual_trans(g, y, x, u);
            lemma_sweep_complete(g, o, k, vis0, rep0, vis, rep, y);
        }
    }
    assert forall|b: int| k <= b < o.len() implies vis[#[trigger] o[b] as int] by {
        if b > k {
            assert(vis0[o[b] as int]);
        }
    }
    assert forall|x: int| 0 <= x < g.len() && #[trigger] vis[x] implies rep[x] < g.len() && vis[rep[x] as int]
        && mutual(g, x, rep[x] as int) && rep[rep[x] as int] == rep[x] by {
        if vis0[x] {
            assert(vis0[rep0[x] as int]);
        } else {
            assert(mutual(g, x, u));
        }
    }
    assert forall|x: int, y: int|
        0 <= x < g.len() && 0 <= y < g.len() && vis[x] && vis[y] && #[trigger] mutual(g, x, y)
            implies rep[x] == rep[y] by {
        assert(mutual(g, y, x));
        if vis0[x] {
            assert(vis0[y]);
        } else if vis0[y] {
            assert(vis0[x]);
        }
    }
    assert forall|x: int| 0 <= x < g.len() && vis[x] implies rep[x] == #[trigger] leader(g, o, x) by {
        if !vis0[x] {
            assert forall|c2: int| k < c2 < o.len() implies !mutual(g, x, #[trigger] o[c2] as int) by {
                assert(vis0[o[c2] as int]);
                if mutual(g, x, o[c2] as int) {
                    assert(mutual(g, o[c2] as int, x));
                }
            }
            assert(latest(g, o, x, k));
            lemma_leader(g, o, x, k);
        }
    }
}

proof fn lemma_assign_init(g: Seq<Seq<usize>>, o: Seq<usize>, vis: Seq<bool>, rep: Seq<usize>)
    requires
        vis.len() == g.len(),
        rep.len() == g.len(),
        forall|x: int| 0 <= x < g.len() ==> !(#[trigger] vis[x]),
    ensures
        assign_inv(g, o, o.len() as int, vis, rep),
{
    reveal(assign_inv);
    assert forall|x: int, y: int| 0 <= x < g.len() && vis[x] && #[trigger] mutual(g, x, y) implies vis[y] by {}
}

proof fn lemma_assign_skip(g: Seq<Seq<usize>>, o: Seq<usize>, k: int, vis: Seq<bool>, rep: Seq<usize>)
    requires
        assign_inv(g, o, k + 1, vis, rep),
        0 <= k,
        vis[o[k] as int],
    ensures
        assign_inv(g, o, k, vis, rep),
{
    reveal(assign_inv);
}

proof fn lemma_assign_all(g: Seq<Seq<usize>>, o: Seq<usize>, vis: Seq<bool>, rep: Seq<usize>)
    requires
        finish_order(g, o),
        assign_inv(g, o, 0, vis, rep),
    ensures
        is_scc_rep(g, rep),
        forall|x: int| 0 <= x < g.len() ==> rep[x] == #[trigger] leader(g, o, x),
{
    reveal(assign_inv);
    assert forall|x: int| 0 <= x < g.len() implies #[trigger] vis[x] by {
        assert(in_seq(o, x));
        let b = choose|b: int| 0 <= b < o.len() && o[b] as int == x;
        assert(vis[o[b] as int]);
    }
    assert forall|i: int, j: int| 0 <= i < g.len() && 0 <= j < g.len() implies (rep[i] == rep[j]
        <==> #[trigger] mutual(g, i, j)) by {
        assert(vis[i] && vis[j]);
        if rep[i] == rep[j] {
            let r = rep[i] as int;
            assert(mutual(g, j, r));
            assert(mutual(g, r, j));
            lemma_mutual_trans(g, i, r, j);
        }
    }
    assert forall|i: int| 0 <= i < g.len() implies (#[trigger] rep[i]) < g.len() && rep[rep[i] as int]
        == rep[i] && mutual(g, i, rep[i] as int) by {
        assert(vis[i]);
    }
}

/// Marks with `u` every node not yet marked from which `u` can be reached
/// through such nodes, walking the reversed graph from `u` with a work list.
fn sweep(adj: &Vec<Vec<usize>>, radj: &Vec<Vec<usize>>, u: usize, visited: &mut Vec<bool>, rep: &mut Vec<usize>)
    requires
        wf_adj(adj.deep_view()),
        is_reverse(adj.deep_view(), radj.deep_view()),
        u < adj.deep_view().len(),
        old(visited)@.len() == adj.deep_view().len(),
        old(rep)@.len() == adj.deep_view().len(),
        !old(visited)@[u as int],
    ensures
        sweep_inv(adj.deep_view(), u as int, old(visited)@, old(rep)@, final(visited)@, final(rep)@, Seq::empty()),
        sweep_closed(adj.deep_view(), old(visited)@, final(visited)@, Seq::empty(), -1),
{
    let ghost g = adj.deep_view();
    let n = adj.len();
    let ghost vis0 = visited@;
    let ghost rep0 = rep@;
    visited.set(u, true);
    rep.set(u, u);
    let mut work: Vec<usize> = Vec::new();
    work.push(u);
    proof {
        lemma_reach_refl(g, u as int);
        assert forall|x: int, y: int|
            0 <= x < g.len() && visited@[x] && !vis0[x] && !work@.contains(x as usize) && x != -1
                && #[trigger] edge(g, y, x) implies visited@[y] by {
            assert(x == u);
            assert(work@[0] == u);
        }
    }
    while work.len() > 0
        invariant
            n == g.len(),
            g == adj.deep_view(),
            wf_adj(g),
            is_reverse(g, radj.deep_view()),
            sweep_inv(g, u as int, vis0, rep0, visited@, rep@, work@),
            sweep_closed(g, vis0, visited@, work@, -1),
        decreases 2 * unvisited(visited@) + work@.len(),
    {
        let ghost m0 = 2 * unvisited(visited@) + work@.len();
        let ghost w0 = work@;
        let x = work.pop().unwrap();
        proof {
            assert(w0 =~= work@.push(x));
            assert(w0[w0.len() - 1] == x);
            assert forall|x1: int, y: int|
                0 <= x1 < g.len() && visited@[x1] && !vis0[x1] && !work@.contains(x1 as usize)
                    && x1 != x && #[trigger] edge(g, y, x1) implies visited@[y] by {
                if w0.contains(x1 as usize) {
                    let w = choose|w: int| 0 <= w < w0.len() && w0[w] == x1 as usize;
                    if w < work@.len() {
                        assert(work@[w] == w0[w]);
                    }
                }
            }
            assert(visited@[x as int] && !vis0[x as int]);
        }
        let mut e: usize = 0;
        assert(radj@[x as int]@ == radj.deep_view()[x as int]);
        while e < radj[x].len()
            invariant
                n == g.len(),
                g == adj.deep_view(),
                wf_adj(g),
                x < n,
                is_reverse(g, radj.deep_view()),
                e <= radj.deep_view()[x as int].len(),
                visited@[x as int],
                !vis0[x as int],
                sweep_inv(g, u as int, vis0, rep0, visited@, rep@, work@),
                sweep_closed(g, vis0, visited@, work@, x as int),
                forall|f: int| 0 <= f < e ==> visited@[#[trigger] radj.deep_view()[x as int][f] as int],
                2 * unvisited(visited@) + work@.len() < m0,
            decreases radj.deep_view()[x as int].len() - e,
        {
            assert(radj@[x as int]@ == radj.deep_view()[x as int]);
            let y = radj[x][e];
            proof {
                assert(edge(radj.deep_view(), x as int, y as int));
                assert(edge(g, y as int, x as int));
                lemma_edge_in_range(g, y as int, x as int);
            }
            if !visited[y] {
                let ghost wb = work@;
                proof {
                    crate::graph::lemma_edge_reach(g, y as int, x as int);
                    lemma_reach_trans(g, y as int, x as int, u as int);
                    lemma_unvisited_mark(visited@, y as int);
                }
                visited.set(y, true);
                rep.set(y, u);
                work.push(y);
                proof {
                    assert forall|x1: int, y1: int|
                        0 <= x1 < g.len() && visited@[x1] && !vis0[x1] && !work@.contains(x1 as usize)
                            && x1 != x && #[trigger] edge(g, y1, x1) implies visited@[y1] by {
                        assert(x1 != y) by {
                            assert(work@[wb.len() as int] == y);
                        }
                        if wb.contains(x1 as usize) {
                            let w = choose|w: int| 0 <= w < wb.len() && wb[w] == x1 as usize;
                            assert(work@[w] == wb[w]);
                        }
                    }
                    assert forall|w: int| 0 <= w < work@.len() implies (#[trigger] work@[w]) < g.len()
                        && visited@[work@[w] as int] && !vis0[work@[w] as int] by {
                        if w < wb.len() {
                            assert(work@[w] == wb[w]);
                        }
                    }
                }
            }
            e = e + 1;
        }
        proof {
            assert forall|x1: int, y: int|
                0 <= x1 < g.len() && visited@[x1] && !vis0[x1] && !work@.contains(x1 as usize)
                    && x1 != -1 && #[trigger] edge(g, y, x1) implies visited@[y] by {
                if x1 == x {
                    assert(edge(radj.deep_view(), x as int, y));
                    let f = choose|f: int|
                        0 <= f < radj.deep_view()[x as int].len() && radj.deep_view()[x as int][f] as int == y;
                    assert(visited@[radj.deep_view()[x as int][f] as int]);
                }
            }
        }
    }
    proof {
        assert(work@ =~= Seq::<usize>::empty());
    }
}

/// The representative of each node's strongly connected component: a depth-first
/// pass records finishing order, and a pass over the reversed graph, from the
/// last finished node down, marks each component with the node it started from.
pub fn kosaraju(adj: &Vec<Vec<usize>>) -> (rep: Vec<usize>)
    requires
        wf_adj(adj.deep_view()),
    ensures
        is_scc_rep(adj.deep_view(), rep@),
        forall|x: int|
            0 <= x < adj.deep_view().len() ==> rep@[x] == #[trigger] leader(adj.deep_view(), dfs_order(adj.deep_view()), x),
{
    let ghost g = adj.deep_view();
    let n = adj.len();
    let order = postorder(adj);
    let radj = reverse_adj(adj);
    let mut visited: Vec<bool> = vec![false; n];
    let mut rep: Vec<usize> = vec![0; n];
    let mut k: usize = order.len();
    proof {
        lemma_assign_init(g, order@, visited@, rep@);
    }
    while k > 0
        invariant
            k <= order@.len(),
            n == g.len(),
            g == adj.deep_view(),
            wf_adj(g),
            finish_order(g, order@),
            is_reverse(g, radj.deep_view()),
            assign_inv(g, order@, k as int, visited@, rep@),
            visited@.len() == n,
            rep@.len() == n,
        decreases k,
    {
        k = k - 1;
        let u = order[k];
        if !visited[u] {
            let ghost vis0 = visited@;
            let ghost rep0 = rep@;
            sweep(adj, &radj, u, &mut visited, &mut rep);
            proof {
                lemma_sweep_done(g, order@, k as int, vis0, rep0, visited@, rep@);
            }
        } else {
            proof {
                lemma_assign_skip(g, order@, k as int, visited@, rep@);
            }
        }
    }
    proof {
        lemma_assign_all(g, order@, visited@, rep@);
    }
    rep
}

} // verus!
