//! Components that no other component enters.
use vstd::prelude::*;
use crate::graph::{edge, lemma_reach_path, lemma_reach_refl, reach, lemma_edge_in_range, lemma_mutual_trans, lemma_reach_in_range, mutual, wf_adj};
use crate::postorder::dfs_order;
use crate::scc::{is_scc_rep, kosaraju, leader};

verus! {

/// No edge enters the component of `r` from a node outside it.
pub open spec fn is_source_component(g: Seq<Seq<usize>>, r: int) -> bool {
    forall|i: int, j: int| #[trigger] edge(g, i, j) && mutual(g, j, r) ==> mutual(g, i, r)
}

/// Some member of `res` lies in the component of `x`.
pub open spec fn lists_component(g: Seq<Seq<usize>>, res: Seq<usize>, x: int) -> bool {
    exists|b: int| 0 <= b < res.len() && mutual(g, x, res[b] as int)
}

/// `res` lists in increasing order one member of each component that no edge
/// enters from outside and that does not hold `start`, and nothing else.
pub open spec fn orphan_roots(g: Seq<Seq<usize>>, start: int, res: Seq<usize>) -> bool {
    &&& forall|a: int, b: int| 0 <= a < b < res.len() ==> res[a] < res[b]
    &&& forall|a: int|
        0 <= a < res.len() ==> (#[trigger] res[a]) < g.len() && is_source_component(g, res[a] as int)
            && !mutual(g, res[a] as int, start)
    &&& forall|a: int, b: int| 0 <= a < res.len() && 0 <= b < res.len() && a != b ==> !mutual(g, res[a] as int, res[b] as int)
    &&& forall|x: int|
        0 <= x < g.len() && #[trigger] is_source_component(g, x) && !mutual(g, x, start) ==> lists_component(g, res, x)
}

/// Node `i` is listed: it represents its component, which no edge enters
/// from outside and which does not hold `start`.
pub open spec fn kept(g: Seq<Seq<usize>>, start: int, i: int) -> bool {
    &&& leader(g, dfs_order(g), i) as int == i
    &&& is_source_component(g, i)
    &&& !mutual(g, i, start)
}

/// The listed nodes below `m`, in increasing order.
pub open spec fn answer_upto(g: Seq<Seq<usize>>, start: int, m: int) -> Seq<usize>
    decreases m,
{
    if m <= 0 {
        Seq::empty()
    } else {
        let prev = answer_upto(g, start, m - 1);
        if kept(g, start, m - 1) {
            prev.push((m - 1) as usize)
        } else {
            prev
        }
    }
}

/// The answer for graph `g` and start `start`.
pub open spec fn answer(g: Seq<Seq<usize>>, start: int) -> Seq<usize> {
    answer_upto(g, start, g.len() as int)
}

/// Some edge already counted, from position `e` of node `i`'s list backwards,
/// runs between two components and ends in the one represented by `r`.
pub open spec fn entered_upto(g: Seq<Seq<usize>>, rep: Seq<usize>, i: int, e: int, r: int) -> bool {
    exists|x: int, f: int|
        0 <= x < g.len() && 0 <= f < g[x].len() && (x < i || (x == i && f < e))
            && rep[x] != rep[#[trigger] g[x][f] as int] && rep[g[x][f] as int] as int == r
}

/// The components that no other component enters, one node of each in
/// increasing order, leaving out the component of `start`.
pub fn solve(adj: &Vec<Vec<usize>>, start: usize) -> (ans: Vec<usize>)
    requires
        wf_adj(adj.deep_view()),
        start < adj.deep_view().len(),
    ensures
        ans@ == answer(adj.deep_view(), start as int),
        orphan_roots(adj.deep_view(), start as int, ans@),
{
    let ghost g = adj.deep_view();
    let n = adj.len();
    let rep = kosaraju(adj);
    let mut in_deg: Vec<usize> = vec![0; n];
    let mut i: usize = 0;
    while i < n
        invariant
            i <= n,
            n == g.len(),
            g == adj.deep_view(),
            wf_adj(g),
            is_scc_rep(g, rep@),
            in_deg@.len() == n,
            forall|r: int| 0 <= r < n ==> (#[trigger] in_deg@[r] == 0 <==> !entered_upto(g, rep@, i as int, 0, r)),
        decreases n - i,
    {
        let mut e: usize = 0;
        assert(adj@[i as int]@ == g[i as int]);
        while e < adj[i].len()
            invariant
                i < n,
                n == g.len(),
                g == adj.deep_view(),
                wf_adj(g),
                is_scc_rep(g, rep@),
                e <= g[i as int].len(),
                in_deg@.len() == n,
                forall|r: int| 0 <= r < n ==> (#[trigger] in_deg@[r] == 0 <==> !entered_upto(g, rep@, i as int, e as int, r)),
            decreases g[i as int].len() - e,
        {
            assert(adj@[i as int]@ == g[i as int]);
            let j = adj[i][e];
            assert(j < n);
            let ghost d0 = in_deg@;
            if rep[i] != rep[j] {
                let r = rep[j];
                in_deg.set(r, in_deg[r].saturating_add(1));
            }
            proof {
                assert forall|r: int| 0 <= r < n implies (#[trigger] in_deg@[r] == 0 <==> !entered_upto(
                    g,
                    rep@,
                    i as int,
                    e + 1,
                    r,
                )) by {
                    if entered_upto(g, rep@, i as int, e + 1, r) {
                        let (x, f) = choose|x: int, f: int|
                            0 <= x < g.len() && 0 <= f < g[x].len() && (x < i || (x == i && f < e + 1))
                                && rep@[x] != rep@[#[trigger] g[x][f] as int] && rep@[g[x][f] as int] as int == r;
                        if !(x == i && f == e) {
                            assert(entered_upto(g, rep@, i as int, e as int, r));
                        }
                    }
                    if entered_upto(g, rep@, i as int, e as int, r) {
                        let (x, f) = choose|x: int, f: int|
                            0 <= x < g.len() && 0 <= f < g[x].len() && (x < i || (x == i && f < e))
                                && rep@[x] != rep@[#[trigger] g[x][f] as int] && rep@[g[x][f] as int] as int == r;
                        assert(entered_upto(g, rep@, i as int, e + 1, r));
                    }
                    if rep@[i as int] != rep@[j as int] && rep@[j as int] == r {
                        assert(g[i as int][e as int] == j);
                        assert(entered_upto(g, rep@, i as int, e + 1, r));
                    }
                }
            }
            e = e + 1;
        }
        proof {
            assert forall|r: int| 0 <= r < n implies (#[trigger] in_deg@[r] == 0 <==> !entered_upto(
                g,
                rep@,
                i + 1,
                0,
                r,
            )) by {
                if entered_upto(g, rep@, i + 1, 0, r) {
                    let (x, f) = choose|x: int, f: int|
                        0 <= x < g.len() && 0 <= f < g[x].len() && (x < i + 1 || (x == i + 1 && f < 0))
                            && rep@[x] != rep@[#[trigger] g[x][f] as int] && rep@[g[x][f] as int] as int == r;
                    assert(entered_upto(g, rep@, i as int, g[i as int].len() as int, r));
                }
            }
        }
        i = i + 1;
    }
    proof {
        assert forall|r: int| 0 <= r < n && rep@[r] == r implies (#[trigger] in_deg@[r] == 0
            <==> is_source_component(g, r)) by {
            if in_deg@[r] == 0 {
                assert forall|x: int, j: int| #[trigger] edge(g, x, j) && mutual(g, j, r) implies mutual(g, x, r) by {
                    lemma_edge_in_range(g, x, j);
                    let f = choose|f: int| 0 <= f < g[x].len() && g[x][f] as int == j;
                    lemma_reach_in_range(g, j, r);
                    if rep@[x] != rep@[j] {
                        assert(rep@[j] == rep@[r]);
                        assert(entered_upto(g, rep@, n as int, 0, r));
                    }
                }
            } else {
                let (x, f) = choose|x: int, f: int|
                    0 <= x < g.len() && 0 <= f < g[x].len() && (x < n || (x == n && f < 0))
                        && rep@[x] != rep@[#[trigger] g[x][f] as int] && rep@[g[x][f] as int] as int == r;
                let j = g[x][f] as int;
                assert(edge(g, x, j));
                assert(mutual(g, j, r));
                assert(!mutual(g, x, r)) by {
                    if mutual(g, x, r) {
                        assert(rep@[x] == rep@[r]);
                    }
                }
            }
        }
    }
    let root = rep[start];
    let mut ans: Vec<usize> = Vec::new();
    let mut i: usize = 0;
    while i < n
        invariant
            i <= n,
            n == g.len(),
            g == adj.deep_view(),
            wf_adj(g),
            start < n,
            root == rep@[start as int],
            is_scc_rep(g, rep@),
            forall|x: int| 0 <= x < n ==> rep@[x] == #[trigger] leader(g, dfs_order(g), x),
            ans@ == answer_upto(g, start as int, i as int),
            in_deg@.len() == n,
            forall|r: int| 0 <= r < n && rep@[r] == r ==> (#[trigger] in_deg@[r] == 0 <==> is_source_component(g, r)),
            forall|a: int, b: int| 0 <= a < b < ans@.len() ==> ans@[a] < ans@[b],
            forall|a: int| 0 <= a < ans@.len() ==> (#[trigger] ans@[a]) < i && rep@[ans@[a] as int] == ans@[a]
                && in_deg@[ans@[a] as int] == 0 && ans@[a] != root,
            forall|r: int| 0 <= r < i && rep@[r] == r && in_deg@[r] == 0 && rep@[r] != root ==> exists|a: int|
                0 <= a < ans@.len() && #[trigger] ans@[a] == r,
        decreases n - i,
    {
        proof {
            assert(rep@[i as int] == leader(g, dfs_order(g), i as int));
            if rep@[i as int] == i {
                if mutual(g, i as int, start as int) {
                    assert(rep@[i as int] == rep@[start as int]);
                }
                if i == root {
                    assert(rep@[i as int] == rep@[start as int]);
                }
            }
        }
        if rep[i] == i && in_deg[i] == 0 && i != root {
            let ghost a0 = ans@;
            ans.push(i);
            proof {
                assert forall|r: int| 0 <= r < i + 1 && rep@[r] == r && in_deg@[r] == 0 && rep@[r] != root implies exists|a: int|
                    0 <= a < ans@.len() && #[trigger] ans@[a] == r by {
                    if r == i {
                        assert(ans@[a0.len() as int] == r);
                    } else {
                        let a = choose|a: int| 0 <= a < a0.len() && #[trigger] a0[a] == r;
                        assert(ans@[a] == a0[a]);
                    }
                }
            }
        }
        i = i + 1;
    }
    proof {
        assert forall|a: int|
            0 <= a < ans@.len() implies (#[trigger] ans@[a]) < g.len() && is_source_component(g, ans@[a] as int)
                && !mutual(g, ans@[a] as int, start as int) by {
            let r = ans@[a] as int;
            if mutual(g, r, start as int) {
                assert(rep@[r] == rep@[start as int]);
            }
        }
        assert forall|a: int, b: int| 0 <= a < ans@.len() && 0 <= b < ans@.len() && a != b implies !mutual(
            g,
            ans@[a] as int,
            ans@[b] as int,
        ) by {
            if a < b {
                assert(ans@[a] < ans@[b]);
            } else {
                assert(ans@[b] < ans@[a]);
            }
        }
        assert forall|x: int|
            0 <= x < g.len() && #[trigger] is_source_component(g, x) && !mutual(g, x, start as int) implies lists_component(g, ans@, x) by {
            let r = rep@[x] as int;
            assert(mutual(g, x, r));
            assert(mutual(g, r, x));
            assert(is_source_component(g, r)) by {
                assert forall|i2: int, j: int| #[trigger] edge(g, i2, j) && mutual(g, j, r) implies mutual(g, i2, r) by {
                    lemma_mutual_trans(g, j, r, x);
                    lemma_mutual_trans(g, i2, x, r);
                }
            }
            assert(rep@[r] != root) by {
                if rep@[r] == root {
                    assert(rep@[x] == rep@[start as int]);
                }
            }
            let a = choose|a: int| 0 <= a < ans@.len() && #[trigger] ans@[a] == r;
        }
    }
    assert(ans@ == answer(g, start as int));
    ans
}

/// The start's own component is never listed: no listed node is the start or
/// shares a component with it, whatever edges enter that component.
pub proof fn lemma_start_component_excluded(g: Seq<Seq<usize>>, start: int, res: Seq<usize>)
    requires
        wf_adj(g),
        0 <= start < g.len(),
        orphan_roots(g, start, res),
    ensures
        forall|a: int| 0 <= a < res.len() ==> !mutual(g, #[trigger] res[a] as int, start) && res[a] != start,
{
    lemma_reach_refl(g, start);
}

/// Without edges a node reaches only itself.
proof fn lemma_edgeless_reach(g: Seq<Seq<usize>>, i: int, j: int)
    requires
        forall|x: int| 0 <= x < g.len() ==> (#[trigger] g[x]).len() == 0,
        reach(g, i, j),
    ensures
        i == j,
{
    let p = lemma_reach_path(g, i, j);
    if p.len() > 1 {
        assert(edge(g, p[0], p[1]));
    }
}

/// The ids from 0 to `n - 1` without `start`, in order.
pub open spec fn all_but(n: int, start: int) -> Seq<usize> {
    Seq::new((n - 1) as nat, |a: int| if a < start { a as usize } else { (a + 1) as usize })
}

/// `x` occurs in `res`.
pub open spec fn listed(res: Seq<usize>, x: int) -> bool {
    exists|b: int| 0 <= b < res.len() && res[b] as int == x
}

proof fn lemma_sorted_cover(n: int, start: int, res: Seq<usize>, a: int)
    requires
        0 <= start < n,
        0 <= a < res.len(),
        forall|b: int, c: int| 0 <= b < c < res.len() ==> res[b] < res[c],
        forall|b: int| 0 <= b < res.len() ==> (#[trigger] res[b]) < n && res[b] != start,
        forall|x: int| 0 <= x < n && x != start ==> #[trigger] listed(res, x),
    ensures
        res[a] as int == if a < start { a } else { a + 1 },
    decreases a,
{
    let ea = if a < start { a } else { a + 1 };
    if a > 0 {
        lemma_sorted_cover(n, start, res, a - 1);
        assert(res[a - 1] < res[a]);
    }
    if res[a] > ea {
        assert(listed(res, ea));
        let b = choose|b: int| 0 <= b < res.len() && res[b] as int == ea;
        if b < a {
            lemma_sorted_cover(n, start, res, b);
        } else if b > a {
            assert(res[a] < res[b]);
        }
    }
}

/// With no edges every node is a component of its own that nothing enters, so
/// the answer is every node but the start, in order.
pub proof fn lemma_edgeless_answer(g: Seq<Seq<usize>>, start: int, res: Seq<usize>)
    requires
        forall|x: int| 0 <= x < g.len() ==> (#[trigger] g[x]).len() == 0,
        0 <= start < g.len(),
        orphan_roots(g, start, res),
    ensures
        res == all_but(g.len() as int, start),
{
    let n = g.len() as int;
    assert forall|x: int| 0 <= x < n && x != start implies #[trigger] listed(res, x) by {
        assert(is_source_component(g, x)) by {
            assert forall|i: int, j: int| #[trigger] edge(g, i, j) && mutual(g, j, x) implies mutual(g, i, x) by {
                assert(g[i].len() == 0);
            }
        }
        assert(!mutual(g, x, start)) by {
            if mutual(g, x, start) {
                lemma_edgeless_reach(g, x, start);
            }
        }
        let b = choose|b: int| 0 <= b < res.len() && mutual(g, x, res[b] as int);
        lemma_edgeless_reach(g, x, res[b] as int);
        assert(res[b] as int == x);
    }
    assert forall|b: int| 0 <= b < res.len() implies (#[trigger] res[b]) < n && res[b] != start by {
        lemma_reach_refl(g, start);
    }
    assert forall|a: int| 0 <= a < res.len() implies res[a] as int == if a < start { a } else { a + 1 } by {
        lemma_sorted_cover(n, start, res, a);
    }
    if res.len() > 0 {
        let l = res.len() - 1;
        assert(res[l] as int == if l < start { l } else { l + 1 });
    }
    if n >= 2 {
        let x = if n - 2 < start { n - 2 } else { n - 1 };
        assert(listed(res, x));
        let b = choose|b: int| 0 <= b < res.len() && res[b] as int == x;
        assert(res[b] as int == if b < start { b } else { b + 1 });
    }
    assert(res.len() == n - 1);
    assert(res =~= all_but(n, start));
}

} // verus!
