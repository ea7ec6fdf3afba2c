//! First pass of Kosaraju's algorithm: depth-first finishing order.
use vstd::prelude::*;
use crate::graph::{
    edge, lemma_edge_in_range, lemma_mutual_trans, lemma_path_exit, lemma_path_split,
    lemma_reach_refl, lemma_reach_trans, mutual, reach, wf_adj,
};

verus! {

/// Node `y` occurs in `o`.
pub open spec fn in_seq(o: Seq<usize>, y: int) -> bool {
    exists|b: int| 0 <= b < o.len() && o[b] as int == y
}

/// The nodes of the traversal frames, bottom first.
pub open spec fn frame_nodes(st: Seq<(usize, usize)>) -> Seq<int> {
    Seq::new(st.len(), |k: int| st[k].0 as int)
}

/// Some member of `x`'s component finishes no earlier than `y`.
pub open spec fn fin_cover(g: Seq<Seq<usize>>, o: Seq<usize>, x: int, y: int) -> bool {
    exists|b: int, c: int|
        0 <= b <= c < o.len() && #[trigger] o[b] as int == y && #[trigger] mutual(g, x, o[c] as int)
}

/// Some member of `x`'s component is still being explored.
pub open spec fn stack_cover(g: Seq<Seq<usize>>, ns: Seq<int>, x: int) -> bool {
    exists|k: int| 0 <= k < ns.len() && #[trigger] mutual(g, x, ns[k])
}

/// The state of the depth-first traversal between two steps.
pub open spec fn dfs_inv(g: Seq<Seq<usize>>, vis: Seq<bool>, st: Seq<(usize, usize)>, o: Seq<usize>) -> bool {
    let ns = frame_nodes(st);
    &&& wf_adj(g)
    &&& vis.len() == g.len()
    &&& forall|b: int| 0 <= b < o.len() ==> (#[trigger] o[b]) < g.len()
    &&& forall|b: int, c: int| 0 <= b < c < o.len() ==> o[b] != o[c]
    &&& forall|k: int|
        0 <= k < st.len() ==> (#[trigger] st[k]).0 < g.len() && st[k].1 <= g[st[k].0 as int].len()
    &&& forall|a: int, b: int| 0 <= a < b < st.len() ==> st[a].0 != st[b].0
    &&& forall|x: int| 0 <= x < g.len() ==> (#[trigger] vis[x] <==> (in_seq(o, x) || ns.contains(x)))
    &&& forall|k: int| 0 <= k < ns.len() ==> !in_seq(o, #[trigger] ns[k])
    &&& forall|a: int, b: int| 0 <= a <= b < ns.len() ==> #[trigger] reach(g, ns[a], ns[b])
    &&& forall|k: int, e: int|
        0 <= k < st.len() && 0 <= e < st[k].1 ==> vis[#[trigger] g[st[k].0 as int][e] as int]
    &&& forall|b: int, e: int|
        0 <= b < o.len() && 0 <= e < g[o[b] as int].len() ==> vis[#[trigger] g[o[b] as int][e] as int]
    &&& forall|b: int, y: int|
        0 <= b < o.len() && #[trigger] reach(g, o[b] as int, y) ==> fin_cover(g, o, o[b] as int, y)
            || stack_cover(g, ns, o[b] as int)
}

/// `o` lists every node once, and whatever a node reaches finishes no later
/// than some member of that node's component.
pub open spec fn finish_order(g: Seq<Seq<usize>>, o: Seq<usize>) -> bool {
    &&& forall|b: int| 0 <= b < o.len() ==> (#[trigger] o[b]) < g.len()
    &&& forall|b: int, c: int| 0 <= b < c < o.len() ==> o[b] != o[c]
    &&& forall|x: int| 0 <= x < g.len() ==> #[trigger] in_seq(o, x)
    &&& forall|b: int, y: int|
        0 <= b < o.len() && #[trigger] reach(g, o[b] as int, y) ==> fin_cover(g, o, o[b] as int, y)
}

/// Number of nodes not yet visited.
pub open spec fn unvisited(vis: Seq<bool>) -> nat
    decreases vis.len(),
{
    if vis.len() == 0 {
        0
    } else {
        unvisited(vis.drop_last()) + if vis.last() {
            0nat
        } else {
            1nat
        }
    }
}

pub proof fn lemma_unvisited_mark(vis: Seq<bool>, x: int)
    requires
        0 <= x < vis.len(),
        !vis[x],
    ensures
        unvisited(vis.update(x, true)) + 1 == unvisited(vis),
    decreases vis.len(),
{
    let w = vis.update(x, true);
    if x == vis.len() - 1 {
        assert(w.drop_last() =~= vis.drop_last());
    } else {
        assert(w.drop_last() =~= vis.drop_last().update(x, true));
        lemma_unvisited_mark(vis.drop_last(), x);
    }
}

/// Edges that the frames have still to follow.
pub open spec fn pending(g: Seq<Seq<usize>>, st: Seq<(usize, usize)>) -> int
    decreases st.len(),
{
    if st.len() == 0 {
        0
    } else {
        pending(g, st.drop_last()) + g[st.last().0 as int].len() - st.last().1
    }
}

proof fn lemma_pending_nonneg(g: Seq<Seq<usize>>, st: Seq<(usize, usize)>)
    requires
        forall|k: int| 0 <= k < st.len() ==> (#[trigger] st[k]).1 <= g[st[k].0 as int].len(),
    ensures
        pending(g, st) >= 0,
    decreases st.len(),
{
    if st.len() > 0 {
        let d = st.drop_last();
        assert forall|k: int| 0 <= k < d.len() implies (#[trigger] d[k]).1 <= g[d[k].0 as int].len() by {
            assert(d[k] == st[k]);
        }
        lemma_pending_nonneg(g, d);
    }
}

proof fn lemma_start(g: Seq<Seq<usize>>, vis: Seq<bool>, o: Seq<usize>, s: usize)
    requires
        dfs_inv(g, vis, Seq::empty(), o),
        0 <= s < g.len(),
        !vis[s as int],
    ensures
        dfs_inv(g, vis.update(s as int, true), seq![(s, 0usize)], o),
{
    let st = seq![(s, 0usize)];
    let ns = frame_nodes(st);
    let vis2 = vis.update(s as int, true);
    assert(ns =~= seq![s as int]);
    assert(frame_nodes(Seq::empty()) =~= Seq::<int>::empty());
    lemma_reach_refl(g, s as int);
    assert forall|x: int| 0 <= x < g.len() implies (#[trigger] vis2[x] <==> (in_seq(o, x)
        || ns.contains(x))) by {
        if x == s {
            assert(ns[0] == s);
        }
    }
    assert forall|b: int, y: int|
        0 <= b < o.len() && #[trigger] reach(g, o[b] as int, y) implies fin_cover(g, o, o[b] as int, y)
            || stack_cover(g, ns, o[b] as int) by {
        assert(!stack_cover(g, frame_nodes(Seq::empty()), o[b] as int));
    }
}

proof fn lemma_advance(g: Seq<Seq<usize>>, vis: Seq<bool>, st: Seq<(usize, usize)>, o: Seq<usize>, i1: usize)
    requires
        i1 == st.last().1 + 1,
        dfs_inv(g, vis, st, o),
        st.len() > 0,
        st.last().1 < g[st.last().0 as int].len(),
        vis[g[st.last().0 as int][st.last().1 as int] as int],
    ensures
        dfs_inv(g, vis, st.update(st.len() - 1, (st.last().0, i1)), o),
{
    let top = st.len() - 1;
    let st2 = st.update(top, (st.last().0, i1));
    assert(frame_nodes(st2) =~= frame_nodes(st));
    assert forall|k: int, e: int| 0 <= k < st2.len() && 0 <= e < st2[k].1 implies vis[
        #[trigger] g[st2[k].0 as int][e] as int] by {
        if k != top || e < st[k].1 {
            assert(st2[k].0 == st[k].0);
        }
    }
}

proof fn lemma_descend(g: Seq<Seq<usize>>, vis: Seq<bool>, st: Seq<(usize, usize)>, o: Seq<usize>, i1: usize)
    requires
        i1 == st.last().1 + 1,
        dfs_inv(g, vis, st, o),
        st.len() > 0,
        st.last().1 < g[st.last().0 as int].len(),
        !vis[g[st.last().0 as int][st.last().1 as int] as int],
    ensures
        ({
            let b = g[st.last().0 as int][st.last().1 as int];
            dfs_inv(
                g,
                vis.update(b as int, true),
                st.update(st.len() - 1, (st.last().0, i1)).push((b, 0usize)),
                o,
            )
        }),
{
    let top = st.len() - 1;
    let a = st.last().0 as int;
    let b = g[a][st.last().1 as int];
    let st1 = st.update(top, (st.last().0, i1));
    let st2 = st1.push((b, 0usize));
    let vis2 = vis.update(b as int, true);
    let ns = frame_nodes(st);
    let ns2 = frame_nodes(st2);
    assert(ns2 =~= ns.push(b as int));
    assert(st[top] == st.last());
    assert(b < g.len());
    assert(edge(g, a, b as int));
    assert(!ns.contains(b as int));
    assert(!in_seq(o, b as int));
    lemma_reach_refl(g, b as int);
    assert forall|x: int| 0 <= x < g.len() implies (#[trigger] vis2[x] <==> (in_seq(o, x)
        || ns2.contains(x))) by {
        if x == b {
            assert(ns2[ns.len() as int] == x);
        } else if ns.contains(x) {
            let k = choose|k: int| 0 <= k < ns.len() && ns[k] == x;
            assert(ns2[k] == x);
        } else if ns2.contains(x) {
            let k = choose|k: int| 0 <= k < ns2.len() && ns2[k] == x;
            assert(ns[k] == x);
        }
    }
    assert forall|i: int, j: int| 0 <= i <= j < ns2.len() implies #[trigger] reach(g, ns2[i], ns2[j]) by {
        if j == ns.len() {
            if i < j {
                assert(reach(g, ns[i], ns[top]));
                crate::graph::lemma_edge_reach(g, a, b as int);
                lemma_reach_trans(g, ns[i], a, b as int);
            }
        } else {
            assert(ns2[i] == ns[i] && ns2[j] == ns[j]);
        }
    }
    assert forall|k: int, e: int| 0 <= k < st2.len() && 0 <= e < st2[k].1 implies vis2[
        #[trigger] g[st2[k].0 as int][e] as int] by {
        if k < top || (k == top && e < st[k].1) {
            assert(st2[k].0 == st[k].0);
        }
    }
    assert forall|bb: int, y: int|
        0 <= bb < o.len() && #[trigger] reach(g, o[bb] as int, y) implies fin_cover(
        g,
        o,
        o[bb] as int,
        y,
    ) || stack_cover(g, ns2, o[bb] as int) by {
        if stack_cover(g, ns, o[bb] as int) {
            let k = choose|k: int| 0 <= k < ns.len() && #[trigger] mutual(g, o[bb] as int, ns[k]);
            assert(ns2[k] == ns[k]);
        }
    }
    assert(vis2.len() == g.len());
    assert forall|b: int, c: int| 0 <= b < c < st2.len() implies st2[b].0 != st2[c].0 by {
        if c == st2.len() - 1 {
            assert(ns2[b] == st2[b].0);
            assert(ns.contains(st2[b].0 as int)) by { assert(ns[b] == st2[b].0); }
        }
    }
    assert forall|k: int| 0 <= k < st2.len() implies (#[trigger] st2[k]).0 < g.len() && st2[k].1
        <= g[st2[k].0 as int].len() by {
        if k < top {
            assert(st2[k] == st[k]);
        } else if k == top {
            assert(st[k] == st.last());
        }
    }
    assert forall|k: int| 0 <= k < ns2.len() implies !in_seq(o, #[trigger] ns2[k]) by {
        if k < ns.len() {
            assert(ns2[k] == ns[k]);
        }
    }
    assert forall|bb: int, e: int| 0 <= bb < o.len() && 0 <= e < g[o[bb] as int].len() implies vis2[
        #[trigger] g[o[bb] as int][e] as int] by {
        assert(vis[g[o[bb] as int][e] as int]);
    }
}

/// When a node finishes, whatever it reaches has finished or is reached back
/// by a node that is still being explored.
proof fn lemma_finish_cover(g: Seq<Seq<usize>>, vis: Seq<bool>, st: Seq<(usize, usize)>, o: Seq<usize>, y: int)
    requires
        dfs_inv(g, vis, st, o),
        st.len() > 0,
        st.last().1 == g[st.last().0 as int].len(),
        reach(g, st.last().0 as int, y),
    ensures
        fin_cover(g, o.push(st.last().0), st.last().0 as int, y)
            || stack_cover(g, frame_nodes(st.drop_last()), st.last().0 as int),
{
    let top = st.len() - 1;
    let a = st.last().0 as int;
    let o2 = o.push(st.last().0);
    let ns = frame_nodes(st);
    let ns2 = frame_nodes(st.drop_last());
    assert(ns[top] == a);
    crate::graph::lemma_reach_in_range(g, a, y);
    lemma_reach_refl(g, a);
    if in_seq(o2, y) {
        let b = choose|b: int| 0 <= b < o2.len() && o2[b] as int == y;
        assert(o2[o.len() as int] as int == a);
        assert(mutual(g, a, o2[o.len() as int] as int));
    } else {
        let p = crate::graph::lemma_reach_path(g, a, y);
        let fin = Set::new(|x: int| in_seq(o2, x));
        assert(in_seq(o2, a)) by {
            assert(o2[o.len() as int] as int == a);
        }
        let t = lemma_path_exit(g, p, fin);
        let u = p[t];
        let w = p[t + 1];
        lemma_edge_in_range(g, u, w);
        let e = choose|e: int| 0 <= e < g[u].len() && g[u][e] as int == w;
        if u == a {
            assert(st[top] == st.last());
            assert(vis[g[st[top].0 as int][e] as int]);
        } else {
            let b = choose|b: int| 0 <= b < o2.len() && o2[b] as int == u;
            assert(o2[b] == o[b]);
            assert(vis[g[o[b] as int][e] as int]);
        }
        assert(vis[w]);
        assert(!in_seq(o, w)) by {
            if in_seq(o, w) {
                let b = choose|b: int| 0 <= b < o.len() && o[b] as int == w;
                assert(o2[b] == o[b]);
            }
        }
        assert(w != a) by {
            assert(o2[o.len() as int] as int == a);
        }
        let j = choose|j: int| 0 <= j < ns.len() && ns[j] == w;
        assert(j != top);
        assert(ns2[j] == w);
        assert(reach(g, ns[j], ns[top]));
        lemma_path_split(g, p, t + 1);
        assert(mutual(g, a, ns2[j]));
    }
}

proof fn lemma_finish(g: Seq<Seq<usize>>, vis: Seq<bool>, st: Seq<(usize, usize)>, o: Seq<usize>)
    requires
        dfs_inv(g, vis, st, o),
        st.len() > 0,
        st.last().1 == g[st.last().0 as int].len(),
    ensures
        dfs_inv(g, vis, st.drop_last(), o.push(st.last().0)),
{
    let top = st.len() - 1;
    let a = st.last().0 as int;
    let st2 = st.drop_last();
    let o2 = o.push(st.last().0);
    let ns = frame_nodes(st);
    let ns2 = frame_nodes(st2);
    assert(ns2 =~= ns.drop_last());
    assert(ns[top] == a);
    assert(st[top] == st.last());
    assert(!in_seq(o, a));
    assert forall|x: int| #[trigger] in_seq(o2, x) <==> in_seq(o, x) || x == a by {
        if in_seq(o, x) {
            let b = choose|b: int| 0 <= b < o.len() && o[b] as int == x;
            assert(o2[b] == o[b]);
        }
        if x == a {
            assert(o2[o.len() as int] as int == a);
        }
        if in_seq(o2, x) && x != a {
            let b = choose|b: int| 0 <= b < o2.len() && o2[b] as int == x;
            assert(o2[b] == o[b]);
        }
    }
    assert forall|x: int| 0 <= x < g.len() implies (#[trigger] vis[x] <==> (in_seq(o2, x)
        || ns2.contains(x))) by {
        if ns.contains(x) && x != a {
            let k = choose|k: int| 0 <= k < ns.len() && ns[k] == x;
            assert(ns2[k] == x);
        }
        if ns2.contains(x) {
            let k = choose|k: int| 0 <= k < ns2.len() && ns2[k] == x;
            assert(ns[k] == x);
        }
    }
    assert forall|k: int| 0 <= k < ns2.len() implies !in_seq(o2, #[trigger] ns2[k]) by {
        assert(ns2[k] == ns[k]);
        assert(st[k].0 != st[top].0);
    }
    assert forall|b: int, c: int| 0 <= b < c < o2.len() implies o2[b] != o2[c] by {
        if c == o.len() {
            assert(o2[b] == o[b]);
        }
    }
    assert forall|b: int| 0 <= b < o2.len() implies (#[trigger] o2[b]) < g.len() by {
        if b < o.len() {
            assert(o2[b] == o[b]);
        }
    }
    assert forall|k: int| 0 <= k < st2.len() implies (#[trigger] st2[k]).0 < g.len() && st2[k].1
        <= g[st2[k].0 as int].len() by {
        assert(st2[k] == st[k]);
    }
    assert forall|i: int, j: int| 0 <= i < j < st2.len() implies st2[i].0 != st2[j].0 by {
        assert(st2[i] == st[i] && st2[j] == st[j]);
    }
    assert forall|i: int, j: int| 0 <= i <= j < ns2.len() implies #[trigger] reach(g, ns2[i], ns2[j]) by {
        assert(ns2[i] == ns[i] && ns2[j] == ns[j]);
    }
    assert forall|k: int, e: int| 0 <= k < st2.len() && 0 <= e < st2[k].1 implies vis[
        #[trigger] g[st2[k].0 as int][e] as int] by {
        assert(st2[k] == st[k]);
    }
    assert forall|b: int, e: int| 0 <= b < o2.len() && 0 <= e < g[o2[b] as int].len() implies vis[
        #[trigger] g[o2[b] as int][e] as int] by {
        if b < o.len() {
            assert(o2[b] == o[b]);
        } else {
            assert(vis[g[st[top].0 as int][e] as int]);
        }
    }
    assert forall|b: int, y: int|
        0 <= b < o2.len() && #[trigger] reach(g, o2[b] as int, y) implies fin_cover(
        g,
        o2,
        o2[b] as int,
        y,
    ) || stack_cover(g, ns2, o2[b] as int) by {
        let x = o2[b] as int;
        if b == o.len() {
            lemma_finish_cover(g, vis, st, o, y);
        } else {
            assert(o2[b] == o[b]);
            if fin_cover(g, o, x, y) {
                let (bb, cc) = choose|bb: int, cc: int|
                    0 <= bb <= cc < o.len() && #[trigger] o[bb] as int == y && #[trigger] mutual(g, x, o[cc] as int);
                assert(o2[bb] == o[bb] && o2[cc] == o[cc]);
            } else {
                let k = choose|k: int| 0 <= k < ns.len() && #[trigger] mutual(g, x, ns[k]);
                if k < top {
                    assert(ns2[k] == ns[k]);
                } else {
                    lemma_reach_trans(g, a, x, y);
                    lemma_finish_cover(g, vis, st, o, y);
                    if fin_cover(g, o2, a, y) {
                        let (bb, cc) = choose|bb: int, cc: int|
                            0 <= bb <= cc < o2.len() && #[trigger] o2[bb] as int == y && #[trigger] mutual(g, a, o2[cc] as int);
                        lemma_mutual_trans(g, x, a, o2[cc] as int);
                    } else {
                        let j = choose|j: int| 0 <= j < ns2.len() && #[trigger] mutual(g, a, ns2[j]);
                        lemma_mutual_trans(g, x, a, ns2[j]);
                    }
                }
            }
        }
    }
}

/// A traversal state: visited flags, frames, finishing order, next root.
pub type DfsState = (Seq<bool>, Seq<(usize, usize)>, Seq<usize>, int);

/// The state before the traversal.
pub open spec fn dfs_init(g: Seq<Seq<usize>>) -> DfsState {
    (Seq::new(g.len(), |i: int| false), Seq::empty(), Seq::empty(), 0)
}

/// One step of the traversal: follow the next edge of the top frame, finish
/// the top node, or start from the next root; a finished traversal stays put.
pub open spec fn dfs_step(g: Seq<Seq<usize>>, t: DfsState) -> DfsState {
    let vis = t.0;
    let st = t.1;
    if st.len() > 0 {
        let a = st.last().0;
        let i = st.last().1;
        if i < g[a as int].len() {
            let b = g[a as int][i as int];
            let st1 = st.update(st.len() - 1, (a, (i + 1) as usize));
            if vis[b as int] {
                (vis, st1, t.2, t.3)
            } else {
                (vis.update(b as int, true), st1.push((b, 0usize)), t.2, t.3)
            }
        } else {
            (vis, st.drop_last(), t.2.push(a), t.3)
        }
    } else if 0 <= t.3 < g.len() {
        if vis[t.3] {
            (vis, st, t.2, t.3 + 1)
        } else {
            (vis.update(t.3, true), seq![(t.3 as usize, 0usize)], t.2, t.3 + 1)
        }
    } else {
        t
    }
}

/// The state after `fuel` steps from `t`.
pub open spec fn dfs_run(g: Seq<Seq<usize>>, t: DfsState, fuel: nat) -> DfsState
    decreases fuel,
{
    if fuel == 0 {
        t
    } else {
        dfs_run(g, dfs_step(g, t), (fuel - 1) as nat)
    }
}

/// Unvisited nodes weighted by their number of edges plus two.
pub open spec fn weight(g: Seq<Seq<usize>>, vis: Seq<bool>) -> nat
    decreases vis.len(),
{
    if vis.len() == 0 {
        0
    } else {
        weight(g, vis.drop_last()) + if vis.last() {
            0nat
        } else {
            (g[vis.len() - 1].len() + 2) as nat
        }
    }
}

/// More steps than the traversal can take.
pub open spec fn dfs_bound(g: Seq<Seq<usize>>) -> nat {
    weight(g, dfs_init(g).0) + g.len()
}

/// The finishing order of the traversal of `g`.
pub open spec fn dfs_order(g: Seq<Seq<usize>>) -> Seq<usize> {
    dfs_run(g, dfs_init(g), dfs_bound(g)).2
}

/// What the traversal has still to do, at most.
pub open spec fn potential(g: Seq<Seq<usize>>, t: DfsState) -> int {
    weight(g, t.0) + pending(g, t.1) + t.1.len() + (g.len() - t.3)
}

proof fn lemma_run_last(g: Seq<Seq<usize>>, t: DfsState, f: nat)
    ensures
        dfs_run(g, t, f + 1) == dfs_step(g, dfs_run(g, t, f)),
    decreases f,
{
    assert(dfs_run(g, t, f + 1) == dfs_run(g, dfs_step(g, t), f));
    if f > 0 {
        lemma_run_last(g, dfs_step(g, t), (f - 1) as nat);
        assert(dfs_run(g, t, f) == dfs_run(g, dfs_step(g, t), (f - 1) as nat));
        assert((f - 1) as nat + 1 == f);
    } else {
        assert(dfs_run(g, dfs_step(g, t), 0) == dfs_step(g, t));
    }
}

proof fn lemma_run_rest(g: Seq<Seq<usize>>, t: DfsState, f: nat)
    requires
        dfs_step(g, t) == t,
    ensures
        dfs_run(g, t, f) == t,
    decreases f,
{
    if f > 0 {
        lemma_run_rest(g, t, (f - 1) as nat);
    }
}

proof fn lemma_run_split(g: Seq<Seq<usize>>, t: DfsState, a: nat, b: nat)
    ensures
        dfs_run(g, t, a + b) == dfs_run(g, dfs_run(g, t, a), b),
    decreases a,
{
    if a > 0 {
        lemma_run_split(g, dfs_step(g, t), (a - 1) as nat, b);
        assert((a + b - 1) as nat == ((a - 1) as nat + b) as nat);
    }
}

proof fn lemma_weight_mark(g: Seq<Seq<usize>>, vis: Seq<bool>, x: int)
    requires
        0 <= x < vis.len(),
        vis.len() <= g.len(),
        !vis[x],
    ensures
        weight(g, vis.update(x, true)) + g[x].len() + 2 == weight(g, vis),
    decreases vis.len(),
{
    let w = vis.update(x, true);
    if x == vis.len() - 1 {
        assert(w.drop_last() =~= vis.drop_last());
    } else {
        assert(w.drop_last() =~= vis.drop_last().update(x, true));
        lemma_weight_mark(g, vis.drop_last(), x);
    }
}

/// A traversal that has ended stays where it is.
proof fn lemma_run_ended(g: Seq<Seq<usize>>, t: DfsState, steps: nat)
    requires
        dfs_run(g, dfs_init(g), steps) == t,
        t.1.len() == 0,
        t.3 >= g.len(),
        steps <= dfs_bound(g),
    ensures
        dfs_order(g) == t.2,
{
    lemma_run_split(g, dfs_init(g), steps, (dfs_bound(g) - steps) as nat);
    assert(steps + (dfs_bound(g) - steps) as nat == dfs_bound(g));
    lemma_run_rest(g, t, (dfs_bound(g) - steps) as nat);
}

/// Nodes in the order in which their depth-first exploration completes, the
/// roots taken in id order. An explicit stack of (node, next edge) frames
/// stands in for recursion.
pub fn postorder(adj: &Vec<Vec<usize>>) -> (order: Vec<usize>)
    requires
        wf_adj(adj.deep_view()),
    ensures
        finish_order(adj.deep_view(), order@),
        order@ == dfs_order(adj.deep_view()),
{
    let ghost g = adj.deep_view();
    let n = adj.len();
    let mut visited: Vec<bool> = vec![false; n];
    let mut stack: Vec<(usize, usize)> = Vec::new();
    let mut order: Vec<usize> = Vec::new();
    proof {
        assert forall|x: int| 0 <= x < g.len() implies !(#[trigger] visited@[x]) by {}
        assert forall|x: int| 0 <= x < g.len() implies !in_seq(order@, x) by {}
        assert(frame_nodes(stack@) =~= Seq::<int>::empty());
        assert(visited@ =~= dfs_init(g).0);
        assert(stack@ =~= dfs_init(g).1);
        assert(order@ =~= dfs_init(g).2);
    }
    let ghost mut steps: nat = 0;
    let mut s: usize = 0;
    while s < n
        invariant
            n == g.len(),
            g == adj.deep_view(),
            0 <= s <= n,
            stack@.len() == 0,
            dfs_inv(g, visited@, stack@, order@),
            forall|x: int| 0 <= x < s ==> #[trigger] visited@[x],
            dfs_run(g, dfs_init(g), steps) == (visited@, stack@, order@, s as int),
            potential(g, (visited@, stack@, order@, s as int)) + steps <= dfs_bound(g),
        decreases n - s,
    {
        proof {
            lemma_run_last(g, dfs_init(g), steps);
        }
        if !visited[s] {
            proof {
                lemma_start(g, visited@, order@, s);
                lemma_weight_mark(g, visited@, s as int);
            }
            visited.set(s, true);
            stack.push((s, 0));
            assert(stack@ =~= seq![(s, 0usize)]);
            proof {
                steps = steps + 1;
                assert(stack@.drop_last() =~= Seq::<(usize, usize)>::empty());
                assert(pending(g, Seq::<(usize, usize)>::empty()) == 0);
                assert(stack@.last() == (s, 0usize));
                assert(pending(g, stack@) == g[s as int].len());
            }
            while stack.len() > 0
                invariant
                    n == g.len(),
                    g == adj.deep_view(),
                    0 <= s < n,
                    dfs_inv(g, visited@, stack@, order@),
                    forall|x: int| 0 <= x <= s ==> #[trigger] visited@[x],
                    dfs_run(g, dfs_init(g), steps) == (visited@, stack@, order@, s + 1),
                    potential(g, (visited@, stack@, order@, s + 1)) + steps <= dfs_bound(g),
                decreases unvisited(visited@), pending(g, stack@), stack@.len(),
            {
                proof {
                    lemma_run_last(g, dfs_init(g), steps);
                }
                let top = stack.len() - 1;
                let (a, i) = stack[top];
                assert(stack@[top as int] == stack@.last());
                let ghost st0 = stack@;
                let ghost vis0 = visited@;
                if i < adj[a].len() {
                    assert(adj@[a as int]@ == g[a as int]);
                    let b = adj[a][i];
                    if visited[b] {
                        proof {
                            lemma_advance(g, visited@, stack@, order@, (i + 1) as usize);
                        }
                        stack.set(top, (a, i + 1));
                        proof {
                            assert(stack@.drop_last() =~= st0.drop_last());
                            lemma_pending_nonneg(g, st0.drop_last());
                            assert(pending(g, stack@) == pending(g, st0) - 1);
                        }
                    } else {
                        proof {
                            lemma_descend(g, visited@, stack@, order@, (i + 1) as usize);
                            lemma_unvisited_mark(visited@, b as int);
                            lemma_weight_mark(g, visited@, b as int);
                        }
                        stack.set(top, (a, i + 1));
                        let ghost st1 = stack@;
                        proof {
                            assert(stack@.drop_last() =~= st0.drop_last());
                            assert(pending(g, st1) == pending(g, st0) - 1);
                        }
                        visited.set(b, true);
                        stack.push((b, 0));
                        proof {
                            assert(stack@.drop_last() =~= st1);
                            assert(pending(g, stack@) == pending(g, st1) + g[b as int].len());
                        }
                    }
                } else {
                    proof {
                        lemma_finish(g, visited@, stack@, order@);
                    }
                    stack.pop();
                    order.push(a);
                    proof {
                        assert(stack@ =~= st0.drop_last());
                        assert(pending(g, stack@) == pending(g, st0));
                    }
                }
                proof {
                    lemma_pending_nonneg(g, stack@);
                    steps = steps + 1;
                }
            }
        } else {
            proof {
                steps = steps + 1;
            }
        }
        s = s + 1;
    }
    proof {
        lemma_run_ended(g, (visited@, stack@, order@, s as int), steps);
        assert forall|b: int, y: int|
            0 <= b < order@.len() && #[trigger] reach(g, order@[b] as int, y) implies fin_cover(
            g,
            order@,
            order@[b] as int,
            y,
        ) by {
            assert(!stack_cover(g, frame_nodes(stack@), order@[b] as int));
        }
        assert forall|x: int| 0 <= x < g.len() implies #[trigger] in_seq(order@, x) by {
            assert(visited@[x]);
            assert(!frame_nodes(stack@).contains(x));
        }
    }
    order
}

} // verus!
