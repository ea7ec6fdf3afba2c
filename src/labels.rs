//! Labels to dense node ids, and the adjacency lists built from labelled routes.
use vstd::prelude::*;
use crate::graph::wf_adj;

verus! {

/// The id of label `l`: the last position at which it occurs in `ls`.
pub open spec fn last_index(ls: Seq<Seq<char>>, l: Seq<char>) -> Option<int>
    decreases ls.len(),
{
    if ls.len() == 0 {
        None
    } else if ls.last() == l {
        Some(ls.len() - 1)
    } else {
        last_index(ls.drop_last(), l)
    }
}

pub proof fn lemma_last_index_bounds(ls: Seq<Seq<char>>, l: Seq<char>)
    ensures
        last_index(ls, l) is Some ==> 0 <= last_index(ls, l)->0 < ls.len()
            && ls[last_index(ls, l)->0] == l,
        last_index(ls, l) is None ==> forall|i: int| 0 <= i < ls.len() ==> ls[i] != l,
    decreases ls.len(),
{
    if ls.len() > 0 && ls.last() != l {
        lemma_last_index_bounds(ls.drop_last(), l);
        assert forall|i: int| 0 <= i < ls.len() - 1 implies ls[i] == ls.drop_last()[i] by {}
    }
}

/// The label texts of a sequence of routes.
pub open spec fn route_views(rs: Seq<(&str, &str)>) -> Seq<(Seq<char>, Seq<char>)> {
    rs.map_values(|r: (&str, &str)| (r.0@, r.1.deep_view()))
}

/// The adjacency lists of nodes labelled `ls` after the routes `rs`, in order:
/// a route whose two labels are known appends the target's id to the source's
/// list; any other route is left out.
pub open spec fn adj_of(ls: Seq<Seq<char>>, rs: Seq<(Seq<char>, Seq<char>)>) -> Seq<Seq<usize>>
    decreases rs.len(),
{
    if rs.len() == 0 {
        Seq::new(ls.len(), |i: int| Seq::<usize>::empty())
    } else {
        let prev = adj_of(ls, rs.drop_last());
        let r = rs.last();
        match (last_index(ls, r.0), last_index(ls, r.1)) {
            (Some(a), Some(b)) => prev.update(a, prev[a].push(b as usize)),
            _ => prev,
        }
    }
}

pub proof fn lemma_adj_of_wf(ls: Seq<Seq<char>>, rs: Seq<(Seq<char>, Seq<char>)>)
    ensures
        adj_of(ls, rs).len() == ls.len(),
        wf_adj(adj_of(ls, rs)),
    decreases rs.len(),
{
    if rs.len() > 0 {
        lemma_adj_of_wf(ls, rs.drop_last());
        let r = rs.last();
        lemma_last_index_bounds(ls, r.0);
        lemma_last_index_bounds(ls, r.1);
    }
}

/// A route naming a label that is not among the nodes leaves the adjacency
/// lists as they would be without it, wherever it stands among the routes.
pub proof fn lemma_unknown_route_dropped(
    ls: Seq<Seq<char>>,
    before: Seq<(Seq<char>, Seq<char>)>,
    bad: (Seq<char>, Seq<char>),
    after: Seq<(Seq<char>, Seq<char>)>,
)
    requires
        last_index(ls, bad.0) is None || last_index(ls, bad.1) is None,
    ensures
        adj_of(ls, before + seq![bad] + after) == adj_of(ls, before + after),
    decreases after.len(),
{
    if after.len() == 0 {
        assert((before + seq![bad] + after).drop_last() =~= before);
        assert(before + after =~= before);
    } else {
        let after2 = after.drop_last();
        lemma_unknown_route_dropped(ls, before, bad, after2);
        assert((before + seq![bad] + after).drop_last() =~= before + seq![bad] + after2);
        assert((before + after).drop_last() =~= before + after2);
        assert((before + seq![bad] + after).last() == after.last());
        assert((before + after).last() == after.last());
    }
}

/// Node labels with the id of each; a label that occurs twice names its later position.
pub struct LabelMap {
    labels: Vec<String>,
}

impl View for LabelMap {
    type V = Seq<Seq<char>>;

    closed spec fn view(&self) -> Seq<Seq<char>> {
        Seq::new(self.labels@.len(), |i: int| self.labels@[i]@)
    }
}

impl LabelMap {
    /// The id of `label`, if it is one of the nodes.
    pub fn get(&self, label: &str) -> (r: Option<usize>)
        ensures
            r matches Some(id) ==> last_index(self@, label@) == Some(id as int),
            r is None ==> last_index(self@, label@) is None,
    {
        let key = label.to_owned();
        let mut i: usize = self.labels.len();
        assert(self@.subrange(0, i as int) =~= self@);
        while i > 0
            invariant
                i <= self.labels@.len(),
                key@ == label@,
                last_index(self@, label@) == last_index(self@.subrange(0, i as int), label@),
            decreases i,
        {
            let ghost sub = self@.subrange(0, i as int);
            assert(sub.drop_last() =~= self@.subrange(0, i - 1));
            if self.labels[i - 1] == key {
                return Some(i - 1);
            }
            i = i - 1;
        }
        None
    }

    /// Number of nodes.
    pub fn len(&self) -> (r: usize)
        ensures
            r == self@.len(),
    {
        self.labels.len()
    }

    /// The label of node `id`.
    pub fn label(&self, id: usize) -> (r: &str)
        requires
            id < self@.len(),
        ensures
            r@ == self@[id as int],
    {
        self.labels[id].as_str()
    }
}

/// Gives each label the id of its position and turns the routes into adjacency
/// lists over those ids. Routes with a label that is not among `airports` are
/// dropped without error.
pub fn process_input(airports: &Vec<&str>, routes: &Vec<(&str, &str)>) -> (r: (LabelMap, Vec<Vec<usize>>))
    ensures
        r.0@ == airports@.map_values(|a: &str| a@),
        r.1.deep_view() == adj_of(r.0@, route_views(routes@)),
        wf_adj(r.1.deep_view()),
{
    let mut labels: Vec<String> = Vec::new();
    let mut adj: Vec<Vec<usize>> = Vec::new();
    let mut id: usize = 0;
    while id < airports.len()
        invariant
            id <= airports@.len(),
            labels@.len() == id,
            adj@.len() == id,
            forall|i: int| 0 <= i < id ==> (#[trigger] adj@[i])@.len() == 0,
            forall|i: int| 0 <= i < id ==> (#[trigger] labels@[i])@ == airports@[i]@,
        decreases airports@.len() - id,
    {
        labels.push(airports[id].to_owned());
        adj.push(Vec::new());
        id = id + 1;
    }
    let map = LabelMap { labels };
    assert(map@ =~= airports@.map_values(|a: &str| a@));
    let ghost ls = map@;
    let ghost rs = route_views(routes@);
    assert(adj.deep_view() =~= Seq::new(ls.len(), |i: int| Seq::<usize>::empty())) by {
        assert forall|i: int| 0 <= i < ls.len() implies adj.deep_view()[i] =~= Seq::<usize>::empty() by {
            assert(adj@[i]@.len() == 0);
        }
    }
    assert(adj.deep_view() =~= adj_of(ls, rs.subrange(0, 0)));
    let mut k: usize = 0;
    while k < routes.len()
        invariant
            k <= routes@.len(),
            map@ == ls,
            rs == route_views(routes@),
            adj.deep_view() == adj_of(ls, rs.subrange(0, k as int)),
        decreases routes@.len() - k,
    {
        proof {
            lemma_adj_of_wf(ls, rs.subrange(0, k as int));
            assert(rs.subrange(0, k + 1).drop_last() =~= rs.subrange(0, k as int));
        }
        let (from, to) = routes[k];
        assert(rs[k as int] == (from@, to@));
        let ghost prev = adj.deep_view();
        if let Some(n) = map.get(from) {
            if let Some(m) = map.get(to) {
                proof {
                    lemma_last_index_bounds(ls, from@);
                    lemma_last_index_bounds(ls, to@);
                }
                let ghost before = adj@;
                adj[n].push(m);
                assert forall|i: int| 0 <= i < adj@.len() implies adj.deep_view()[i]
                    =~= prev.update(n as int, prev[n as int].push(m))[i] by {
                    if i == n {
                        assert(adj@[i]@ == before[i]@.push(m));
                    } else {
                        assert(adj@[i] == before[i]);
                    }
                }
                assert(adj.deep_view() =~= prev.update(n as int, prev[n as int].push(m)));
            }
        }
        k = k + 1;
    }
    proof {
        assert(rs.subrange(0, rs.len() as int) =~= rs);
        lemma_adj_of_wf(ls, rs);
    }
    (map, adj)
}

} // verus!
