//! The labelled query: which components the start cannot be connected to.
use vstd::prelude::*;
use crate::labels::{adj_of, last_index, lemma_adj_of_wf, lemma_last_index_bounds, process_input, route_views};
use crate::roots::{answer, solve};

verus! {

/// Why a query could not be answered.
#[derive(Debug, PartialEq, Eq, Structural)]
pub enum QueryError {
    /// The start label is not among the node labels.
    StartNotFound,
}

/// The label texts of the nodes.
pub open spec fn label_views(labels: Seq<&str>) -> Seq<Seq<char>> {
    labels.map_values(|a: &str| a@)
}

/// `names` holds the labels of the ids `ids`, in the same order.
pub open spec fn named(ls: Seq<Seq<char>>, ids: Seq<usize>, names: Seq<String>) -> bool {
    &&& names.len() == ids.len()
    &&& forall|a: int| 0 <= a < ids.len() ==> #[trigger] names[a]@ == ls[ids[a] as int]
}

/// What a query on labels `labels`, routes `edges` and start `start` returns:
/// an error exactly when the start is unknown, otherwise the labels of the answer.
pub open spec fn query_outcome(
    labels: Seq<&str>,
    edges: Seq<(&str, &str)>,
    start: Seq<char>,
    r: Result<Vec<String>, QueryError>,
) -> bool {
    &&& r is Err <==> last_index(label_views(labels), start) is None
    &&& r matches Err(e) ==> e == QueryError::StartNotFound
    &&& r matches Ok(names) ==> named(
        label_views(labels),
        answer(adj_of(label_views(labels), route_views(edges)), last_index(label_views(labels), start)->0),
        names@,
    )
}

/// A query depends on its inputs alone: two queries with the same labels,
/// routes and start both fail, or both list the same labels in the same order.
pub proof fn lemma_query_repeatable(
    labels: Seq<&str>,
    edges: Seq<(&str, &str)>,
    start: Seq<char>,
    r1: Result<Vec<String>, QueryError>,
    r2: Result<Vec<String>, QueryError>,
)
    requires
        query_outcome(labels, edges, start, r1),
        query_outcome(labels, edges, start, r2),
    ensures
        r1 is Err <==> r2 is Err,
        r1 is Err ==> r1 == r2,
        r1 is Ok ==> r1->Ok_0@.len() == r2->Ok_0@.len() && forall|a: int|
            0 <= a < r1->Ok_0@.len() ==> #[trigger] r1->Ok_0@[a]@ == r2->Ok_0@[a]@,
{
    if r1 is Ok {
        let ids = answer(adj_of(label_views(labels), route_views(edges)), last_index(label_views(labels), start)->0);
        assert forall|a: int| 0 <= a < r1->Ok_0@.len() implies #[trigger] r1->Ok_0@[a]@ == r2->Ok_0@[a]@ by {
            assert(r1->Ok_0@[a]@ == label_views(labels)[ids[a] as int]);
            assert(r2->Ok_0@[a]@ == label_views(labels)[ids[a] as int]);
        }
    }
}

/// The labels of one node of each component that no edge enters from another
/// component, other than the start's own, in order of node id. Routes with an
/// unknown label are ignored; an unknown start label is an error.
pub fn min_unreachable_roots(labels: &Vec<&str>, edges: &Vec<(&str, &str)>, start_label: &str) -> (r: Result<Vec<String>, QueryError>)
    ensures
        query_outcome(labels@, edges@, start_label@, r),
{
    let (map, adj) = process_input(labels, edges);
    let ghost ls = label_views(labels@);
    let ghost g = adj_of(ls, route_views(edges@));
    proof {
        lemma_adj_of_wf(ls, route_views(edges@));
        lemma_last_index_bounds(ls, start_label@);
    }
    match map.get(start_label) {
        None => Err(QueryError::StartNotFound),
        Some(start) => {
            let ids = solve(&adj, start);
            assert forall|b: int| 0 <= b < ids@.len() implies (#[trigger] ids@[b]) < g.len() by {}
            let mut names: Vec<String> = Vec::new();
            let mut a: usize = 0;
            while a < ids.len()
                invariant
                    a <= ids@.len(),
                    map@ == ls,
                    ls.len() == g.len(),
                    ids@ == answer(g, start as int),
                    forall|b: int| 0 <= b < ids@.len() ==> (#[trigger] ids@[b]) < g.len(),
                    names@.len() == a,
                    forall|b: int| 0 <= b < a ==> #[trigger] names@[b]@ == ls[ids@[b] as int],
                decreases ids@.len() - a,
            {
                assert(ids@[a as int] < g.len());
                names.push(map.label(ids[a]).to_owned());
                a = a + 1;
            }
            assert(named(ls, ids@, names@));
            Ok(names)
        },
    }
}

} // verus!
