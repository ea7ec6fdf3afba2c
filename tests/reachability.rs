use airport::labels::process_input;
use airport::postorder::postorder;
use airport::query::{min_unreachable_roots, QueryError};
use airport::roots::solve;
use airport::scc::kosaraju;

fn query(labels: &[&'static str], edges: &[(&'static str, &'static str)], start: &str) -> Vec<String> {
    let labels: Vec<&str> = labels.to_vec();
    let edges: Vec<(&str, &str)> = edges.to_vec();
    min_unreachable_roots(&labels, &edges, start).unwrap()
}

fn airports() -> Vec<&'static str> {
    vec![
        "BGI", "CDG", "DEL", "DOH", "DSM", "EWR", "EYW", "HND", "ICN", "JFK", "LGA", "LHR", "ORD",
        "SAN", "SFO", "SIN", "TLV", "BUD",
    ]
}

fn routes() -> Vec<(&'static str, &'static str)> {
    vec![
        ("DSM", "ORD"),
        ("ORD", "BGI"),
        ("BGI", "LGA"),
        ("SIN", "CDG"),
        ("CDG", "SIN"),
        ("CDG", "BUD"),
        ("DEL", "DOH"),
        ("DEL", "CDG"),
        ("TLV", "DEL"),
        ("EWR", "HND"),
        ("HND", "ICN"),
        ("HND", "JFK"),
        ("JFK", "LGA"),
        ("EYW", "LHR"),
        ("LHR", "SFO"),
        ("SFO", "SAN"),
        ("SFO", "DSM"),
        ("SAN", "EYW"),
    ]
}

/// Reachability by repeated relaxation, for checking components.
fn closure(adj: &Vec<Vec<usize>>) -> Vec<Vec<bool>> {
    let n = adj.len();
    let mut r = vec![vec![false; n]; n];
    for i in 0..n {
        r[i][i] = true;
        for &j in &adj[i] {
            r[i][j] = true;
        }
    }
    for k in 0..n {
        for i in 0..n {
            for j in 0..n {
                if r[i][k] && r[k][j] {
                    r[i][j] = true;
                }
            }
        }
    }
    r
}

fn pseudo_random_graph(seed: u64, n: usize, m: usize) -> Vec<Vec<usize>> {
    let mut state = seed;
    let mut next = || {
        state = state.wrapping_mul(6364136223846793005).wrapping_add(1442695040888963407);
        (state >> 33) as usize
    };
    let mut adj = vec![Vec::new(); n];
    for _ in 0..m {
        let a = next() % n;
        let b = next() % n;
        adj[a].push(b);
    }
    adj
}

#[test]
fn two_isolated_nodes() {
    assert_eq!(query(&["A", "B"], &[], "A"), vec!["B".to_string()]);
}

#[test]
fn chain_reaches_everything() {
    assert_eq!(query(&["A", "B", "C"], &[("A", "B"), ("B", "C")], "A"), Vec::<String>::new());
}

#[test]
fn disconnected_start() {
    assert_eq!(query(&["A", "B", "C"], &[("B", "C")], "A"), vec!["B".to_string()]);
}

#[test]
fn cycle_is_start_component() {
    assert_eq!(query(&["A", "B"], &[("A", "B"), ("B", "A")], "A"), Vec::<String>::new());
}

#[test]
fn start_component_excluded_when_start_is_not_its_representative() {
    assert_eq!(query(&["A", "B"], &[("A", "B"), ("B", "A")], "B"), Vec::<String>::new());
    assert_eq!(query(&["A", "B", "C"], &[("A", "B"), ("B", "A")], "B"), vec!["C".to_string()]);
}

#[test]
fn start_with_incoming_edges_still_excluded() {
    assert_eq!(query(&["A", "B"], &[("B", "A")], "A"), vec!["B".to_string()]);
}

#[test]
fn edgeless_graph_lists_all_but_start() {
    let labels: Vec<&str> = vec!["P", "Q", "R", "S", "T"];
    let edges: Vec<(&str, &str)> = vec![];
    let (_, adj) = process_input(&labels, &edges);
    assert_eq!(solve(&adj, 2), vec![0, 1, 3, 4]);
    assert_eq!(solve(&adj, 0), vec![1, 2, 3, 4]);
    assert_eq!(query(&labels, &[], "T"), vec!["P", "Q", "R", "S"]);
}

#[test]
fn single_node_graph() {
    assert_eq!(query(&["A"], &[], "A"), Vec::<String>::new());
}

#[test]
fn repeated_query_is_identical() {
    let a = airports();
    let r = routes();
    let first = min_unreachable_roots(&a, &r, "LGA");
    let second = min_unreachable_roots(&a, &r, "LGA");
    assert_eq!(first, second);
}

#[test]
fn airport_network_from_lga() {
    let a = airports();
    let r = routes();
    let (map, adj) = process_input(&a, &r);
    let start = map.get("LGA").unwrap();
    assert_eq!(start, 10);
    assert_eq!(solve(&adj, start), vec![5, 6, 16]);
    assert_eq!(query(&a, &r, "LGA"), vec!["EWR", "EYW", "TLV"]);
}

#[test]
fn airport_components() {
    let a = airports();
    let r = routes();
    let (_, adj) = process_input(&a, &r);
    let rep = kosaraju(&adj);
    assert_eq!(rep[6], rep[11]);
    assert_eq!(rep[6], rep[13]);
    assert_eq!(rep[6], rep[14]);
    assert_eq!(rep[1], rep[15]);
    assert_ne!(rep[1], rep[17]);
    assert_ne!(rep[4], rep[14]);
    assert_eq!(rep[6], 6);
    assert_eq!(rep[15], 1);
}

#[test]
fn finishing_order_of_airports() {
    let a = airports();
    let r = routes();
    let (_, adj) = process_input(&a, &r);
    assert_eq!(postorder(&adj), vec![10, 0, 15, 17, 1, 3, 2, 12, 4, 8, 9, 7, 5, 13, 14, 11, 6, 16]);
}

#[test]
fn components_match_mutual_reachability() {
    for seed in 0..40u64 {
        let n = 1 + (seed as usize % 9);
        let m = (seed as usize * 7) % 20;
        let adj = pseudo_random_graph(seed, n, m);
        let rep = kosaraju(&adj);
        let r = closure(&adj);
        for i in 0..n {
            assert!(rep[i] < n);
            assert_eq!(rep[rep[i]], rep[i]);
            for j in 0..n {
                assert_eq!(rep[i] == rep[j], r[i][j] && r[j][i], "seed {} nodes {} {}", seed, i, j);
            }
        }
    }
}

#[test]
fn self_loops_and_duplicate_edges() {
    let adj = vec![vec![0, 1, 1], vec![1], vec![]];
    let rep = kosaraju(&adj);
    assert_ne!(rep[0], rep[1]);
    assert_ne!(rep[1], rep[2]);
    assert_eq!(solve(&adj, 1), vec![0, 2]);
}

#[test]
fn unknown_labels_are_dropped() {
    let labels: Vec<&str> = vec!["A", "B", "C"];
    let edges: Vec<(&str, &str)> = vec![("A", "X"), ("Y", "B"), ("B", "C"), ("Z", "W")];
    let (map, adj) = process_input(&labels, &edges);
    assert_eq!(map.len(), 3);
    assert_eq!(adj, vec![vec![], vec![2], vec![]]);
    assert_eq!(query(&labels, &edges, "A"), vec!["B".to_string()]);
}

#[test]
fn adjacency_keeps_route_order_and_duplicates() {
    let labels: Vec<&str> = vec!["A", "B", "C"];
    let edges: Vec<(&str, &str)> = vec![("A", "C"), ("A", "B"), ("A", "C"), ("C", "A")];
    let (_, adj) = process_input(&labels, &edges);
    assert_eq!(adj, vec![vec![2, 1, 2], vec![], vec![0]]);
}

#[test]
fn duplicate_label_takes_last_position() {
    let labels: Vec<&str> = vec!["A", "B", "A"];
    let edges: Vec<(&str, &str)> = vec![("A", "B")];
    let (map, adj) = process_input(&labels, &edges);
    assert_eq!(map.get("A"), Some(2));
    assert_eq!(map.get("B"), Some(1));
    assert_eq!(map.get("C"), None);
    assert_eq!(map.label(0), "A");
    assert_eq!(adj, vec![vec![], vec![], vec![1]]);
}

#[test]
fn unknown_start_is_an_error() {
    let labels: Vec<&str> = vec!["A", "B"];
    let edges: Vec<(&str, &str)> = vec![("A", "B")];
    assert_eq!(min_unreachable_roots(&labels, &edges, "Q"), Err(QueryError::StartNotFound));
    let empty: Vec<&str> = vec![];
    assert_eq!(min_unreachable_roots(&empty, &edges, "A"), Err(QueryError::StartNotFound));
}
