use dagnet::Error;
use dagnet::Graph;
use dagnet::Vertex;

fn v(name: &str, adj: &[&str]) -> Vertex {
    Vertex { name: name.to_string(), adj: adj.iter().map(|a| a.to_string()).collect() }
}

fn lattice() -> Vec<Vertex> {
    vec![v("a", &["b", "c"]), v("b", &["d"]), v("c", &["d"]), v("d", &[])]
}

#[test]
fn self_loop_is_cyclic() {
    let r = Graph::new(vec![v("a", &["a"])]);
    match r {
        Err(Error::CyclicGraph(n)) => assert_eq!(n, "a"),
        _ => panic!("a self-loop must be rejected as a cycle"),
    }
}

#[test]
fn undeclared_target_is_incomplete() {
    let r = Graph::new(vec![v("a", &["z"])]);
    match r {
        Err(Error::IncompleteGraph(n)) => assert_eq!(n, "z"),
        _ => panic!("a dangling reference must be rejected as incomplete"),
    }
}

#[test]
fn longer_cycle_is_rejected() {
    let r = Graph::new(vec![v("a", &["b"]), v("b", &["c"]), v("c", &["a"])]);
    assert!(matches!(r, Err(Error::CyclicGraph(_))));
}

#[test]
fn incomplete_wins_over_cyclic() {
    // Both faults present: completeness is checked first.
    let r = Graph::new(vec![v("a", &["a", "z"])]);
    assert!(matches!(r, Err(Error::IncompleteGraph(_))));
}

#[test]
fn diamond_is_not_a_cycle() {
    // Shared descendants revisited on a second path are no error.
    let g = Graph::new(lattice()).expect("the diamond lattice is a valid DAG");
    assert_eq!(g.roots, vec!["a".to_string()]);
}

#[test]
fn roots_are_vertices_without_incoming_edges() {
    let g = Graph::new(vec![v("a", &["c"]), v("b", &["c"]), v("c", &[])])
        .expect("two sources feeding one sink form a DAG");
    assert_eq!(g.roots, vec!["a".to_string(), "b".to_string()]);

    let g2 = Graph::new(vec![v("solo", &[])]).expect("a single vertex is a DAG");
    assert_eq!(g2.roots, vec!["solo".to_string()]);
}

#[test]
fn roots_by_brute_force_incoming_count() {
    let vs = vec![
        v("n0", &["n2", "n3"]),
        v("n1", &["n3"]),
        v("n2", &["n4"]),
        v("n3", &["n4"]),
        v("n4", &[]),
        v("n5", &["n0", "n4"]),
    ];
    let expected: Vec<String> = vs
        .iter()
        .filter(|x| !vs.iter().any(|y| y.adj.iter().any(|t| *t == x.name)))
        .map(|x| x.name.clone())
        .collect();
    let g = Graph::new(vs).expect("acyclic and complete");
    assert_eq!(g.roots, expected);
    assert_eq!(g.roots, vec!["n1".to_string(), "n5".to_string()]);
}

#[test]
fn empty_vertex_set_validates() {
    let g = Graph::new(Vec::new()).expect("an empty graph is trivially valid");
    assert!(g.roots.is_empty());
    assert!(g.vertices.is_empty());
}
