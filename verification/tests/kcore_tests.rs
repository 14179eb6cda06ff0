use kcore::graph::Graph;
use kcore::graph::GraphBuilder;
use kcore::text::contains_marker;
use kcore::text::str_eq;

fn build_from(triples: &[(&str, &str, &str)]) -> Graph {
    let mut b = GraphBuilder::new();
    for (u, v, l) in triples {
        b.add_edge(u, v, l);
    }
    b.build()
}

#[test]
fn three_records_path() {
    let g = build_from(&[
        ("A", "B", "Normal"),
        ("A", "B", "Normal"),
        ("B", "C", "Botnet-CC"),
    ]);
    assert_eq!(g.n, 3);
    assert_eq!(g.nodes[0], "A");
    assert_eq!(g.nodes[1], "B");
    assert_eq!(g.nodes[2], "C");
    assert_eq!(g.degrees, vec![2, 3, 1]);
    assert_eq!(g.labels[0], "Normal");
    assert_eq!(g.labels[1], "Botnet-CC");
    assert_eq!(g.labels[2], "Botnet-CC");
    // The doubled A-B edge keeps {A, B} a 2-core under the
    // multiplicity policy: parallel edges both count towards degree.
    let cores = g.compute_k_core();
    assert_eq!(cores, vec![2, 2, 1]);
}

#[test]
fn single_edge_path_is_one_core() {
    let g = build_from(&[("A", "B", "Normal"), ("B", "C", "Botnet-CC")]);
    assert_eq!(g.degrees, vec![1, 2, 1]);
    assert_eq!(g.compute_k_core(), vec![1, 1, 1]);
}

#[test]
fn triangle_is_two_core() {
    let g = build_from(&[
        ("A", "B", "Normal"),
        ("B", "C", "Normal"),
        ("C", "A", "Normal"),
    ]);
    assert_eq!(g.n, 3);
    assert_eq!(g.degrees, vec![2, 2, 2]);
    assert_eq!(g.compute_k_core(), vec![2, 2, 2]);
}

#[test]
fn empty_input_gives_empty_graph() {
    let b = GraphBuilder::new();
    let g = b.build();
    assert_eq!(g.n, 0);
    let cores = g.compute_k_core();
    assert!(cores.is_empty());
}

#[test]
fn isolated_vertex_has_coreness_zero() {
    let mut b = GraphBuilder::new();
    let id = b.get_id("10.0.0.1", "Normal");
    assert_eq!(id, 0);
    let g = b.build();
    assert_eq!(g.n, 1);
    assert_eq!(g.degrees, vec![0]);
    assert_eq!(g.compute_k_core(), vec![0]);
}

#[test]
fn interning_is_idempotent() {
    let mut b = GraphBuilder::new();
    let a = b.get_id("A", "Normal");
    let b_id = b.get_id("B", "Normal");
    assert_eq!(a, 0);
    assert_eq!(b_id, 1);
    assert_eq!(b.get_id("A", "Other"), a);
    assert_eq!(b.get_id("A", "Botnet-CC"), a);
    assert_eq!(b.get_id("B", "Normal"), b_id);
    assert_eq!(b.nodes.len(), 2);
}

#[test]
fn repeated_edge_adds_degree_each_time() {
    let mut b = GraphBuilder::new();
    b.add_edge("A", "B", "Normal");
    assert_eq!(b.adj[0].len(), 1);
    assert_eq!(b.adj[1].len(), 1);
    b.add_edge("A", "B", "Normal");
    assert_eq!(b.adj[0].len(), 2);
    assert_eq!(b.adj[1].len(), 2);
    let g = b.build();
    assert_eq!(g.degrees, vec![2, 2]);
}

#[test]
fn self_loop_counts_twice() {
    let g = build_from(&[("A", "A", "Normal")]);
    assert_eq!(g.n, 1);
    assert_eq!(g.degrees, vec![2]);
    assert_eq!(g.compute_k_core(), vec![2]);
}

#[test]
fn first_seen_label_is_kept_without_marker() {
    let g = build_from(&[("A", "B", "Normal"), ("A", "C", "Suspicious")]);
    assert_eq!(g.labels[0], "Normal");
    assert_eq!(g.labels[2], "Suspicious");
}

#[test]
fn marker_label_overwrites_once_and_sticks() {
    let mut b = GraphBuilder::new();
    b.add_edge("A", "B", "Normal");
    b.add_edge("A", "C", "Botnet-CC");
    assert_eq!(b.labels[0], "Botnet-CC");
    b.add_edge("A", "D", "Botnet-DDoS");
    assert_eq!(b.labels[0], "Botnet-CC");
    b.add_edge("A", "E", "Normal");
    assert_eq!(b.labels[0], "Botnet-CC");
    let g = b.build();
    assert_eq!(g.labels[0], "Botnet-CC");
}

#[test]
fn clique_with_pendant() {
    let g = build_from(&[
        ("A", "B", "n"),
        ("A", "C", "n"),
        ("A", "D", "n"),
        ("B", "C", "n"),
        ("B", "D", "n"),
        ("C", "D", "n"),
        ("D", "E", "n"),
    ]);
    assert_eq!(g.n, 5);
    assert_eq!(g.degrees, vec![3, 3, 3, 4, 1]);
    assert_eq!(g.compute_k_core(), vec![3, 3, 3, 3, 1]);
}

#[test]
fn two_triangles_with_bridge() {
    let g = build_from(&[
        ("A", "B", "n"),
        ("B", "C", "n"),
        ("C", "A", "n"),
        ("D", "E", "n"),
        ("E", "F", "n"),
        ("F", "D", "n"),
        ("C", "D", "n"),
    ]);
    assert_eq!(g.compute_k_core(), vec![2, 2, 2, 2, 2, 2]);
}

#[test]
fn star_is_one_core() {
    let g = build_from(&[
        ("hub", "a", "n"),
        ("hub", "b", "n"),
        ("hub", "c", "n"),
        ("hub", "d", "n"),
    ]);
    assert_eq!(g.degrees, vec![4, 1, 1, 1, 1]);
    assert_eq!(g.compute_k_core(), vec![1, 1, 1, 1, 1]);
}

#[test]
fn marker_detection() {
    assert!(contains_marker("Botnet"));
    assert!(contains_marker("flow=From-Botnet-V42-UDP"));
    assert!(contains_marker("xxBotnet"));
    assert!(!contains_marker("Bonet"));
    assert!(!contains_marker("Botne"));
    assert!(!contains_marker(""));
    assert!(!contains_marker("botnet"));
}

#[test]
fn string_equality_by_characters() {
    assert!(str_eq("10.0.0.1", "10.0.0.1"));
    assert!(!str_eq("10.0.0.1", "10.0.0.2"));
    assert!(!str_eq("abc", "ab"));
    assert!(str_eq("", ""));
}

#[test]
fn coreness_bounded_by_degree() {
    let g = build_from(&[
        ("A", "B", "n"),
        ("A", "B", "n"),
        ("B", "C", "n"),
        ("C", "C", "n"),
        ("C", "D", "n"),
        ("D", "A", "n"),
        ("E", "A", "n"),
    ]);
    let cores = g.compute_k_core();
    assert_eq!(cores.len(), g.n);
    for v in 0..g.n {
        assert!(cores[v] <= g.degrees[v]);
    }
}

#[test]
fn k_core_members_keep_induced_degree() {
    let g = build_from(&[
        ("A", "B", "n"),
        ("A", "C", "n"),
        ("A", "D", "n"),
        ("B", "C", "n"),
        ("B", "D", "n"),
        ("C", "D", "n"),
        ("D", "E", "n"),
        ("E", "F", "n"),
        ("F", "F", "n"),
        ("A", "B", "n"),
    ]);
    let cores = g.compute_k_core();
    let max_k = *cores.iter().max().unwrap();
    for k in 0..=max_k {
        for v in 0..g.n {
            if cores[v] >= k {
                let induced: usize =
                    g.adj[v].iter().filter(|&&u| cores[u] >= k).count();
                assert!(induced >= k);
            }
        }
    }
}
