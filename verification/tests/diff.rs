use duflow_core::diff::diff;
use duflow_core::graph::Graph;

fn g(src: &str) -> Graph {
    Graph::from_sources(&vec![("a.kdl".to_string(), src.to_string())]).unwrap()
}

#[test]
fn stat_counts_nodes_and_edges_per_namespace() {
    let a = g("root \"a.s\"\nstate \"a.s\" desc=\"s\" { -> \"a.t\" }\nstate \"a.t\" desc=\"t\" { -> \"b.x\" }\nstate \"b.x\" desc=\"x\"\n");
    let b = g("root \"a.s\"\nstate \"a.s\" desc=\"s\" { -> \"a.t\" case=\"go\" }\nstate \"a.t\" desc=\"t\"\nstate \"b.y\" desc=\"y\" { -> \"a.s\" }\n");
    let st = diff(&a, &b).stat();
    assert_eq!((st.nodes_added, st.nodes_removed, st.nodes_changed), (1, 1, 2));
    assert_eq!((st.edges_added, st.edges_removed), (2, 2));
    assert_eq!(st.ns_counts("a").unwrap(), (0, 0, 1, 2));
    assert_eq!(st.ns_counts("b").unwrap(), (1, 1, 1, 0));
    assert!(st.to_text().starts_with("nodes +1 -1 ~2 · edges +2 -2\n"));
}

#[test]
fn a_graph_has_no_difference_with_itself() {
    let a = g("root \"a.s\"\nstate \"a.s\" desc=\"s\" { -> \"a.t\" }\nstate \"a.t\" desc=\"t\"\n");
    let d = diff(&a, &a);
    assert!(d.is_empty());
    assert_eq!(d.to_text(), "fark yok\n");
    assert_eq!(d.stat().to_text(), "nodes +0 -0 ~0 · edges +0 -0\n");
}
