use duflow_core::graph::{Graph, LoadError};

fn g() -> Graph {
    Graph::from_sources(&vec![(
        "a.kdl".to_string(),
        "root \"a.s\"\nstate \"a.s\" desc=\"s\" {\n  -> \"a.t\"\n  -> \"a.u\" when=\"a.n > 1\"\n}\nstate \"a.t\" desc=\"t\" { -> \"a.v\" }\nstate \"a.u\" desc=\"u\" {\n  sets \"a.n\" \"+1\"\n  -> \"a.v\"\n}\nstate \"a.v\" desc=\"v\"\nstate \"a.lone\" desc=\"l\"\n".to_string(),
    )])
    .unwrap()
}

#[test]
fn reach_forward_is_everything_reachable_sorted() {
    let g = g();
    assert_eq!(g.reach_forward(&["a.t"]), vec!["a.t", "a.v"]);
    assert_eq!(g.reachable_from_roots(), vec!["a.s", "a.t", "a.u", "a.v"]);
}

#[test]
fn shortest_and_all_paths() {
    let g = g();
    let p = g.shortest_path("a.s", "a.v").unwrap();
    assert_eq!(p.len(), 3);
    assert_eq!(p[0], "a.s");
    assert_eq!(p[2], "a.v");
    assert!(g.shortest_path("a.v", "a.s").is_none());
    let all = g.all_paths("a.s", "a.v", 5, 10);
    assert_eq!(all.len(), 2);
    assert!(all.iter().all(|q| q.len() == 3 && q[0] == "a.s" && q[2] == "a.v"));
    assert_eq!(g.all_paths("a.s", "a.v", 1, 10).len(), 1);
    assert!(g.all_paths("a.s", "a.v", 5, 2).is_empty());
    assert_eq!(g.path_from_roots("a.v").unwrap().len(), 3);
    assert!(g.path_from_roots("a.lone").is_none());
}

#[test]
fn who_writes_and_reads_a_variable() {
    let g = g();
    let w = g.var_writers("a.n");
    assert_eq!(w.len(), 1);
    assert_eq!(w[0].0.id, "a.u");
    assert_eq!(w[0].1.value, "+1");
    let r = g.var_readers("a.n");
    assert_eq!(r, vec![("a.s".to_string(), "when a.n > 1".to_string())]);
    assert!(!g.is_local_var("a.n"));
    assert!(g.is_local_var("n"));
}

#[test]
fn bad_sources_fail_to_load() {
    let r = Graph::from_sources(&vec![("x.kdl".to_string(), "state {".to_string())]);
    assert!(matches!(r, Err(LoadError::Parse(_))));
}

#[test]
fn first_definition_wins_and_later_ones_are_recorded() {
    let r = Graph::from_sources(&vec![
        (
            "a.kdl".to_string(),
            "state \"a.s\" desc=\"first\"\nperm \"a.go\" deny=403\n".to_string(),
        ),
        (
            "b.kdl".to_string(),
            "state \"a.s\" desc=\"second\"\nvar \"n\"\nvar \"n\"\n".to_string(),
        ),
    ])
    .unwrap();
    assert_eq!(r.nodes.len(), 1);
    assert_eq!(r.nodes[0].desc.as_deref(), Some("first"));
    let d: Vec<(String, String, usize)> =
        r.duplicates.iter().map(|x| (x.id.clone(), x.file.clone(), x.line)).collect();
    assert_eq!(
        d,
        vec![
            ("a.s".to_string(), "b.kdl".to_string(), 1),
            ("n".to_string(), "b.kdl".to_string(), 3),
        ]
    );
    assert_eq!(r.vars.len(), 1);
    assert_eq!(r.checks.len(), 1);
    assert_eq!(r.checks[0].id, "perm:a.go");
    assert_eq!(r.config.name, "flows");
}

#[test]
fn shortest_path_takes_the_shortcut_and_all_paths_finds_every_path() {
    let g = Graph::from_sources(&vec![(
        "x.kdl".to_string(),
        "root \"x.a\"\nroot \"x.c\"\nstate \"x.a\" desc=\"a\" {\n  -> \"x.b\"\n  -> \"x.d\"\n}\nstate \"x.b\" desc=\"b\" { -> \"x.c\" }\nstate \"x.c\" desc=\"c\" { -> \"x.d\" }\nstate \"x.d\" desc=\"d\"\n".to_string(),
    )])
    .unwrap();
    assert_eq!(g.shortest_path("x.a", "x.d").unwrap(), vec!["x.a", "x.d"]);
    let all = g.all_paths("x.a", "x.d", 10, 10);
    assert_eq!(all, vec![vec!["x.a", "x.b", "x.c", "x.d"], vec!["x.a", "x.d"]]);
    assert_eq!(g.all_paths("x.a", "x.d", 10, 3), vec![vec!["x.a", "x.d"]]);
    assert_eq!(g.path_from_roots("x.d").unwrap(), vec!["x.a", "x.d"]);
    assert_eq!(g.path_from_roots("x.c").unwrap(), vec!["x.c"]);
}

#[test]
fn the_first_root_wins_a_tie() {
    let g = Graph::from_sources(&vec![(
        "y.kdl".to_string(),
        "root \"y.b\"\nroot \"y.a\"\nstate \"y.a\" desc=\"a\" { -> \"y.t\" }\nstate \"y.b\" desc=\"b\" { -> \"y.t\" }\nstate \"y.t\" desc=\"t\"\n".to_string(),
    )])
    .unwrap();
    assert_eq!(g.path_from_roots("y.t").unwrap(), vec!["y.b", "y.t"]);
}

#[test]
fn several_edges_to_one_target_count_as_one_neighbour() {
    let g = Graph::from_sources(&vec![(
        "a.kdl".to_string(),
        "root \"a.s\"\nstate \"a.s\" desc=\"s\" {\n  -> \"a.t\" case=\"x\"\n  -> \"a.u\" case=\"y\"\n  -> \"a.t\" case=\"z\"\n}\nstate \"a.t\" desc=\"t\"\nstate \"a.u\" desc=\"u\"\n".to_string(),
    )])
    .unwrap();
    assert_eq!(g.all_paths("a.s", "a.t", 5, 30), vec![vec!["a.s", "a.t"]]);
}
