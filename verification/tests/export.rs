use duflow_core::diff::diff;
use duflow_core::export::{export, fill_removed_sources, SCHEMA_VERSION};
use duflow_core::graph::Graph;

#[test]
fn export_has_incoming_outcomes_and_periodic_roots() {
    let g = Graph::from_sources(&vec![(
        "a.kdl".to_string(),
        "root \"a.start\" every=\"30s\"\nstate \"a.start\" desc=\"s\" { -> \"a.end\" case=\"go\" }\ncall \"a.end\" desc=\"e\" {\n  check \"c\" fail=409 outcome=\"toast: no\"\n  returns 500 outcome=\"boom\"\n  returns 200 -> \"a.start\"\n}\ncheck \"c\"\n".to_string(),
    )])
    .unwrap();
    let e = export(&g, None);
    assert_eq!(e.schema, 2);
    let end = e.nodes.iter().find(|n| n.id == "a.end").unwrap();
    assert_eq!(end.incoming[0].from, "a.start");
    assert_eq!(end.incoming[0].label, "case go");
    let outs = &end.outcomes;
    assert_eq!(outs.len(), 2);
    assert!(
        outs.iter().any(|o| o.label == "c ✗ 409" && o.text == "toast: no"),
        "{outs:?}"
    );
    assert!(outs.iter().any(|o| o.label == "500" && o.text == "boom"));
    assert_eq!(e.every, vec![("a.start", "30s")]);
    assert_eq!(e.roots[0], "a.start");
}

#[test]
fn export_nodes_carry_place_edges_and_classes() {
    let g = Graph::from_sources(&vec![(
        "a.kdl".to_string(),
        "root \"a.s\"\nstate \"a.s\" desc=\"s\" { -> \"a.t\" when=\"n > 1\" }\nstate \"a.t\"\n".to_string(),
    )])
    .unwrap();
    let e = export(&g, None);
    assert_eq!(SCHEMA_VERSION, 2);
    assert!(e.diff.is_none());
    let s = e.nodes.iter().find(|n| n.id == "a.s").unwrap();
    assert_eq!(s.file, "a.kdl:2");
    assert_eq!(s.out[0].to, "a.t");
    assert_eq!(s.out[0].when, Some("n > 1"));
    assert_eq!(s.out[0].class, "guard");
    let t = e.nodes.iter().find(|n| n.id == "a.t").unwrap();
    assert_eq!(t.desc, "");
}

#[test]
fn diff_overlay_lists_changes_and_the_sources_of_removed_nodes() {
    let old = Graph::from_sources(&vec![(
        "a.kdl".to_string(),
        "root \"a.s\"\nstate \"a.s\" desc=\"s\" { -> \"a.t\" }\nstate \"a.t\" desc=\"t\"\n".to_string(),
    )])
    .unwrap();
    let new = Graph::from_sources(&vec![(
        "a.kdl".to_string(),
        "root \"a.s\"\nstate \"a.s\" desc=\"s\" { -> \"a.u\" }\nstate \"a.u\" desc=\"u\"\n".to_string(),
    )])
    .unwrap();
    let d = diff(&old, &new);
    let mut e = export(&new, Some(&d));
    let x = e.diff.as_ref().unwrap();
    assert_eq!(x.added, vec!["a.u"]);
    assert_eq!(x.removed[0].id, "a.t");
    assert!(x.removed[0].from.is_empty());
    assert_eq!(x.changed, vec!["a.s"]);
    assert_eq!(x.edges_removed, vec![("a.s".to_string(), "a.t".to_string(), String::new())]);
    assert_eq!(x.edges_added, vec![("a.s".to_string(), "a.u".to_string(), String::new())]);
    fill_removed_sources(&mut e, &old);
    let x = e.diff.as_ref().unwrap();
    assert_eq!(x.removed[0].from, vec![("a.s".to_string(), String::new())]);
    assert_eq!(x.removed[0].desc, "t");
}
