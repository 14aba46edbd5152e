use duflow_core::brief::brief;
use duflow_core::graph::Graph;
use duflow_core::prereq::prereq;
use duflow_core::query::{fuzzy, search};

fn g() -> Graph {
    Graph::from_sources(&vec![
        (
            "a.kdl".to_string(),
            "root \"a.start\"\nstate \"a.start\" desc=\"Start\" { -> \"a.mid\" }\ncall \"a.mid\" desc=\"Middle step\" {\n  check \"has_ip\" fail=409 -> \"a.fail\"\n  sets \"a.count\" \"+1\"\n  returns 200 -> \"a.end\" when=\"a.count < 3\"\n  returns 201 -> \"a.end\"\n}\nstate \"a.end\" desc=\"End\"\nstate \"a.fail\" desc=\"Fail\"\nstate \"b.other\" desc=\"Other\" { -> \"a.mid\" }\n".to_string(),
        ),
        ("checks.kdl".to_string(), "check \"has_ip\" desc=\"ip\" reads=\"pool.free\"\n".to_string()),
        ("vars.kdl".to_string(), "var \"a.count\" type=\"int\"\nvar \"pool.free\" type=\"int\" source=\"db\"\n".to_string()),
    ])
    .unwrap()
}

#[test]
fn fuzzy_scores_prefixes_and_runs_higher() {
    assert_eq!(fuzzy("abc", "abc"), Some(110));
    assert_eq!(fuzzy("xabc", "abc"), Some(70 - 1));
    assert_eq!(fuzzy("abc", "abd"), None);
    assert_eq!(fuzzy("ABC", "ab"), Some(80));
    assert!(fuzzy("a.mid", "mid").unwrap() > fuzzy("a.m.i.d", "mid").unwrap());
}

#[test]
fn search_orders_by_score_then_id_and_truncates() {
    let g = g();
    let hits = search(&g, "a.", 3);
    assert_eq!(hits.len(), 3);
    for w in hits.windows(2) {
        assert!(w[0].score > w[1].score || (w[0].score == w[1].score && w[0].id <= w[1].id));
    }
    let all = search(&g, "mid", 50);
    assert_eq!(all[0].id, "a.mid");
    assert_eq!(all[0].kind, "call");
    assert_eq!(all[0].go.as_deref(), Some("a.mid"));
    let c = search(&g, "has_ip", 50);
    let h = c.iter().find(|h| h.kind == "check").unwrap();
    assert_eq!(h.go.as_deref(), Some("a.mid"));
    let v = search(&g, "a.count", 50);
    let hv = v.iter().find(|h| h.kind == "var").unwrap();
    assert_eq!(hv.go.as_deref(), Some("a.mid"));
    assert_eq!(hv.desc, "sets");
    assert!(search(&g, "zzz", 5).is_empty());
}

#[test]
fn brief_collects_edges_reads_checks_and_group() {
    let g = g();
    let b = brief(&g, "a.mid").unwrap();
    assert_eq!(b.path_from_root.as_ref().unwrap(), &vec!["a.start".to_string(), "a.mid".to_string()]);
    assert_eq!(b.incoming.len(), 2);
    assert_eq!(b.outgoing.len(), 3);
    assert_eq!(b.reads, vec!["a.count", "pool.free"]);
    assert_eq!(b.checks.len(), 1);
    assert_eq!(b.writes[0].var, "a.count");
    assert_eq!(b.group_siblings, Vec::<String>::new());
    let md = b.to_markdown(&g);
    assert!(md.starts_with("# a.mid (call · api)\nMiddle step\na.kdl:3\n"), "{md}");
    assert!(md.contains("\n## How to get here (1 steps)\na.start → a.mid\n"), "{md}");
    assert!(md.contains("\n## Incoming\n- a.start \n"), "{md}");
    assert!(md.contains("- has_ip ✗ 409 — ip\n"), "{md}");
    assert!(md.contains("- reads pool.free (db)\n"), "{md}");
    assert!(md.contains("- sets a.count +1\n"), "{md}");
    assert!(brief(&g, "nope").is_none());
    let end = brief(&g, "a.end").unwrap();
    assert!(end.group_siblings.is_empty());
    let g3 = Graph::from_sources(&vec![(
        "x.kdl".to_string(),
        "root \"x.a.one\"\nstate \"x.a.one\" { -> \"x.a.two\" }\nstate \"x.a.two\"\nstate \"x.b.three\"\n".to_string(),
    )])
    .unwrap();
    assert_eq!(brief(&g3, "x.a.one").unwrap().group_siblings, vec!["x.a.two"]);
}

#[test]
fn prereq_walks_the_shortest_path_and_the_ancestors() {
    let g = g();
    let p = prereq(&g, "a.end", 2).unwrap();
    assert_eq!(p.path.as_ref().unwrap(), &vec!["a.start".to_string(), "a.mid".to_string(), "a.end".to_string()]);
    assert_eq!(p.steps.len(), 2);
    assert_eq!(p.steps[1].from, "a.mid");
    assert_eq!(p.steps[1].label, "201");
    assert_eq!(p.steps[1].when, None);
    assert_eq!(p.steps[1].checks, vec!["has_ip"]);
    assert_eq!(p.ancestors, vec!["a.mid", "a.start", "b.other"]);
    let vars: Vec<&str> = p.vars.iter().map(|v| v.var.as_str()).collect();
    assert_eq!(vars, vec!["pool.free"]);
    assert_eq!(p.vars[0].source.as_deref(), Some("db"));
    let p1 = prereq(&g, "a.end", 1).unwrap();
    assert_eq!(p1.ancestors, vec!["a.mid"]);
    let md = p.to_markdown();
    assert!(md.starts_with("# Prerequisites: a.end\n\nPath (2 steps): a.start → a.mid → a.end\n"), "{md}");
    assert!(md.contains("2. a.mid → a.end [201] · must pass: has_ip\n"), "{md}");
    assert!(md.contains("\n## Required variables\n- pool.free — source db\n"), "{md}");
    assert!(md.ends_with("\n## Ancestors\na.mid, a.start, b.other\n"), "{md}");
    assert!(prereq(&g, "zz", 3).is_none());
}
