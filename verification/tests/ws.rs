use duflow_core::edit::{EditError, Op};
use duflow_core::model::{file_for_id, Attr};
use duflow_core::ws::{
    file_for_new, find_top, open_docs, snapshot, get_node, plan_op, plan_rename, plan_rm_node, tidy_kids, trim_end_spaces_exec,
    Ent, EntEdit, Fmt, Kinds, OpPlan, Plan, Tree, Ws, WsFile,
};
use kdl::{KdlDocument, KdlNode, KdlValue};

fn tree(n: &KdlNode) -> Tree {
    Tree {
        name: n.name().value().to_string(),
        ents: n
            .entries()
            .iter()
            .map(|e| Ent {
                name: e.name().map(|k| k.value().to_string()),
                text: match e.value() {
                    KdlValue::String(s) => s.clone(),
                    v => v.to_string(),
                },
                is_str: e.value().is_string(),
            })
            .collect(),
        kids: n.children().map(|c| c.nodes().iter().map(tree).collect()),
    }
}

/// The workspace as read from files (given in path order).
fn ws_of(files: &[(&str, &str)]) -> Ws {
    let mut fs: Vec<(&str, &str)> = files.to_vec();
    fs.sort();
    Ws {
        files: fs
            .iter()
            .map(|(p, s)| WsFile {
                path: p.to_string(),
                nodes: KdlDocument::parse(s).unwrap().nodes().iter().map(tree).collect(),
            })
            .collect(),
    }
}

const ROLLING: &str = "// rolling akışı\nstate \"deploy.rolling.retry\" layer=\"domain\" {\n  desc \"Deneme sayacı artar\" // yorum\n  sets \"deploy.attempts\" \"+1\"\n  -> \"deploy.rolling.rollback\" when=\"deploy.attempts >= 3\"\n}\n";

fn attrs(kv: &[(&str, &str)]) -> Vec<Attr> {
    kv.iter()
        .map(|(k, v)| Attr { key: k.to_string(), value: v.to_string() })
        .collect()
}

#[test]
fn lookups_find_nodes_before_definitions() {
    let ws = ws_of(&[
        ("deploy/rolling.kdl", ROLLING),
        ("vars.kdl", "var \"deploy.rolling.retry\"\n"),
    ]);
    assert_eq!(get_node(&ws, "deploy.rolling.retry").unwrap(), (0, 0));
    assert_eq!(find_top(&ws, &Kinds::Defs, "deploy.rolling.retry"), Some((1, 0)));
    assert!(matches!(get_node(&ws, "ghost"), Err(EditError::NotFound(x)) if x == "ghost"));
}

#[test]
fn new_nodes_go_to_their_id_file() {
    let ws = ws_of(&[("ui.kdl", "action \"ui.login\" desc=\"l\"\n")]);
    assert_eq!(file_for_new(&ws, "ui.project.open", None), "ui/project.kdl");
    let ws = ws_of(&[("ui.kdl", "action \"ui.deploy.a\" desc=\"l\"\n")]);
    assert_eq!(file_for_new(&ws, "ui.deploy.b", None), "ui.kdl");
    let ws = ws_of(&[("deploy/rolling.kdl", ROLLING)]);
    assert_eq!(file_for_new(&ws, "deploy.done", None), "deploy.kdl");
}

#[test]
fn add_node_checks_kind_id_and_child_lines() {
    let ws = ws_of(&[("deploy/rolling.kdl", ROLLING)]);
    let op = |kind: &str, id: &str, children: Vec<String>| Op::AddNode {
        kind: kind.to_string(),
        id: id.to_string(),
        attrs: vec![],
        children,
    };
    match plan_op(&ws, &op("state", "deploy.done", vec!["-> \"ui.x\"".into()])) {
        Some(Ok(OpPlan::Simple(Plan::AddNode { path }))) => assert_eq!(path, "deploy.kdl"),
        _ => panic!("expected a plan"),
    }
    assert!(matches!(plan_op(&ws, &op("perm", "a.b", vec![])), Some(Err(EditError::Bad(m))) if m == "unknown kind `perm`"));
    assert!(matches!(plan_op(&ws, &op("state", "A.b", vec![])), Some(Err(EditError::InvalidId(_)))));
    assert!(matches!(
        plan_op(&ws, &op("call", "deploy.rolling.retry", vec![])),
        Some(Err(EditError::Exists(id, f))) if id == "deploy.rolling.retry" && f == "deploy/rolling.kdl"
    ));
    assert!(matches!(
        plan_op(&ws, &op("state", "deploy.x", vec!["-> \"unclosed".into()])),
        Some(Err(EditError::Bad(m))) if m.starts_with("could not parse child line `-> \"unclosed`: ")
    ));
}

#[test]
fn set_attr_marks_the_old_values() {
    let ws = ws_of(&[("deploy/rolling.kdl", ROLLING)]);
    let op = Op::SetAttr { id: "deploy.rolling.retry".into(), key: "desc".into(), value: "Yeni".into() };
    match plan_op(&ws, &op) {
        Some(Ok(OpPlan::Simple(Plan::SetAttr { file, top, drop_ents, drop_kids, push }))) => {
            assert_eq!((file, top), (0, 0));
            assert_eq!(drop_ents, vec![false, false]);
            assert_eq!(drop_kids, vec![true, false, false]);
            assert!(push);
        }
        _ => panic!("expected a plan"),
    }
}

#[test]
fn rm_edge_marks_the_lines_that_lead_there() {
    let ws = ws_of(&[("deploy/rolling.kdl", ROLLING)]);
    let op = Op::RmEdge { id: "deploy.rolling.retry".into(), to: "deploy.rolling.rollback".into() };
    match plan_op(&ws, &op) {
        Some(Ok(OpPlan::Simple(Plan::RmKids { drop_kids, missing, .. }))) => {
            assert_eq!(drop_kids, vec![false, false, true]);
            assert!(missing.is_none());
        }
        _ => panic!("expected a plan"),
    }
    let op = Op::RmEdge { id: "deploy.rolling.retry".into(), to: "ghost".into() };
    match plan_op(&ws, &op) {
        Some(Ok(OpPlan::Simple(Plan::RmKids { missing: Some(e), .. }))) => {
            assert_eq!(e.to_text(), "`deploy.rolling.retry → ghost` not found");
        }
        _ => panic!("expected a plan"),
    }
    let op = Op::RmChild { id: "deploy.rolling.retry".into(), name: "sets".into(), arg: "deploy.attempts".into() };
    match plan_op(&ws, &op) {
        Some(Ok(OpPlan::Simple(Plan::RmKids { drop_kids, missing: None, .. }))) => {
            assert_eq!(drop_kids, vec![false, true, false]);
        }
        _ => panic!("expected a plan"),
    }
}

#[test]
fn set_kind_accepts_node_kinds_only() {
    let ws = ws_of(&[("deploy/rolling.kdl", ROLLING)]);
    let op = Op::SetKind { id: "deploy.rolling.retry".into(), kind: "call".into() };
    assert!(matches!(plan_op(&ws, &op), Some(Ok(OpPlan::Simple(Plan::SetKind { file: 0, top: 0 })))));
    let op = Op::SetKind { id: "deploy.rolling.retry".into(), kind: "perm".into() };
    assert!(matches!(plan_op(&ws, &op), Some(Err(EditError::Bad(_)))));
}

#[test]
fn rm_node_is_refused_while_referenced_and_forced_removes_references() {
    let ws = ws_of(&[
        ("deploy/rolling.kdl", ROLLING),
        ("deploy.kdl", "state \"deploy.rolling.rollback\" layer=\"domain\"\n"),
    ]);
    match plan_rm_node(&ws, "deploy.rolling.rollback", false) {
        Err(EditError::Referenced(id, refs)) => {
            assert_eq!(id, "deploy.rolling.rollback");
            assert_eq!(refs, "deploy/rolling.kdl: deploy.rolling.retry");
        }
        _ => panic!("expected a refusal"),
    }
    let p = plan_rm_node(&ws, "deploy.rolling.rollback", true).unwrap();
    assert!(p.tidy);
    // deploy.kdl (index 0): the node itself goes.
    assert!(!p.files[0].tops[0].keep && p.files[0].dirty);
    // deploy/rolling.kdl (index 1): the edge goes, the rest stays.
    assert!(p.files[1].tops[0].keep && p.files[1].dirty);
    assert_eq!(p.files[1].tops[0].drop_kids, vec![false, false, true]);
}

#[test]
fn forced_removal_strips_failure_targets_and_read_words() {
    let ws = ws_of(&[
        ("ui.kdl", "state \"ui.toast\" desc=\"t\"\nstate \"ui.nf\" desc=\"n\"\n"),
        (
            "checks.kdl",
            "check \"has_ip\" desc=\"ip\" reads=\"role attempts\" -> \"ui.toast\"\ncheck \"other\" fail_to=\"ui.toast\" reads=\"attempts\"\n",
        ),
        ("vars.kdl", "var \"role\"\nvar \"attempts\" type=\"int\"\n"),
    ]);
    let p = plan_rm_node(&ws, "ui.toast", true).unwrap();
    // checks.kdl is file 0: `has_ip` loses `-> "ui.toast"`, `other` its `fail_to`.
    let e = |t: &EntEdit| match t {
        EntEdit::Keep => "keep".to_string(),
        EntEdit::Drop => "drop".to_string(),
        EntEdit::Put(v) => format!("put {v}"),
    };
    let has_ip: Vec<String> = p.files[0].tops[0].ents.iter().map(e).collect();
    assert_eq!(has_ip, vec!["keep", "keep", "keep", "drop", "drop"]);
    let other: Vec<String> = p.files[0].tops[1].ents.iter().map(e).collect();
    assert_eq!(other, vec!["keep", "drop", "keep"]);
    let p = plan_rm_node(&ws, "attempts", true).unwrap();
    let has_ip: Vec<String> = p.files[0].tops[0].ents.iter().map(e).collect();
    assert_eq!(has_ip, vec!["keep", "keep", "put role", "keep", "keep"]);
    let other: Vec<String> = p.files[0].tops[1].ents.iter().map(e).collect();
    assert_eq!(other, vec!["keep", "keep", "drop"]);
    assert!(!p.files[2].tops[1].keep && p.files[2].tops[0].keep);
}

#[test]
fn rename_updates_every_reference_and_moves_the_node() {
    let ws = ws_of(&[
        ("deploy/rolling.kdl", ROLLING),
        ("vars.kdl", "var \"deploy.attempts\" type=\"int\"\n"),
    ]);
    let p = plan_rename(&ws, "deploy.rolling.retry", "deploy.again").unwrap().unwrap();
    assert_eq!(p.puts[0].len(), 1);
    assert_eq!((p.puts[0][0].path.clone(), p.puts[0][0].ent, p.puts[0][0].value.as_str()), (vec![0], 0, "deploy.again"));
    assert!(p.puts[1].is_empty());
    assert_eq!(p.moved, Some((0, 0, "deploy.kdl".to_string())));
    let p = plan_rename(&ws, "deploy.attempts", "deploy.tries").unwrap().unwrap();
    let puts: Vec<(Vec<usize>, usize, String)> =
        p.puts[0].iter().map(|x| (x.path.clone(), x.ent, x.value.clone())).collect();
    assert_eq!(
        puts,
        vec![
            (vec![0, 1], 0, "deploy.tries".to_string()),
            (vec![0, 2], 1, "deploy.tries >= 3".to_string()),
        ]
    );
    assert_eq!(p.puts[1].len(), 1);
    assert!(p.moved.is_none());
    assert!(matches!(plan_rename(&ws, "deploy.attempts", "Bad Id"), Some(Err(EditError::InvalidId(_)))));
    assert!(matches!(plan_rename(&ws, "ghost", "x"), Some(Err(EditError::NotFound(_)))));
}

#[test]
fn definitions_write_deny_and_fail_as_numbers() {
    let ws = ws_of(&[("deploy.kdl", "state \"deploy.done\" desc=\"d\"\n")]);
    let op = Op::AddPerm { id: "deploy.trigger".into(), attrs: attrs(&[("deny", "404"), ("scope", "p")]) };
    match plan_op(&ws, &op) {
        Some(Ok(OpPlan::Simple(Plan::AddDef { path, ints }))) => {
            assert_eq!(path, "perms.kdl");
            assert_eq!(ints, vec![Some(404), None]);
        }
        _ => panic!("expected a plan"),
    }
    let op = Op::AddVar { id: "deploy.attempts".into(), attrs: attrs(&[("type", "int")]) };
    assert!(matches!(plan_op(&ws, &op), Some(Ok(OpPlan::Simple(Plan::AddDef { path, .. }))) if path == "deploy.kdl"));
    let op = Op::AddVar { id: "role".into(), attrs: vec![] };
    assert!(matches!(plan_op(&ws, &op), Some(Ok(OpPlan::Simple(Plan::AddDef { path, .. }))) if path == "vars.kdl"));
    let op = Op::AddRoot { id: "deploy.done".into(), attrs: attrs(&[("every", "30s")]) };
    assert!(matches!(plan_op(&ws, &op), Some(Ok(OpPlan::Simple(Plan::AddDef { path, .. }))) if path == "roots.kdl"));
}

#[test]
fn children_are_laid_out_one_per_line() {
    let f = |l: &str, t: &str, tr: &str| Fmt { leading: l.into(), terminator: t.into(), trailing: tr.into() };
    let out = tidy_kids(false, &vec![f(" ", ";", ""), f("", "", "")]);
    let v: Vec<(String, String)> = out.iter().map(|x| (x.leading.clone(), x.terminator.clone())).collect();
    assert_eq!(v, vec![("\n ".to_string(), "\n".to_string()), ("".to_string(), "\n".to_string())]);
    assert_eq!(trim_end_spaces_exec("x  "), "x");
}

#[test]
fn two_segment_ids_prefer_an_existing_grouped_file() {
    let ws = ws_of(&[("a.kdl", "state \"a.x\" desc=\"x\"\n"), ("a/b.kdl", "state \"a.b.y\" desc=\"y\"\n")]);
    assert_eq!(file_for_new(&ws, "a.b", None), "a/b.kdl");
    let ws = ws_of(&[("a.kdl", "state \"a.x\" desc=\"x\"\n")]);
    assert_eq!(file_for_new(&ws, "a.b", None), "a.kdl");
    let ws = ws_of(&[]);
    assert_eq!(file_for_new(&ws, "a.b", None), "a.kdl");
    assert_eq!(file_for_new(&ws, "a", None), "a.kdl");
}

#[test]
fn file_for_id_follows_the_segment_rules() {
    let no = |_: &str, _: &str| false;
    assert_eq!(file_for_id("a.b", |f: &str| f == "a/b.kdl", no), "a/b.kdl");
    assert_eq!(file_for_id("a.b", |_: &str| false, no), "a.kdl");
    assert_eq!(file_for_id("a.b", |f: &str| f == "a.kdl" || f == "a/b.kdl", no), "a/b.kdl");
    assert_eq!(file_for_id("a.b.c", |f: &str| f == "a.kdl", |_: &str, p: &str| p == "a.b."), "a.kdl");
    assert_eq!(file_for_id("a.b.c", |f: &str| f == "a.kdl", no), "a/b.kdl");
}

#[test]
fn documents_are_read_in_order_and_the_first_bad_file_is_named() {
    let src = |p: &str, t: &str| (p.to_string(), t.to_string());
    let docs = open_docs(&vec![src("deploy/rolling.kdl", ROLLING), src("vars.kdl", "var \"deploy.attempts\"\n")]).unwrap();
    let ws = snapshot(&docs);
    assert_eq!(ws.files.len(), 2);
    assert_eq!(ws.files[0].path, "deploy/rolling.kdl");
    assert_eq!(ws.files[0].nodes[0].name, "state");
    assert_eq!(ws.files[0].nodes[0].kids.as_ref().unwrap().len(), 3);
    assert_eq!(ws.files[1].nodes[0].ents[0].text, "deploy.attempts");
    assert_eq!(get_node(&ws, "deploy.rolling.retry").unwrap(), (0, 0));
    match open_docs(&vec![src("a.kdl", "state \"a.x\"\n"), src("b.kdl", "state {"), src("c.kdl", "x {")]) {
        Err(EditError::Parse { file, .. }) => assert_eq!(file, "b.kdl"),
        _ => panic!("expected a parse error"),
    }
}
