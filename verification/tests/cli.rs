use duflow_core::cli::{attr_matches, edit_ops, op_name, version_newer, EditArgs};
use duflow_core::edit::{quoted, replace_word, is_ident_char, EditError, Op};
use duflow_core::graph::Graph;
use duflow_core::table::find_key;
use duflow_core::ui::render;

#[test]
fn version_compare_is_numeric() {
    assert!(version_newer("0.5.10", "0.5.2"));
    assert!(!version_newer("0.5.2", "0.5.2"));
    assert!(!version_newer("v0.4.9", "0.5.0"));
}

#[test]
fn version_parts_that_do_not_parse_count_as_zero() {
    assert!(version_newer("1.0.1", "1.0"));
    assert!(!version_newer("1.0", "1.0.0"));
    assert!(!version_newer("1.x", "1.0"));
    assert!(version_newer("vv2", "1.99"));
    assert!(version_newer("+3", "2"));
    assert!(!version_newer("99999999999999999999999", "0"));
}

#[test]
fn edit_removals_come_before_additions() {
    let e = EditArgs {
        id: "a.b".into(),
        sets: vec!["desc=x".into()],
        kind: Some("state".into()),
        children: vec!["-> \"a.c\" case=\"go\"".into()],
        rm_edges: vec!["a.c".into()],
        rm_children: vec!["sets:n".into()],
    };
    let names: Vec<String> = edit_ops(e).unwrap().iter().map(op_name).collect();
    assert_eq!(
        names,
        vec!["rm_edge", "rm_child", "set_kind", "set_attr", "add_child"]
    );
}

fn args() -> EditArgs {
    EditArgs {
        id: "a.b".into(),
        sets: vec![],
        kind: None,
        children: vec![],
        rm_edges: vec![],
        rm_children: vec![],
    }
}

#[test]
fn edit_ops_split_their_arguments_and_refuse_bad_ones() {
    let mut e = args();
    e.rm_children = vec!["check:perm:x".into()];
    e.sets = vec!["path=/a=b".into()];
    let ops = edit_ops(e).unwrap();
    match &ops[0] {
        Op::RmChild { id, name, arg } => {
            assert_eq!((id.as_str(), name.as_str(), arg.as_str()), ("a.b", "check", "perm:x"))
        }
        other => panic!("{other:?}"),
    }
    match &ops[1] {
        Op::SetAttr { key, value, .. } => assert_eq!((key.as_str(), value.as_str()), ("path", "/a=b")),
        other => panic!("{other:?}"),
    }
    let mut bad = args();
    bad.rm_children = vec!["sets".into()];
    bad.sets = vec!["nokey".into()];
    assert_eq!(edit_ops(bad).unwrap_err(), "--rm-child `sets`: expected name:arg");
    let mut bad2 = args();
    bad2.sets = vec!["nokey".into()];
    assert_eq!(edit_ops(bad2).unwrap_err(), "--set `nokey`: expected key=value");
    assert_eq!(edit_ops(args()).unwrap_err(), "no operations given");
}

#[test]
fn attr_filters_match_key_or_key_value() {
    let g = Graph::from_sources(&vec![(
        "a.kdl".to_string(),
        "call \"a.c\" method=\"POST\" path=\"/x\" { returns 200 outcome=\"ok\" }\n".to_string(),
    )])
    .unwrap();
    let n = &g.nodes[find_key(&g.nodes, "a.c").unwrap()];
    assert!(attr_matches(n, "method"));
    assert!(attr_matches(n, "method=POST"));
    assert!(!attr_matches(n, "method=GET"));
    assert!(!attr_matches(n, "entry"));
}

#[test]
fn quoting_and_whole_word_renames() {
    assert_eq!(quoted(r#"a "b" \c"#), r#""a \"b\" \\c""#);
    assert_eq!(quoted(""), "\"\"");
    assert_eq!(
        replace_word("deploy.attempts < 3 && deploy.attempts_x > 1", "deploy.attempts", "deploy.tries"),
        "deploy.tries < 3 && deploy.attempts_x > 1"
    );
    assert_eq!(replace_word("aa", "a", "b"), "ab");
    assert_eq!(replace_word("x.a a", "a", "b"), "x.a b");
    assert!(is_ident_char(b'a') && is_ident_char(b'_') && is_ident_char(b':') && is_ident_char(b'.'));
    assert!(!is_ident_char(b' ') && !is_ident_char(b'-') && !is_ident_char(0xC3));
}

#[test]
fn edit_error_messages() {
    assert_eq!(EditError::NotFound("a.b".into()).to_text(), "`a.b` not found");
    assert_eq!(EditError::InvalidId("A b".into()).to_text(), "invalid ID `A b`");
    assert_eq!(
        EditError::Referenced("a".into(), "b, c".into()).to_text(),
        "`a` is referenced from: b, c (use --force to remove references too)"
    );
    assert_eq!(
        EditError::Parse { file: "x.kdl".into(), msg: "m".into() }.to_text(),
        "x.kdl: KDL parse error: m"
    );
}

#[test]
fn render_escapes_script_ends_and_fills_the_first_placeholder() {
    let page = render("<p>__DUFLOW_DATA__</p>__DUFLOW_DATA__", r#"{"a":"</script>"}"#);
    assert_eq!(page, r#"<p>{"a":"<\/script>"}</p>__DUFLOW_DATA__"#);
    assert_eq!(render("no slot", "{}"), "no slot");
}
