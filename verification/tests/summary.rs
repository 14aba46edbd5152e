use duflow_core::lint::{Diagnostic, Level};
use duflow_core::select::select_diagnostics;
use duflow_core::summary::{lint_summary, ns_of_diag};

fn d(code: &'static str, file: &str, id: Option<&str>) -> Diagnostic {
    Diagnostic {
        level: Level::Error,
        code,
        message: String::new(),
        file: file.to_string(),
        line: 1,
        id: id.map(String::from),
    }
}

#[test]
fn namespace_is_the_id_prefix_or_the_file() {
    assert_eq!(ns_of_diag(&d("x", "a.kdl", Some("deploy.rolling.retry")), 1), "deploy");
    assert_eq!(ns_of_diag(&d("x", "a.kdl", Some("deploy.rolling.retry")), 2), "deploy.rolling");
    assert_eq!(ns_of_diag(&d("x", "a.kdl", Some("deploy")), 3), "deploy");
    assert_eq!(ns_of_diag(&d("x", "ui/x.kdl", None), 1), "ui");
    assert_eq!(ns_of_diag(&d("x", "vars.kdl.kdl", None), 1), "vars");
}

#[test]
fn summary_table_counts_codes_per_namespace() {
    let ds = vec![
        d("unreachable", "a.kdl", Some("a.x")),
        d("unreachable", "b.kdl", Some("b.y")),
        d("dangling_ref", "a.kdl", Some("a.z")),
        d("no_roots", "flows", None),
    ];
    let t = lint_summary(&ds, 1).unwrap();
    let expected = format!(
        "{:<22} {:>8} {:>8} {:>8}    total\n{:<22} {:>8} {:>8} {:>8} {:>8}\n{:<22} {:>8} {:>8} {:>8} {:>8}\n{:<22} {:>8} {:>8} {:>8} {:>8}\n",
        "code", "a", "b", "flows",
        "dangling_ref", "1", "·", "·", 1,
        "no_roots", "·", "·", "1", 1,
        "unreachable", "1", "1", "·", 2,
    );
    assert_eq!(t, expected);
}

#[test]
fn long_namespaces_are_cut_to_sixteen_bytes() {
    let ds = vec![d("c", "f.kdl", Some("abcdefghijklmnopqrstu.x"))];
    let t = lint_summary(&ds, 1).unwrap();
    assert!(t.starts_with(&format!("{:<22} abcdefghijklmnop    total\n", "code")), "{t}");
    // a cut inside a character is where slicing would panic
    let ds = vec![d("c", "f.kdl", Some("abcdefghijklmnoé.x"))];
    assert!(lint_summary(&ds, 1).is_none());
    let ds = vec![d("c", "f.kdl", Some("abcdefghijklmné.x"))];
    assert!(lint_summary(&ds, 1).is_some());
    let ds = vec![d("c", "f.kdl", Some("abcdefghijklmnopé.x"))];
    assert!(lint_summary(&ds, 1).is_some());
    let ds = vec![d("c", "f.kdl", Some("abcdefghijklmnoéé.x"))];
    assert!(lint_summary(&ds, 1).is_none());
}

#[test]
fn prefix_selects_by_id_or_file() {
    let ds = vec![
        d("x", "a.kdl", Some("a.x")),
        d("x", "b.kdl", Some("b.y")),
        d("x", "a/c.kdl", None),
    ];
    let kept = select_diagnostics(ds, &vec!["a".to_string()]);
    let files: Vec<&str> = kept.iter().map(|x| x.file.as_str()).collect();
    assert_eq!(files, vec!["a.kdl", "a/c.kdl"]);
    let all = select_diagnostics(vec![d("x", "b.kdl", None)], &vec![]);
    assert_eq!(all.len(), 1);
}
