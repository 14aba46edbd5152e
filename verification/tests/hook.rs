use duflow_core::hook::{
    baseline_file, deny_reason, drift_warning, flows_changed, is_git_commit, post_tool_context,
    scoped_errors, session_context, stop_blocking, stop_reason, watched_files,
};
use duflow_core::text::split_words;
use duflow_core::lint::{Diagnostic, Level};

#[test]
fn detects_git_commit() {
    assert!(is_git_commit("git commit -m x"));
    assert!(is_git_commit("git -C ../x commit -am y"));
    assert!(is_git_commit("cargo test && git commit -m x"));
    assert!(!is_git_commit("git status"));
    assert!(!is_git_commit("git log --oneline | grep commit"));
}

#[test]
fn stop_errors_are_scoped_to_changed_files() {
    let d = |file: &str, level| Diagnostic {
        level,
        code: "x",
        message: "m".into(),
        file: file.into(),
        line: 1,
        id: None,
    };
    let diags = vec![
        d("deploy.kdl", Level::Error),
        d("edge/dns.kdl", Level::Error),
        d("deploy.kdl", Level::Warning),
    ];
    let only: Vec<String> = vec!["deploy.kdl".to_string()];
    assert_eq!(scoped_errors(diags.clone(), Some(&only)).len(), 1);
    assert_eq!(scoped_errors(diags, None).len(), 2);
}

#[test]
fn stop_ignores_unreachable_but_keeps_local_errors() {
    let errs = vec![
        "error a.kdl:1 [unreachable] `a.x` is not reachable from any root".to_string(),
        "error a.kdl:2 [dangling_ref] `a.x` → `a.y`: target not defined".to_string(),
    ];
    let kept = stop_blocking(errs);
    assert_eq!(kept.len(), 1);
    assert!(kept[0].contains("dangling_ref"));
}

#[test]
fn scoped_errors_are_the_error_lines() {
    let d = Diagnostic {
        level: Level::Error,
        code: "dangling_ref",
        message: "`a.x` → `a.y`: target not defined".into(),
        file: "a.kdl".into(),
        line: 2,
        id: Some("a.x".into()),
    };
    assert_eq!(
        scoped_errors(vec![d], None),
        vec!["error a.kdl:2 [dangling_ref] `a.x` → `a.y`: target not defined".to_string()]
    );
}

#[test]
fn words_split_on_any_white_space() {
    assert_eq!(
        split_words("  git\tcommit\u{3000}-m  x \n"),
        vec!["git", "commit", "-m", "x"]
    );
    assert!(split_words("   ").is_empty());
    assert!(is_git_commit("git\u{a0}-C x -c commit"));
    assert!(!is_git_commit("git -C x -c a=b -q commit"));
}

#[test]
fn stop_reason_lists_errors_and_drift() {
    let errs = vec!["error a.kdl:1 [x] y".to_string()];
    let code = vec!["src/api.rs".to_string()];
    let r = stop_reason(&errs, &code, false, "flows").unwrap();
    assert!(r.starts_with("`duflow validate` reports errors in files you changed this session; fix them before stopping:\n  error a.kdl:1 [x] y\nWatched source files changed this session but `flows/` did not:\n  src/api.rs\nEither update"));
    assert!(r.ends_with("then stop."));
    assert_eq!(stop_reason(&vec![], &code, true, "flows"), None);
    assert_eq!(stop_reason(&vec![], &vec![], false, "flows"), None);
    let many: Vec<String> = (0..30).map(|i| format!("e{i}")).collect();
    let r = stop_reason(&many, &vec![], true, "flows").unwrap();
    assert_eq!(r.matches("  e").count(), 20);
    assert!(r.contains("  e19\n") && !r.contains("e20"));
}

#[test]
fn commit_texts() {
    let errs = vec!["a".to_string(), "b".to_string()];
    assert_eq!(
        deny_reason(&errs),
        "`duflow validate` has errors; fix them before committing:\n  a\n  b"
    );
    let code: Vec<String> = (0..7).map(|i| format!("f{i}")).collect();
    assert_eq!(
        drift_warning(&code, "x/flows"),
        "duflow: watched files changed this session (f0, f1, f2, f3, f4) but `x/flows/` did not. Make sure the flow graph is updated (or unaffected) before finishing."
    );
}

#[test]
fn session_and_edit_context() {
    let c = session_context("duploy", "flows", 12, &vec![]);
    assert!(c.starts_with("duflow project `duploy`: the system flow graph lives in `flows/` (12 nodes). Before implementing"));
    assert!(c.ends_with("and run `duflow validate`."));
    let w = session_context("d", "flows", 1, &vec!["a/**".to_string(), "b/*".to_string()]);
    assert!(w.ends_with(" Files under `a/**`, `b/*` are watched: changing them without updating the graph blocks stopping and committing."));
    let p = post_tool_context("src/x.rs", "flows");
    assert!(p.starts_with("`src/x.rs` is in duflow's watch scope."));
    assert!(p.contains("reflect it in `flows/` via `duflow add|edit|rename|rm`"));
}

#[test]
fn flows_change_and_baseline_names() {
    let changed = vec!["src/a.rs".to_string(), "x/flows/a.kdl".to_string()];
    assert!(flows_changed(&changed, "x/flows", false));
    assert!(!flows_changed(&changed, "flows", false));
    assert!(flows_changed(&vec![], "flows", true));
    assert_eq!(baseline_file("ab-C9/ü.x"), "ab-C9___x.json");
}

#[test]
fn glob_matches_repo_relative() {
    let set = vec!["dorch/src/api/**".to_string(), "ui/src/views/**".to_string()];
    let m = |f: &str| !watched_files(&set, &vec![f.to_string()]).unwrap().is_empty();
    assert!(m("dorch/src/api/deploys.rs"));
    assert!(m("ui/src/views/projects/Deploys.vue"));
    assert!(!m("dorch/src/models/x.rs"));
}

#[test]
fn watched_files_keep_order_and_refuse_a_bad_pattern() {
    let set = vec!["src/**/*.rs".to_string()];
    let files = vec!["src/a/b.rs".to_string(), "README.md".to_string(), "src/c.rs".to_string()];
    assert_eq!(watched_files(&set, &files).unwrap(), vec!["src/a/b.rs", "src/c.rs"]);
    assert_eq!(watched_files(&vec![], &files).unwrap(), Vec::<String>::new());
    let bad = vec!["src/**".to_string(), "a[".to_string()];
    let e = watched_files(&bad, &files).unwrap_err();
    assert!(e.starts_with("bad watch glob `a[`: "), "{e}");
}
