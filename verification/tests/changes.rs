use duflow_core::changes::{changed_flow_files, changed_since, porcelain_path};
use duflow_core::ui::diff_param;

fn pairs(v: &[(&str, &str)]) -> Vec<(String, String)> {
    v.iter().map(|(a, b)| (a.to_string(), b.to_string())).collect()
}

#[test]
fn porcelain_lines_give_paths() {
    assert_eq!(porcelain_path(" M src/a.rs").as_deref(), Some("src/a.rs"));
    assert_eq!(porcelain_path("?? \"with space.rs\"").as_deref(), Some("with space.rs"));
    assert_eq!(porcelain_path("M  x ").as_deref(), Some("x"));
    assert_eq!(porcelain_path(" M"), None);
}

#[test]
fn session_changes_are_commits_and_new_dirt() {
    let got = changed_since(
        &vec!["b.rs".to_string(), "a.rs".to_string()],
        &pairs(&[("c.rs", "h1"), ("d.rs", "h2"), ("a.rs", "h9")]),
        &pairs(&[("c.rs", "h1"), ("d.rs", "old")]),
    );
    assert_eq!(got, vec!["a.rs", "b.rs", "d.rs"]);
}

#[test]
fn flow_changes_include_removed_files() {
    let got = changed_flow_files(
        &pairs(&[("f/a.kdl", "1"), ("f/b.kdl", "2"), ("f/new.kdl", "5")]),
        &pairs(&[("f/a.kdl", "1"), ("f/b.kdl", "3"), ("f/gone.kdl", "4")]),
    );
    assert_eq!(got, vec!["f/b.kdl", "f/gone.kdl", "f/new.kdl"]);
}

#[test]
fn ui_request_names_its_diff() {
    assert_eq!(diff_param("GET /?diff=main..dev HTTP/1.1").as_deref(), Some("main..dev"));
    assert_eq!(diff_param("GET /?x=1&diff=main&y=2 HTTP/1.1").as_deref(), Some("main"));
    assert_eq!(diff_param("GET /?diff= HTTP/1.1"), None);
    assert_eq!(diff_param("GET / HTTP/1.1"), None);
    assert_eq!(diff_param(""), None);
}
