use duflow_core::model::EdgeKind;
use duflow_core::parse::{parse_file, ParseError};

#[test]
fn parses_all_shapes() {
    let src = r#"
state "deploy.rolling.retry" layer="domain" {
  desc "Deneme sayacı artar"
  sets "deploy.attempts" "+1"
  -> "deploy.rolling.create_instance" when="deploy.attempts < 3"
  on "instance.failed" -> "deploy.rolling.retry"
}
call "api.deploys.create" method="POST" path="/x" {
  check "perm:deploy.trigger" fail=404
  check "has_build" fail=422 code="no_build" -> "ui.toast"
  returns 202 -> "deploy.queued"
}
action "ui.submit" { calls "api.deploys.create" }
var "deploy.attempts" type="int"
var "role" type="enum" source="session" values="admin member"
check "perm:deploy.trigger" reads="role"
root "ui.login"
view "v" from="ui.login" to="deploy.done"
"#;
    let it = parse_file("t.kdl", src).unwrap();
    assert_eq!(it.nodes.len(), 3);
    let retry = &it.nodes[0];
    assert_eq!(retry.edges.len(), 2);
    assert_eq!(retry.edges[0].when.as_deref(), Some("deploy.attempts < 3"));
    assert!(matches!(retry.edges[1].kind, EdgeKind::On { .. }));
    assert_eq!(retry.sets[0].value, "+1");
    let call = &it.nodes[1];
    assert_eq!(call.attr("method").unwrap(), "POST");
    assert_eq!(call.checks[1].to.as_deref(), Some("ui.toast"));
    assert!(matches!(
        call.edges[0].kind,
        EdgeKind::Returns {
            status: Some(202),
            ..
        }
    ));
    assert_eq!(it.vars[1].values, vec!["admin", "member"]);
    assert_eq!(it.checks[0].reads, vec!["role"]);
    assert_eq!(it.roots[0].id, "ui.login");
    assert_eq!(it.views[0].to, "deploy.done");
    assert_eq!(retry.line, 2);
}

#[test]
fn parses_project_config() {
    let src = r#"
project "duploy" {
  layers "ui" "api" "domain" "infra"
  watch "dorch/src/api/**" "dorch/src/deploy/**"
  watch "dorch/ui/src/views/**"
}
"#;
    let it = parse_file("flow.kdl", src).unwrap();
    let cfg = it.config.unwrap();
    assert_eq!(cfg.name, "duploy");
    assert_eq!(cfg.layers.len(), 4);
    assert_eq!(
        cfg.watch,
        vec![
            "dorch/src/api/**",
            "dorch/src/deploy/**",
            "dorch/ui/src/views/**"
        ]
    );
}

#[test]
fn parses_case_labels_outcomes_requires_and_periodic_roots() {
    let src = r#"
state "event.published" layer="domain" desc="x" {
  check "pool_has_ip" fail=409 outcome="IP havuzu dolu"
  -> "deploy.a" case="deploy"
  -> "deploy.b" case="build"
  on "deploy.done" -> "deploy.a" case="late"
}
call "api.x.save" method="POST" path="/x" {
  requires "deploy.trigger"
  requires "org.admin" -> "ui.forbidden"
  returns 200 case="pr" -> "x.pr"
  returns 200 case="apply" -> "x.apply"
  returns 409 code="volume_in_use" outcome="toast: volume in use"
}
perm "deploy.trigger" scope="project" deny=404 desc="Projede deploy izni" -> "ui.not_found"
root "network.liveness" every="30s"
"#;
    let it = parse_file("t.kdl", src).unwrap();
    let ev = &it.nodes[0];
    assert_eq!(ev.checks[0].outcome.as_deref(), Some("IP havuzu dolu"));
    assert_eq!(ev.checks[0].to, None);
    assert_eq!(ev.edges[0].case.as_deref(), Some("deploy"));
    assert_eq!(ev.edges[0].label(), "case deploy");
    assert_eq!(ev.edges[2].case.as_deref(), Some("late"));
    assert_eq!(ev.edges[2].label(), "on deploy.done · case late");
    let call = &it.nodes[1];
    assert_eq!(call.checks[0].name, "perm:deploy.trigger");
    assert_eq!(call.checks[0].fail, None);
    assert_eq!(call.checks[1].to.as_deref(), Some("ui.forbidden"));
    assert_eq!(call.edges[0].label(), "200 · case pr");
    assert_eq!(call.edges.len(), 2);
    assert_eq!(call.outcomes.len(), 1);
    assert_eq!(call.outcomes[0].status, Some(409));
    assert_eq!(call.outcomes[0].code.as_deref(), Some("volume_in_use"));
    assert_eq!(call.outcomes[0].text, "toast: volume in use");
    let perm = &it.perms[0];
    assert_eq!(perm.id, "deploy.trigger");
    assert_eq!(perm.scope.as_deref(), Some("project"));
    assert_eq!(perm.deny, Some(404));
    assert_eq!(perm.fail_to.as_deref(), Some("ui.not_found"));
    assert_eq!(it.roots[0].every.as_deref(), Some("30s"));
}

#[test]
fn returns_without_target_or_outcome_is_an_error() {
    let err = parse_file("t.kdl", "call \"a.b\" { returns 500 }\n").unwrap_err();
    assert!(err.to_text().contains("returns"), "{err:?}");
}

#[test]
fn kdl_syntax_errors_name_the_file() {
    let err = parse_file("bad.kdl", "state \"a\" {\n").unwrap_err();
    assert!(err.to_text().starts_with("bad.kdl:"), "{err:?}");
}

#[test]
fn shape_errors_name_the_rule_and_the_line() {
    let msg = |src: &str| match parse_file("t.kdl", src) {
        Err(ParseError::Shape { file, line, msg }) => (file, line, msg),
        _ => panic!("expected a shape error"),
    };
    assert_eq!(
        msg("call \"a.b\" { returns 500 }\n"),
        ("t.kdl".to_string(), 1, "`returns` requires `-> \"target\"` or `outcome=\"...\"`".to_string())
    );
    assert_eq!(msg("state \"A\"\n").2, "invalid ID `A` (allowed: a-z 0-9 _ and dot)");
    assert_eq!(msg("var \"x..y\"\n").2, "invalid var ID `x..y`");
    assert_eq!(msg("state \"a.b\" {\n  frob\n}\n"), ("t.kdl".to_string(), 2, "unknown child `frob`".to_string()));
    assert_eq!(msg("widget \"a\"\n").2, "unknown top-level node `widget`");
    assert_eq!(msg("view \"v\" to=\"a\"\n").2, "view requires `from`");
    assert_eq!(msg("root 5\n").2, "first argument of `root` must be an ID");
}
