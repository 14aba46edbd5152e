use duflow_core::graph::Graph;
use duflow_core::lint::{has_errors, lint, Diagnostic, Level};
use duflow_core::table::{contains_key, find_key};

fn mk(files: &[(&str, &str)]) -> Graph {
    let src: Vec<(String, String)> = files
        .iter()
        .map(|(f, s)| (f.to_string(), s.to_string()))
        .collect();
    Graph::from_sources(&src).unwrap()
}

fn codes(d: &[Diagnostic]) -> Vec<&str> {
    d.iter().map(|x| x.code).collect()
}

const BASE: &str = r#"
root "a.start"
state "a.start" desc="s" { -> "a.mid" }
"#;

#[test]
fn check_allowed_in_state_and_produces_fail_edge() {
    let g = mk(&[
        (
            "a.kdl",
            &format!(
                "{BASE}\nstate \"a.mid\" desc=\"m\" {{\n  check \"has_ip\" -> \"a.fail\"\n  -> \"a.ok\"\n}}\nstate \"a.ok\" desc=\"o\"\nstate \"a.fail\" desc=\"f\"\n"
            ),
        ),
        ("checks.kdl", "check \"has_ip\" desc=\"ip\"\n"),
    ]);
    let d = lint(&g);
    assert!(!codes(&d).contains(&"check_outside_call"), "{d:?}");
    assert!(!has_errors(&d), "{d:?}");
    assert!(g
        .outgoing("a.mid")
        .iter()
        .any(|e| e.to == "a.fail" && e.class == "fail"));
}

#[test]
fn case_labelled_fanout_is_not_ambiguous() {
    let g = mk(&[(
        "a.kdl",
        &format!(
            "{BASE}\nstate \"a.mid\" desc=\"m\" {{\n  -> \"a.x\" case=\"x\"\n  -> \"a.y\" case=\"y\"\n}}\nstate \"a.x\" desc=\"x\"\nstate \"a.y\" desc=\"y\"\n"
        ),
    )]);
    assert!(!codes(&lint(&g)).contains(&"ambiguous_transition"));
    let g2 = mk(&[(
        "a.kdl",
        &format!(
            "{BASE}\nstate \"a.mid\" desc=\"m\" {{\n  -> \"a.x\"\n  -> \"a.y\"\n}}\nstate \"a.x\" desc=\"x\"\nstate \"a.y\" desc=\"y\"\n"
        ),
    )]);
    assert!(codes(&lint(&g2)).contains(&"ambiguous_transition"));
}

#[test]
fn on_may_listen_to_any_node_but_listening_does_not_make_states_reachable() {
    let g = mk(&[(
        "a.kdl",
        &format!(
            "{BASE}\nstate \"a.mid\" desc=\"m\" {{\n  on \"a.done\" -> \"a.start\"\n  on \"a.ev\" -> \"a.start\"\n  on \"a.ghost\" -> \"a.start\"\n}}\nstate \"a.done\" desc=\"d\"\nevent \"a.ev\" desc=\"e\"\n"
        ),
    )]);
    let d = lint(&g);
    let ev: Vec<_> = d.iter().filter(|x| x.code == "unknown_event").collect();
    assert_eq!(ev.len(), 1, "{d:?}");
    assert!(ev[0].message.contains("a.ghost"));
    assert!(
        d.iter()
            .any(|x| x.code == "unreachable" && x.id.as_deref() == Some("a.done")),
        "{d:?}"
    );
    assert!(
        !d.iter()
            .any(|x| x.code == "unreachable" && x.id.as_deref() == Some("a.ev")),
        "{d:?}"
    );
}

#[test]
fn local_vars_need_no_definition_but_need_a_writer_in_group() {
    let g = mk(&[(
        "a.kdl",
        &format!(
            "{BASE}\nstate \"a.mid\" desc=\"m\" {{\n  sets \"retry\" \"+1\"\n  -> \"a.start\" when=\"retry < 3\"\n  -> \"a.ok\" when=\"retry >= 3\"\n}}\nstate \"a.ok\" desc=\"o\" {{\n  -> \"a.start\" when=\"orphan == 1\"\n  sets \"b.global\" \"1\"\n}}\n"
        ),
    )]);
    let d = lint(&g);
    assert!(
        !d.iter()
            .any(|x| x.code == "unknown_var" && x.message.contains("retry")),
        "{d:?}"
    );
    assert!(
        d.iter()
            .any(|x| x.code == "local_var_never_set" && x.message.contains("orphan")),
        "{d:?}"
    );
    assert!(
        d.iter()
            .any(|x| x.code == "unknown_var" && x.message.contains("b.global")),
        "{d:?}"
    );
}

#[test]
fn requires_resolves_to_perm_check_with_deny_code_and_target() {
    let g = mk(&[
        (
            "a.kdl",
            &format!(
                "{BASE}\ncall \"a.mid\" desc=\"m\" method=\"POST\" path=\"/x\" {{\n  requires \"deploy.trigger\"\n  requires \"ghost\"\n  returns 202 -> \"a.ok\"\n}}\nstate \"a.ok\" desc=\"o\"\nstate \"a.nf\" desc=\"404\"\n"
            ),
        ),
        (
            "perms.kdl",
            "perm \"deploy.trigger\" scope=\"project\" deny=404 desc=\"izin\" -> \"a.nf\"\n",
        ),
    ]);
    let d = lint(&g);
    assert!(contains_key(&g.checks, "perm:deploy.trigger"));
    assert!(
        !d.iter()
            .any(|x| x.code == "unknown_check" && x.message.contains("deploy.trigger")),
        "{d:?}"
    );
    assert!(
        d.iter()
            .any(|x| x.code == "unknown_perm" && x.message.contains("ghost")),
        "{d:?}"
    );
    let e = g
        .outgoing("a.mid")
        .iter()
        .find(|e| e.to == "a.nf")
        .expect("perm fail edge");
    assert_eq!(e.class, "fail");
    assert!(e.label.contains("404"), "{}", e.label);
    assert_eq!(g.perm_users("deploy.trigger").len(), 1);
}

#[test]
fn outcomes_satisfy_fail_target_and_returns_rules() {
    let g = mk(&[
        (
            "a.kdl",
            &format!(
                "{BASE}\ncall \"a.mid\" desc=\"m\" {{\n  check \"has_ip\" fail=409 outcome=\"toast: no ip\"\n  returns 500 outcome=\"toast: boom\"\n}}\n"
            ),
        ),
        ("checks.kdl", "check \"has_ip\" desc=\"ip\"\n"),
    ]);
    let d = lint(&g);
    assert!(!codes(&d).contains(&"check_no_fail_target"), "{d:?}");
    assert!(!codes(&d).contains(&"call_no_returns"), "{d:?}");
    assert!(!has_errors(&d), "{d:?}");
}

#[test]
fn root_rules() {
    let g = mk(&[(
        "a.kdl",
        &format!(
            "{BASE}\nstate \"a.mid\" desc=\"m\" {{ -> \"a.ok\" }}\nstate \"a.ok\" desc=\"o\"\nroot \"a.mid\" every=\"30s\"\n"
        ),
    )]);
    let d = lint(&g);
    assert!(
        d.iter()
            .any(|x| x.code == "root_has_incoming" && x.id.as_deref() == Some("a.mid")),
        "{d:?}"
    );
    assert!(
        !d.iter()
            .any(|x| x.code == "root_has_incoming" && x.id.as_deref() == Some("a.start")),
        "{d:?}"
    );
    let mut many = String::from(BASE);
    many.push_str("state \"a.mid\" desc=\"m\"\n");
    for i in 0..11 {
        many.push_str(&format!("state \"a.r{i}\" desc=\"r\"\nroot \"a.r{i}\"\n"));
    }
    assert!(codes(&lint(&mk(&[("a.kdl", &many)]))).contains(&"too_many_roots"));
}

#[test]
fn local_var_scope_is_the_prefix_up_to_the_last_dot() {
    let g = mk(&[(
        "restore.kdl",
        "root \"restore.snapshot\"\nstate \"restore.snapshot\" desc=\"s\" {\n  sets \"done\" \"true\"\n  -> \"restore.applying\"\n}\nstate \"restore.applying\" desc=\"a\" {\n  -> \"restore.snapshot\" when=\"done == false\"\n}\n",
    )]);
    let d = lint(&g);
    assert!(!codes(&d).contains(&"local_var_never_set"), "{d:?}");
}

#[test]
fn seq_steps_are_not_ambiguous_but_duplicates_warn() {
    let g = mk(&[(
        "a.kdl",
        &format!(
            "{BASE}\nstate \"a.mid\" desc=\"m\" {{\n  -> \"a.x\" seq=1\n  -> \"a.y\" seq=2\n}}\nstate \"a.x\" desc=\"x\" {{\n  -> \"a.y\" case=\"ok\"\n  -> \"a.mid\" case=\"ok\"\n  -> \"a.mid\" seq=1\n  -> \"a.y\" seq=1\n}}\nstate \"a.y\" desc=\"y\"\n"
        ),
    )]);
    let d = lint(&g);
    assert!(!codes(&d).contains(&"ambiguous_transition"), "{d:?}");
    assert!(
        d.iter()
            .any(|x| x.code == "duplicate_case" && x.id.as_deref() == Some("a.x")),
        "{d:?}"
    );
    assert!(
        d.iter()
            .any(|x| x.code == "duplicate_seq" && x.id.as_deref() == Some("a.x")),
        "{d:?}"
    );
}

#[test]
fn definition_outcome_is_the_default_and_usage_outcome_suppresses_the_edge() {
    let g = mk(&[
        (
            "a.kdl",
            &format!(
                "{BASE}\ncall \"a.mid\" desc=\"m\" {{\n  check \"has_ip\"\n  check \"other\" outcome=\"toast: mine\"\n  returns 200 -> \"a.start\"\n}}\nstate \"a.nf\" desc=\"n\"\n"
            ),
        ),
        (
            "checks.kdl",
            "check \"has_ip\" desc=\"ip\" outcome=\"toast: no ip\"\ncheck \"other\" desc=\"o\" -> \"a.nf\"\n",
        ),
    ]);
    let d = lint(&g);
    assert!(!codes(&d).contains(&"check_no_fail_target"), "{d:?}");
    assert!(
        g.outgoing("a.mid").iter().all(|e| e.to != "a.nf"),
        "{:?}",
        g.outgoing("a.mid")
    );
    let mid = &g.nodes[find_key(&g.nodes, "a.mid").unwrap()];
    assert_eq!(
        g.effective_outcome(&mid.checks[0]).as_deref(),
        Some("toast: no ip")
    );
}

#[test]
fn mixing_seq_and_case_on_one_node_warns() {
    let g = mk(&[(
        "a.kdl",
        &format!(
            "{BASE}\nstate \"a.mid\" desc=\"m\" {{\n  -> \"a.x\" seq=1\n  -> \"a.y\" case=\"y\"\n}}\nstate \"a.x\" desc=\"x\"\nstate \"a.y\" desc=\"y\"\n"
        ),
    )]);
    assert!(codes(&lint(&g)).contains(&"mixed_branching"));
}

#[test]
fn arrow_outcome_guards_are_linted_like_edges() {
    let g = mk(&[(
        "a.kdl",
        &format!(
            "{BASE}\nstate \"a.mid\" desc=\"m\" {{\n  -> outcome=\"toast\" when=\"ghost > 1\"\n}}\n"
        ),
    )]);
    let d = lint(&g);
    assert!(
        d.iter()
            .any(|x| x.code == "local_var_never_set" && x.message.contains("ghost")),
        "{d:?}"
    );
}

#[test]
fn entry_nodes_are_reachable_without_roots_and_periodic_roots_are_not_counted() {
    let mut src = String::from(BASE);
    src.push_str("state \"a.mid\" desc=\"m\"\ncall \"a.admin\" desc=\"cli\" entry=\"cli\" method=\"POST\" path=\"/x\" { returns 200 -> \"a.mid\" }\n");
    for i in 0..11 {
        src.push_str(&format!(
            "state \"a.r{i}\" desc=\"r\"\nroot \"a.r{i}\" every=\"30s\"\n"
        ));
    }
    let d = lint(&mk(&[("a.kdl", &src)]));
    assert!(!codes(&d).contains(&"unreachable"), "{d:?}");
    assert!(!codes(&d).contains(&"too_many_roots"), "{d:?}");
}

#[test]
fn event_nodes_should_not_carry_transitions() {
    let g = mk(&[(
        "a.kdl",
        &format!(
            "{BASE}\nstate \"a.mid\" desc=\"m\" {{\n  on \"a.ev\" -> \"a.start\"\n}}\nevent \"a.ev\" desc=\"e\" {{\n  -> \"a.start\"\n}}\n"
        ),
    )]);
    let d = lint(&g);
    assert!(
        d.iter()
            .any(|x| x.code == "event_has_transition" && x.id.as_deref() == Some("a.ev")),
        "{d:?}"
    );
}

#[test]
fn lint_output_is_ordered_errors_first_then_by_file_and_line() {
    let g = mk(&[(
        "a.kdl",
        &format!(
            "{BASE}\nstate \"a.mid\" desc=\"m\" {{\n  -> \"a.x\"\n  -> \"a.y\"\n}}\nstate \"a.x\" desc=\"x\"\nstate \"a.y\" desc=\"y\" {{ -> \"a.gone\" }}\n"
        ),
    )]);
    let d = lint(&g);
    assert!(!d.is_empty());
    for w in d.windows(2) {
        let (a, b) = (&w[0], &w[1]);
        let ra = if a.level == Level::Error { 1 } else { 0 };
        let rb = if b.level == Level::Error { 1 } else { 0 };
        assert!(ra >= rb, "{d:?}");
        if ra == rb {
            assert!(a.file <= b.file, "{d:?}");
            if a.file == b.file {
                assert!(a.line <= b.line, "{d:?}");
            }
        }
    }
}

#[test]
fn diagnostic_text_shows_level_place_code_and_message() {
    let d = Diagnostic {
        level: Level::Warning,
        code: "x",
        message: "m".into(),
        file: "f.kdl".into(),
        line: 7,
        id: None,
    };
    assert_eq!(d.to_text(), "warn  f.kdl:7 [x] m");
    let e = Diagnostic { level: Level::Error, ..d };
    assert_eq!(e.to_text(), "error f.kdl:7 [x] m");
}

#[test]
fn what_an_entry_node_leads_to_is_reachable() {
    let src = format!(
        "{BASE}\nstate \"a.mid\" desc=\"m\"\ncall \"a.admin\" desc=\"cli\" entry=\"cli\" method=\"POST\" path=\"/x\" {{ returns 200 -> \"a.only\" }}\nstate \"a.only\" desc=\"o\"\nstate \"a.lost\" desc=\"l\"\n"
    );
    let d = lint(&mk(&[("a.kdl", &src)]));
    let unreachable: Vec<&str> = d
        .iter()
        .filter(|x| x.code == "unreachable")
        .map(|x| x.id.as_deref().unwrap_or(""))
        .collect();
    assert_eq!(unreachable, vec!["a.lost"], "{d:?}");
}
