use duflow_core::expr::idents;

#[test]
fn extracts_idents() {
    assert_eq!(
        idents(r#"deploy.attempts >= 3 && role == "org_admin" || !service.frozen"#),
        vec!["deploy.attempts", "role", "service.frozen"]
    );
    assert_eq!(idents("true"), Vec::<String>::new());
}

#[test]
fn idents_are_sorted_and_each_once() {
    assert_eq!(idents("b > 1 && a < 2 && b != 3"), vec!["a", "b"]);
}
