use duflow_core::graph::Graph;
use duflow_core::lint_src::{contains_word, split_src, src_lint, src_refs};

fn mk(files: &[(&str, &str)]) -> Graph {
    let src: Vec<(String, String)> = files
        .iter()
        .map(|(f, s)| (f.to_string(), s.to_string()))
        .collect();
    Graph::from_sources(&src).unwrap()
}

const BASE: &str = r#"
root "a.start"
state "a.start" desc="s" { -> "a.mid" }
"#;

/// The files of a small repository, as the caller would read them.
fn read(path: &str) -> Option<String> {
    match path {
        "src/api.rs" => Some("pub fn create_instance() {}\n".to_string()),
        "src/View.vue" => {
            Some("<script setup lang=\"ts\">\nasync function submit() {}\n</script>\n".to_string())
        }
        _ => None,
    }
}

#[test]
fn src_attr_is_checked_against_the_repo() {
    let g = mk(&[(
        "a.kdl",
        &format!(
            "{BASE}\nstate \"a.mid\" desc=\"m\" src=\"src/api.rs#create_instance\"\nstate \"a.x\" desc=\"x\" src=\"src/api.rs#gone\"\nstate \"a.y\" desc=\"y\" src=\"src/nope.rs\"\nstate \"a.z\" desc=\"z\" src=\"src/api.rs:1\"\nstate \"a.w\" desc=\"w\" src=\"src/api.rs#create\"\nstate \"a.v\" desc=\"v\" src=\"src/View.vue#submit\"\nstate \"a.u\" desc=\"u\" src=\"src/View.vue\"\n"
        ),
    )]);
    let texts: Vec<Option<String>> = src_refs(&g).iter().map(|r| read(&r.path)).collect();
    let d = src_lint(&g, &texts);
    let by_id = |id: &str| {
        d.iter()
            .find(|x| x.id.as_deref() == Some(id))
            .map(|x| x.code)
    };
    assert_eq!(by_id("a.mid"), None);
    assert_eq!(by_id("a.x"), Some("src_symbol_missing"));
    assert_eq!(by_id("a.y"), Some("src_missing"));
    assert_eq!(by_id("a.z"), None);
    assert_eq!(by_id("a.w"), Some("src_symbol_missing"));
    assert_eq!(by_id("a.v"), None);
    assert_eq!(by_id("a.u"), Some("src_symbol_unchecked"));
}

#[test]
fn src_messages_name_the_node_and_path() {
    let g = mk(&[(
        "a.kdl",
        &format!("{BASE}\nstate \"a.mid\" desc=\"m\" src=\"src/nope.rs\"\n"),
    )]);
    let refs = src_refs(&g);
    assert_eq!(refs.len(), 1);
    let d = src_lint(&g, &vec![None]);
    assert_eq!(d.len(), 1);
    assert_eq!(d[0].message, "`a.mid`: src file `src/nope.rs` not found");
    assert_eq!(d[0].file, "a.kdl");
    let d = src_lint(&g, &vec![Some("fn main() {}".to_string())]);
    assert_eq!(d.len(), 1);
    assert_eq!(d[0].code, "src_symbol_unchecked");
    assert_eq!(
        d[0].message,
        "`a.mid`: src `src/nope.rs` names no `#symbol` (or `:line`), nothing to verify"
    );
    let g = mk(&[(
        "a.kdl",
        &format!("{BASE}\nstate \"a.mid\" desc=\"m\" src=\"docs/notes.md\"\n"),
    )]);
    assert!(src_lint(&g, &vec![Some(String::new())]).is_empty());
}

#[test]
fn src_value_splits_at_hash_then_at_a_numeric_line() {
    let p = split_src("src/a.rs#f");
    assert_eq!((p.0.as_str(), p.1.as_deref(), p.2.as_deref()), ("src/a.rs", Some("f"), None));
    let p = split_src("src/a.rs:12");
    assert_eq!((p.0.as_str(), p.1.as_deref(), p.2.as_deref()), ("src/a.rs", None, Some("12")));
    let p = split_src("c:/x/a.rs:x");
    assert_eq!((p.0.as_str(), p.1.as_deref(), p.2.as_deref()), ("c:/x/a.rs:x", None, None));
    let p = split_src("a:b:7");
    assert_eq!((p.0.as_str(), p.1.as_deref(), p.2.as_deref()), ("a:b", None, Some("7")));
}

#[test]
fn words_are_matched_whole() {
    assert!(contains_word("pub fn create_instance() {}", "create_instance"));
    assert!(!contains_word("pub fn create_instance() {}", "create"));
    assert!(contains_word("x.create(1)", "create"));
    assert!(contains_word("é create", "create"));
    assert!(!contains_word("ab", "abc"));
}
