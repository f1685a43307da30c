use rhumb_validate::validators::adapter::{check_manifest, discover_adapter_roots, run, validate_adapter, YamlValue};
use rhumb_validate::validators::walk::Node;
use rhumb_validate::{Category, CategoryResult, FailureKind, Source};

const MINIMAL_VALID_MANIFEST: &str = "\
integration:
  name: \"Test Adapter\"
  platform: \"test-platform\"
  rwp_version: \"0.29.0\"
  version: \"0.1.0\"
components: {}
";

fn check_text(text: &str) -> CategoryResult {
    let mut r = CategoryResult::empty(Category::Adapter);
    let m = Source { path: "/a".to_string(), contents: Ok(text.to_string()) };
    validate_adapter(&m, &mut r);
    r
}

fn messages(r: &CategoryResult) -> Vec<String> {
    r.failures.iter().map(|f| f.message.clone()).collect()
}

fn adapter_dir(entries: Vec<(&str, Node)>, has_manifest: bool) -> Node {
    let markers = if has_manifest { vec!["MANIFEST.yaml".to_string()] } else { Vec::new() };
    Node::Dir {
        markers,
        listing: Ok(entries.into_iter().map(|(n, node)| Ok((n.to_string(), true, node))).collect()),
    }
}

#[test]
fn adapter_run_returns_empty_on_nonexistent_target() {
    let mut r = CategoryResult::empty(Category::Adapter);
    let listing = discover_adapter_roots("/this/path/should/not/exist/rhumb-validate-empty", &Node::Missing)
        .map(|roots| roots.into_iter().map(|p| Source { path: p, contents: Ok(String::new()) }).collect());
    run("/this/path/should/not/exist/rhumb-validate-empty", listing, &mut r);
    assert_eq!(r.passed, 0);
    assert_eq!(r.failed, 0);
    assert_eq!(r.skipped, 0);
    assert!(r.failures.is_empty());
}

#[test]
fn adapter_roots_stop_at_manifest_dir() {
    let outer = adapter_dir(
        vec![("MANIFEST.yaml", Node::File), ("inner", adapter_dir(vec![("MANIFEST.yaml", Node::File)], true))],
        true,
    );
    let tree = adapter_dir(
        vec![
            ("outer", outer),
            ("b", adapter_dir(vec![("MANIFEST.yaml", Node::File)], true)),
            ("not-an-adapter", adapter_dir(vec![("README.md", Node::File)], false)),
        ],
        false,
    );
    let roots = discover_adapter_roots("/t", &tree).expect("walks");
    assert_eq!(roots, vec!["/t/b".to_string(), "/t/outer".to_string()]);
}

#[test]
fn minimal_manifest_passes() {
    let r = check_text(MINIMAL_VALID_MANIFEST);
    assert_eq!((r.passed, r.failed), (1, 0), "{:?}", r.failures);
}

#[test]
fn adp1_missing_integration_block_emits_adp1() {
    let r = check_text("components: {}\nother: stuff\n");
    assert_eq!((r.passed, r.failed), (0, 1));
    assert_eq!(messages(&r), vec!["ADP-1 MANIFEST.yaml is missing the top-level 'integration:' block"]);
}

#[test]
fn adp1_integration_not_a_mapping_emits_adp1() {
    let r = check_text("integration: \"oops\"\ncomponents: {}\n");
    assert_eq!(r.failed, 1);
    assert_eq!(messages(&r), vec!["ADP-1 MANIFEST.yaml 'integration:' is not a mapping"]);
}

#[test]
fn adp2_to_adp5_each_key_is_checked() {
    let r = check_text("integration:\n  platform: \"\"\n  rwp_version: 1.0\n  version: [1]\ncomponents: {}\n");
    assert_eq!(r.failed, 1);
    assert_eq!(
        messages(&r),
        vec![
            "ADP-2 MANIFEST.yaml integration.name is missing",
            "ADP-3 MANIFEST.yaml integration.platform is an empty string",
            "ADP-4 MANIFEST.yaml integration.rwp_version is not a string",
            "ADP-5 MANIFEST.yaml integration.version is not a string",
        ]
    );
    assert!(r.failures.iter().all(|f| f.kind == FailureKind::AdapterShapeMismatch));
}

#[test]
fn adp6_components_shapes() {
    let base = "integration:\n  name: n\n  platform: p\n  rwp_version: \"1\"\n  version: \"2\"\n";
    assert_eq!(
        messages(&check_text(base)),
        vec!["ADP-6 MANIFEST.yaml is missing the top-level 'components:' block"]
    );
    assert_eq!(
        messages(&check_text(&format!("{base}components:\n"))),
        vec!["ADP-6 MANIFEST.yaml 'components:' is null (expected a mapping; empty map allowed)"]
    );
    assert_eq!(
        messages(&check_text(&format!("{base}components:\n  - a\n  - b\n"))),
        vec!["ADP-6 MANIFEST.yaml 'components:' is not a mapping"]
    );
}

#[test]
fn yaml_parse_error_and_non_mapping_top_level() {
    let r = check_text("integration: [unclosed\n");
    assert_eq!(r.failed, 1);
    assert_eq!(r.failures[0].message, "MANIFEST.yaml is not valid YAML");
    assert!(r.failures[0].details.is_some());
    let r = check_text("- just\n- a list\n");
    assert_eq!(messages(&r), vec!["MANIFEST.yaml top-level value is not a mapping"]);
}

#[test]
fn unreadable_manifest_is_io_failure() {
    let mut r = CategoryResult::empty(Category::Adapter);
    let m = Source { path: "/a".to_string(), contents: Err("denied".to_string()) };
    validate_adapter(&m, &mut r);
    assert_eq!(r.failures[0].kind, FailureKind::Io);
    assert_eq!(r.failures[0].message, "read failed: /a/MANIFEST.yaml");
}

#[test]
fn check_manifest_on_given_values() {
    let integration = vec![
        ("name".to_string(), YamlValue::String("n".to_string())),
        ("platform".to_string(), YamlValue::String("p".to_string())),
        ("rwp_version".to_string(), YamlValue::String("1".to_string())),
        ("version".to_string(), YamlValue::Number),
    ];
    let doc = YamlValue::Mapping(vec![
        ("integration".to_string(), YamlValue::Mapping(integration)),
        ("components".to_string(), YamlValue::Mapping(Vec::new())),
    ]);
    let fs = check_manifest("/a", &Ok(doc));
    assert_eq!(fs.len(), 1);
    assert_eq!(fs[0].message, "ADP-5 MANIFEST.yaml integration.version is not a string");
    let fs = check_manifest("/a", &Err("bad".to_string()));
    assert_eq!(fs[0].details.as_deref(), Some("bad"));
}
