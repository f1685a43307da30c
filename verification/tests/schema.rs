use rhumb_validate::validators::schema::{
    discover_json_files, has_json_extension, resolve_schema_name, run, validate_schema_file, JsonValue,
    SchemaValidators, SCHEMA_NAMES,
};
use rhumb_validate::validators::walk::Node;
use rhumb_validate::{Category, CategoryResult, FailureKind, Source};

fn object(members: Vec<(&str, JsonValue)>) -> JsonValue {
    JsonValue::Object(members.into_iter().map(|(k, v)| (k.to_string(), v)).collect())
}

/// Small draft-7 schemas standing in for the RWP ones: an object that must
/// carry a string `plan_id`.
fn sample_schemas() -> SchemaValidators {
    let source = r#"{"type":"object","required":["plan_id"],"properties":{"plan_id":{"type":"string"}}}"#;
    let sources: [String; 5] = std::array::from_fn(|_| source.to_string());
    SchemaValidators::compile(&sources)
}

fn check(path: &str, bytes: &[u8], schemas: &SchemaValidators) -> CategoryResult {
    let mut r = CategoryResult::empty(Category::Schema);
    let f = Source { path: path.to_string(), contents: Ok(bytes.to_vec()) };
    validate_schema_file(&f, schemas, &mut r);
    r
}

#[test]
fn schema_name_resolved_from_filename() {
    let cases = [
        ("valid-plan.json", Some("plan")),
        ("valid-intake.json", Some("intake")),
        ("invalid-manifest-missing-plan-id.json", Some("manifest")),
        ("invalid-state-bad-status.json", Some("state")),
        ("invalid-handoff-no-metadata.json", Some("handoff")),
        ("package.json", None),
        ("tsconfig.json", None),
    ];
    for (filename, expected) in cases {
        let value = object(Vec::new());
        let got = resolve_schema_name(filename, &value);
        assert_eq!(got, expected, "filename: {filename}");
    }
}

#[test]
fn schema_name_resolved_from_dollar_schema_field() {
    let value = object(vec![(
        "$schema",
        JsonValue::String("https://rhumbprotocol.dev/schemas/plan.schema.json".to_string()),
    )]);
    assert_eq!(resolve_schema_name("anything.json", &value), Some("plan"));
}

#[test]
fn json_schema_meta_documents_are_silently_skipped() {
    let cases = [
        "https://json-schema.org/draft/2020-12/schema",
        "http://json-schema.org/draft-07/schema#",
        "http://json-schema.org/draft-04/schema#",
    ];
    for uri in cases {
        let value = object(vec![("$schema", JsonValue::String(uri.to_string()))]);
        assert_eq!(
            resolve_schema_name("state-update.schema.json", &value),
            None,
            "expected $schema={uri} on state-update.schema.json to be silently skipped",
        );
    }
}

#[test]
fn schema_name_falls_back_to_stem_segments_in_order() {
    let other_uri = object(vec![("$schema", JsonValue::String("https://example.com/x.json".to_string()))]);
    assert_eq!(resolve_schema_name("dir/My_State-Plan.JSON", &other_uri), Some("state"));
    assert_eq!(resolve_schema_name("planning.json", &other_uri), None);
    assert_eq!(resolve_schema_name("a/b/handoff", &JsonValue::Null), Some("handoff"));
}

#[test]
fn has_json_extension_ignores_ascii_case() {
    assert!(has_json_extension("/x/a.json"));
    assert!(has_json_extension("/x/a.JSON"));
    assert!(!has_json_extension("/x/.json"));
    assert!(!has_json_extension("/x/a.jsonl"));
    assert_eq!(SCHEMA_NAMES.len(), 5);
}

#[test]
fn schema_run_handles_missing_target_gracefully() {
    let schemas = sample_schemas();
    let listing = discover_json_files("/does/not/exist/anywhere/rhumb-validate", &Node::Missing)
        .map(|v| v.into_iter().map(|p| Source { path: p, contents: Ok(Vec::new()) }).collect());
    let mut r = CategoryResult::empty(Category::Schema);
    run("/does/not/exist/anywhere/rhumb-validate", listing, &schemas, &mut r);
    assert_eq!(r.passed, 0);
    assert_eq!(r.failed, 0);
    assert!(r.failures.is_empty());
}

#[test]
fn schema_run_skips_non_rwp_json_without_counting() {
    let schemas = sample_schemas();
    let r = check("/t/package.json", br#"{"name":"x","version":"1.0.0"}"#, &schemas);
    assert_eq!((r.passed, r.failed), (0, 0));
    assert!(r.failures.is_empty());
}

#[test]
fn conforming_instance_passes_and_dollar_schema_is_ignored() {
    let schemas = sample_schemas();
    let r = check(
        "/t/anything.json",
        br#"{"$schema":"https://rhumbprotocol.dev/schemas/plan.schema.json","plan_id":"P"}"#,
        &schemas,
    );
    assert_eq!((r.passed, r.failed), (1, 0), "{:?}", r.failures);
}

#[test]
fn non_conforming_instance_reports_first_error() {
    let schemas = sample_schemas();
    let r = check("/t/valid-plan.json", br#"{"plan_id": 7}"#, &schemas);
    assert_eq!((r.passed, r.failed), (0, 1));
    let f = &r.failures[0];
    assert_eq!(f.kind, FailureKind::SchemaMismatch);
    assert!(f.message.starts_with("does not conform to plan schema: "), "{}", f.message);
    assert_eq!(f.details.as_deref(), Some("instance_path=/plan_id schema_path=/properties/plan_id/type"));
}

#[test]
fn invalid_json_and_unreadable_files_fail() {
    let schemas = sample_schemas();
    let r = check("/t/valid-plan.json", b"{not json", &schemas);
    assert_eq!(r.failed, 1);
    assert!(r.failures[0].message.starts_with("not valid JSON: "));
    let mut r = CategoryResult::empty(Category::Schema);
    let f = Source { path: "/t/x.json".to_string(), contents: Err("denied".to_string()) };
    validate_schema_file(&f, &schemas, &mut r);
    assert_eq!(r.failures[0].kind, FailureKind::Io);
    assert_eq!(r.failures[0].message, "read failed: denied");
}

#[test]
fn schema_that_fails_to_compile_is_internal_failure() {
    let mut sources: [String; 5] = std::array::from_fn(|_| "{}".to_string());
    sources[3] = "{not json".to_string();
    let schemas = SchemaValidators::compile(&sources);
    let r = check("/t/valid-plan.json", b"{}", &schemas);
    assert_eq!(r.failed, 1);
    assert_eq!(r.failures[0].kind, FailureKind::Internal);
    assert!(
        r.failures[0].message.starts_with("validator construction failed for plan: embedded plan schema parse error: "),
        "{}",
        r.failures[0].message
    );
}
