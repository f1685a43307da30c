use rhumb_validate::fixtures::{embedded_fixtures, fixture_blob, parse_fixture_blob};
use rhumb_validate::report::{
    assemble_report, category_exit_code, error_exit_raw, render_text, report_exit_code, selected_categories,
};
use rhumb_validate::validators::{validator, Validator, DISPATCH};
use rhumb_validate::{
    format_iso8601, Category, Timestamp, CategoryResult, Error, Failure, FailureKind, Report, EMBEDDED_FIXTURES_FORMAT_VERSION,
    EMBEDDED_FIXTURES_MAGIC, RWP_VERSION,
};

type TestResult = Result<(), Box<dyn std::error::Error>>;

fn base_report() -> Report {
    Report {
        rhumb_validate_version: "0.1.0".to_string(),
        rwp_version: RWP_VERSION.to_string(),
        started_at: "1970-01-01T00:00:00Z".to_string(),
        completed_at: "1970-01-01T00:00:00Z".to_string(),
        target_path: "/tmp/x".to_string(),
        categories: Vec::new(),
        overall_passed: true,
        total_duration_ms: 0,
    }
}

fn failing_category(category: Category) -> CategoryResult {
    CategoryResult {
        category,
        passed: 0,
        failed: 1,
        skipped: 0,
        failures: vec![Failure {
            fixture: "synthetic".to_string(),
            category,
            kind: FailureKind::Internal,
            message: "synthetic failure".to_string(),
            details: None,
        }],
        duration_ms: 0,
    }
}

#[test]
fn category_round_trips_through_str() -> TestResult {
    for cat in Category::ALL {
        let s = cat.as_str();
        let parsed: Category = s.parse()?;
        assert_eq!(parsed, cat);
    }
    Ok(())
}

#[test]
fn category_from_str_rejects_unknown() {
    let Err(message) = "nonsense".parse::<Category>() else {
        panic!("expected error for unknown category");
    };
    assert!(message.contains("nonsense"));
}

#[test]
fn category_from_str_ignores_ascii_case_and_names_the_input() {
    assert_eq!("SCHEMA".parse::<Category>(), Ok(Category::Schema));
    assert_eq!("WorkFlow".parse::<Category>(), Ok(Category::Workflow));
    assert_eq!(
        "Bogus".parse::<Category>(),
        Err("unknown category 'bogus'; expected one of: schema, template, workflow, adapter, grammar"
            .to_string())
    );
}

/// A stand-in for the canonical fixture tree (relative paths and contents),
/// listed out of order as a directory walk may give it.
fn sample_corpus() -> Vec<(String, Vec<u8>)> {
    let mut corpus = Vec::new();
    for category in ["workflows", "schemas", "templates", "grammar", "adapters"] {
        for (i, kind) in ["valid", "invalid"].iter().enumerate() {
            for n in [3, 1, 2] {
                let ext = if category == "schemas" { "json" } else { "txt" };
                let path = format!("{kind}/{category}/case-{n}.{ext}");
                corpus.push((path, format!("{{\"case\": {n}, \"valid\": {}}}", i == 0).into_bytes()));
            }
        }
    }
    corpus
}

#[test]
fn embedded_fixtures_blob_round_trips_canonical_corpus() {
    let blob = embedded_fixtures(sample_corpus());
    let entries = parse_fixture_blob(&blob).expect("parse embedded_fixtures blob");
    assert!(
        entries.len() >= 25,
        "fewer than 25 fixtures embedded ({}) — corpus regression?",
        entries.len()
    );
    for pair in entries.windows(2) {
        assert!(pair[0].0 < pair[1].0, "entries not sorted");
    }
    let some_schema = entries
        .iter()
        .find(|(p, _)| p.starts_with("valid/schemas/") && p.ends_with(".json"));
    assert!(some_schema.is_some(), "no valid/schemas/*.json fixture in embedded corpus");
    assert!(!some_schema.unwrap().1.is_empty());
}

#[test]
fn embedded_fixtures_blob_starts_with_magic_and_version() {
    let blob = embedded_fixtures(sample_corpus());
    assert!(
        blob.len() >= 12,
        "blob too short: {} bytes (need at least 12 for header)",
        blob.len()
    );
    assert_eq!(blob[0..4], EMBEDDED_FIXTURES_MAGIC, "magic mismatch — expected RVF\\0");
    let version = u32::from_le_bytes(blob[4..8].try_into().unwrap());
    assert_eq!(version, EMBEDDED_FIXTURES_FORMAT_VERSION);
}

#[test]
fn fixture_blob_round_trips_entries_in_order() {
    let entries = vec![
        ("invalid/grammar/bad.seq".to_string(), b"P-1\n".to_vec()),
        ("valid/schemas/plan.json".to_string(), b"{}".to_vec()),
        ("valid/templates/\u{e9}t\u{e9}.md".to_string(), Vec::new()),
    ];
    let blob = fixture_blob(&entries);
    assert_eq!(&blob[0..4], b"RVF\0");
    assert_eq!(&blob[8..12], &3u32.to_le_bytes());
    let back = parse_fixture_blob(&blob).expect("round trip");
    assert_eq!(back, entries);
}

#[test]
fn fixture_blob_layout_is_exact() {
    let entries = vec![("a".to_string(), vec![7u8, 8u8])];
    let blob = fixture_blob(&entries);
    let mut expected: Vec<u8> = b"RVF\0".to_vec();
    expected.extend_from_slice(&1u32.to_le_bytes());
    expected.extend_from_slice(&1u32.to_le_bytes());
    expected.extend_from_slice(&1u32.to_le_bytes());
    expected.push(b'a');
    expected.extend_from_slice(&2u64.to_le_bytes());
    expected.extend_from_slice(&[7, 8]);
    assert_eq!(blob, expected);
}

#[test]
fn parse_fixture_blob_reports_each_problem() {
    assert_eq!(parse_fixture_blob(b"RVF\0"), Err("blob too short: 4".to_string()));
    let mut bad_magic = fixture_blob(&Vec::new());
    bad_magic[0] = b'X';
    assert_eq!(parse_fixture_blob(&bad_magic), Err("magic mismatch".to_string()));
    let mut bad_version = fixture_blob(&Vec::new());
    bad_version[4] = 9;
    assert_eq!(parse_fixture_blob(&bad_version), Err("unknown version 9".to_string()));
    let mut trailing = fixture_blob(&Vec::new());
    trailing.extend_from_slice(&[1, 2, 3]);
    assert_eq!(
        parse_fixture_blob(&trailing),
        Err("blob has 3 trailing bytes after entries".to_string())
    );
    let mut truncated = fixture_blob(&vec![("p".to_string(), vec![1, 2, 3])]);
    truncated.truncate(truncated.len() - 1);
    assert_eq!(parse_fixture_blob(&truncated), Err("truncated content bytes".to_string()));
    let mut short_count = fixture_blob(&Vec::new());
    short_count[8] = 1;
    assert_eq!(parse_fixture_blob(&short_count), Err("truncated path_len".to_string()));
    let mut bad_path = fixture_blob(&vec![("p".to_string(), Vec::new())]);
    bad_path[16] = 0xff;
    let err = parse_fixture_blob(&bad_path).unwrap_err();
    assert!(err.starts_with("path utf-8: "), "got: {err}");
}

#[test]
fn exit_code_zero_when_all_pass() {
    assert_eq!(report_exit_code(&base_report()), 0);
}

#[test]
fn exit_code_matches_single_category_failure() {
    let cases: [(Category, u8); 5] = [
        (Category::Schema, 1),
        (Category::Template, 2),
        (Category::Workflow, 3),
        (Category::Adapter, 4),
        (Category::Grammar, 5),
    ];
    for (cat, expected) in cases {
        let mut report = base_report();
        report.categories = vec![failing_category(cat)];
        report.overall_passed = false;
        assert_eq!(report_exit_code(&report), expected, "category {}", cat.as_str());
        assert_eq!(category_exit_code(cat), expected);
    }
}

#[test]
fn exit_code_six_for_multi_category_failure() {
    let mut report = base_report();
    report.categories = vec![
        failing_category(Category::Schema),
        failing_category(Category::Grammar),
    ];
    report.overall_passed = false;
    assert_eq!(report_exit_code(&report), 6);
}

#[test]
fn error_exit_code_maps_io_to_eleven() {
    let err = Error::Io {
        path: "/x".to_string(),
        source: std::io::Error::new(std::io::ErrorKind::NotFound, "not found"),
    };
    assert_eq!(error_exit_raw(&err), 11);
}

#[test]
fn error_exit_code_maps_internal_to_twelve() {
    let err = Error::Internal("boom".to_string());
    assert_eq!(error_exit_raw(&err), 12);
}

#[test]
fn error_exit_code_maps_fixture_parse_to_twelve() {
    let err = Error::FixtureParse {
        fixture: "x".to_string(),
        message: "y".to_string(),
    };
    assert_eq!(error_exit_raw(&err), 12);
}

#[test]
fn render_text_includes_pass_marker_when_passing() {
    let out = render_text(&base_report());
    assert!(out.contains("RESULT: PASS"));
    assert!(out.contains("RWP "));
}

#[test]
fn render_text_includes_fail_marker_when_failing() {
    let mut report = base_report();
    report.categories = vec![failing_category(Category::Schema)];
    report.overall_passed = false;
    let out = render_text(&report);
    assert!(out.contains("RESULT: FAIL"));
    assert!(out.contains("synthetic failure"));
}

#[test]
fn render_text_exact_layout() {
    let mut report = base_report();
    let mut cat = failing_category(Category::Grammar);
    cat.passed = 12;
    cat.duration_ms = 345;
    cat.failures[0].details = Some("line 1\r\nline 2\n".to_string());
    report.categories = vec![cat];
    report.overall_passed = false;
    report.total_duration_ms = 7;
    let expected = [
        "rhumb-validate 0.1.0 (RWP 0.26.0)\n",
        "target: /tmp/x\n",
        "started: 1970-01-01T00:00:00Z    completed: 1970-01-01T00:00:00Z    duration: 7 ms\n",
        "\n",
        "Category    Passed  Failed  Skipped  Duration(ms)\n",
        "--------    ------  ------  -------  ------------\n",
        "grammar         12       1        0           345\n",
        "\n",
        "Failures:\n",
        "  [grammar] synthetic \u{2014} synthetic failure\n",
        "      line 1\n",
        "      line 2\n",
        "\n",
        "RESULT: FAIL\n",
    ]
    .concat();
    assert_eq!(render_text(&report), expected);
}

#[test]
fn render_text_placeholder_when_no_categories() {
    let out = render_text(&base_report());
    assert!(out.contains("(no categories executed \u{2014} placeholder run)\n"));
}

#[test]
fn assembled_report_passes_exactly_when_nothing_failed() {
    let passing = CategoryResult::empty(Category::Schema);
    let report = assemble_report(
        "1.2.3".to_string(),
        "a".to_string(),
        "b".to_string(),
        "/t".to_string(),
        vec![passing.clone()],
        5,
    );
    assert!(report.overall_passed);
    assert_eq!(report.rwp_version, RWP_VERSION);
    assert_eq!(report_exit_code(&report), 0);
    let report = assemble_report(
        "1.2.3".to_string(),
        "a".to_string(),
        "b".to_string(),
        "/t".to_string(),
        vec![passing, failing_category(Category::Adapter)],
        5,
    );
    assert!(!report.overall_passed);
    assert_eq!(report_exit_code(&report), 4);
}

#[test]
fn dispatch_has_all_five_categories_in_p06() {
    assert!(validator(Category::Schema).is_some());
    assert!(validator(Category::Template).is_some());
    assert!(validator(Category::Workflow).is_some());
    assert!(validator(Category::Adapter).is_some());
    assert!(validator(Category::Grammar).is_some());
}

#[test]
fn dispatch_table_has_no_duplicate_categories() {
    let mut seen = std::collections::HashSet::new();
    for (cat, _) in DISPATCH {
        assert!(seen.insert(cat), "duplicate category in DISPATCH: {cat:?}");
    }
    assert_eq!(seen.len(), Category::ALL.len());
}

#[test]
fn dispatch_maps_each_category_to_its_validator() {
    assert_eq!(validator(Category::Schema), Some(Validator::Schema));
    assert_eq!(validator(Category::Template), Some(Validator::Template));
    assert_eq!(validator(Category::Workflow), Some(Validator::Workflow));
    assert_eq!(validator(Category::Adapter), Some(Validator::Adapter));
    assert_eq!(validator(Category::Grammar), Some(Validator::Grammar));
}

#[test]
fn empty_category_result_counts_nothing() {
    let r = CategoryResult::empty(Category::Workflow);
    assert_eq!(r.category, Category::Workflow);
    assert_eq!((r.passed, r.failed, r.skipped, r.duration_ms), (0, 0, 0, 0));
    assert!(r.failures.is_empty());
}

#[test]
fn record_item_counts_a_fixture_once() {
    let mut r = CategoryResult::empty(Category::Adapter);
    r.record_item(Vec::new());
    let f = failing_category(Category::Adapter).failures.remove(0);
    r.record_item(vec![f.clone(), f.clone(), f]);
    assert_eq!(r.passed, 1);
    assert_eq!(r.failed, 1);
    assert_eq!(r.failures.len(), 3);
}

fn ts(year: i32, month: u8, day: u8, hms: (u8, u8, u8), nanosecond: u32, offset: (i8, i8, i8)) -> Timestamp {
    Timestamp {
        year,
        month,
        day,
        hour: hms.0,
        minute: hms.1,
        second: hms.2,
        nanosecond,
        offset_hours: offset.0,
        offset_minutes: offset.1,
        offset_seconds: offset.2,
    }
}

#[test]
fn format_iso8601_renders_rfc3339_utc() {
    assert_eq!(format_iso8601(ts(1970, 1, 1, (0, 0, 0), 0, (0, 0, 0))), "1970-01-01T00:00:00Z");
    assert_eq!(format_iso8601(ts(2023, 11, 14, (22, 13, 20), 0, (0, 0, 0))), "2023-11-14T22:13:20Z");
}

#[test]
fn format_iso8601_fraction_and_offset() {
    assert_eq!(
        format_iso8601(ts(2024, 2, 29, (9, 5, 7), 120_000_000, (-5, -30, 0))),
        "2024-02-29T09:05:07.12-05:30"
    );
    assert_eq!(format_iso8601(ts(812, 3, 4, (1, 2, 3), 1, (2, 0, 0))), "0812-03-04T01:02:03.000000001+02:00");
}

#[test]
fn format_iso8601_falls_back_without_rfc3339_form() {
    assert_eq!(format_iso8601(ts(-44, 3, 15, (12, 0, 0), 0, (0, 0, 0))), "0001-01-01T00:00:00Z");
    assert_eq!(format_iso8601(ts(2000, 1, 1, (0, 0, 0), 0, (1, 0, 30))), "0001-01-01T00:00:00Z");
    assert!(ts(2000, 1, 1, (0, 0, 0), 0, (1, 0, 30)).is_valid());
    assert!(!ts(2023, 2, 29, (0, 0, 0), 0, (0, 0, 0)).is_valid());
    assert!(!ts(2000, 1, 1, (0, 0, 0), 0, (1, -1, 0)).is_valid());
}

#[test]
fn selected_categories_default_to_all_in_order() {
    assert_eq!(selected_categories(&[]), Category::ALL.to_vec());
    assert_eq!(
        selected_categories(&[Category::Adapter, Category::Grammar]),
        vec![Category::Adapter, Category::Grammar]
    );
}
