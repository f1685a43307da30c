use rhumb_validate::validators::template::{
    canonical_hashes, canonical_name_for, canonicalize, discover_template_files, hash_canonical, hex_lower, run,
    validate_one, TEMPLATE_NAMES,
};
use rhumb_validate::validators::walk::Node;
use rhumb_validate::{Category, CategoryResult, FailureKind, Source};

/// Stand-in canonical texts, one per template, in `TEMPLATE_NAMES` order.
fn sample_sources() -> [Vec<u8>; 17] {
    std::array::from_fn(|i| format!("# {}\n\nbody {i}\n", TEMPLATE_NAMES[i]).into_bytes())
}

fn dir(entries: Vec<(&str, Node)>) -> Node {
    Node::Dir {
        markers: Vec::new(),
        listing: Ok(entries.into_iter().map(|(n, node)| Ok((n.to_string(), true, node))).collect()),
    }
}

#[test]
fn embedded_template_count_is_seventeen() {
    assert_eq!(TEMPLATE_NAMES.len(), 17);
}

#[test]
fn embedded_template_names_are_unique() {
    let mut seen = std::collections::HashSet::new();
    for name in TEMPLATE_NAMES {
        assert!(seen.insert(name), "duplicate template name in TEMPLATE_NAMES: {name}");
    }
}

#[test]
fn canonical_hashes_populates_for_every_template() {
    let h = canonical_hashes(&sample_sources());
    assert_eq!(h.len(), TEMPLATE_NAMES.len());
    for name in TEMPLATE_NAMES {
        assert!(h.iter().any(|(n, _)| *n == name), "missing canonical hash for {name}");
    }
}

#[test]
fn canonicalize_strips_utf8_bom() {
    let with_bom = b"\xEF\xBB\xBFhello\n";
    let without = b"hello\n";
    assert_eq!(hash_canonical(with_bom), hash_canonical(without));
}

#[test]
fn canonicalize_normalizes_crlf_to_lf() {
    let crlf = b"line one\r\nline two\r\n";
    let lf = b"line one\nline two\n";
    assert_eq!(hash_canonical(crlf), hash_canonical(lf));
}

#[test]
fn canonicalize_normalizes_lone_cr_to_lf() {
    let cr = b"line one\rline two\r";
    let lf = b"line one\nline two\n";
    assert_eq!(hash_canonical(cr), hash_canonical(lf));
}

#[test]
fn canonicalize_collapses_trailing_newlines_to_one() {
    let many = b"hello\n\n\n\n";
    let one = b"hello\n";
    assert_eq!(hash_canonical(many), hash_canonical(one));
}

#[test]
fn canonicalize_appends_missing_trailing_newline() {
    let no_nl = b"hello";
    let one_nl = b"hello\n";
    assert_eq!(hash_canonical(no_nl), hash_canonical(one_nl));
}

#[test]
fn canonicalize_preserves_internal_whitespace_and_trailing_spaces() {
    let with = b"line  \nbody\n";
    let without = b"line\nbody\n";
    assert_ne!(hash_canonical(with), hash_canonical(without));
}

#[test]
fn canonical_name_for_matches_full_filename_only() {
    assert_eq!(canonical_name_for("PLAN.md.template"), Some("PLAN.md.template"));
    assert_eq!(canonical_name_for("/tmp/foo/ACS-TEMPLATE.md"), Some("ACS-TEMPLATE.md"));
    assert_eq!(canonical_name_for("PLAN.md"), None);
    assert_eq!(canonical_name_for("MY-PLAN.md.template"), None);
    assert_eq!(canonical_name_for("README.md"), None);
    assert_eq!(canonical_name_for("Cargo.toml"), None);
}

#[test]
fn canonicalize_exact_bytes() {
    assert_eq!(canonicalize(b"\xEF\xBB\xBFa\r\nb\rc\n\n\n"), b"a\nb\nc\n".to_vec());
    assert_eq!(canonicalize(b""), b"\n".to_vec());
    assert_eq!(canonicalize(b"\n\n"), b"\n".to_vec());
    let once = canonicalize(b"x\r\n\r\n");
    assert_eq!(canonicalize(&once), once);
}

#[test]
fn hash_canonical_is_sha256_of_canonical_form() {
    // SHA-256 of "hello\n".
    assert_eq!(
        hex_lower(&hash_canonical(b"hello")),
        "5891b5b522d5df086d0ff0b110fbd9d21bb4fc7163af34d08286a2e846f6be03"
    );
}

#[test]
fn template_run_flags_drift_and_passes_matches() {
    let sources = sample_sources();
    let table = canonical_hashes(&sources);
    let tree = dir(vec![
        ("PLAN.md.template", Node::File),
        ("README.md", Node::File),
        ("nested", dir(vec![("ACS-TEMPLATE.md", Node::File)])),
    ]);
    let files = discover_template_files("/t", &tree).expect("walks");
    assert_eq!(files.len(), 2);
    let plan = TEMPLATE_NAMES.iter().position(|n| *n == "PLAN.md.template").unwrap();
    let listing = Ok(files
        .into_iter()
        .map(|(p, name)| {
            let body = if name == "PLAN.md.template" {
                let mut b = sources[plan].clone();
                b.extend_from_slice(b"\r\n\r\n");
                b
            } else {
                b"drifted\n".to_vec()
            };
            (Source { path: p, contents: Ok(body) }, name)
        })
        .collect());
    let mut r = CategoryResult::empty(Category::Template);
    run("/t", listing, &table, &mut r);
    assert_eq!(r.passed, 1);
    assert_eq!(r.failed, 1);
    let f = &r.failures[0];
    assert_eq!(f.fixture, "/t/nested/ACS-TEMPLATE.md");
    assert_eq!(f.kind, FailureKind::TemplateRenderDiff);
    assert_eq!(f.message, "template 'ACS-TEMPLATE.md' has drifted from the canonical RWP version");
    assert!(f.details.as_deref().unwrap().starts_with("expected_sha256="));
}

#[test]
fn template_run_handles_missing_target_gracefully() {
    let table = canonical_hashes(&sample_sources());
    let listing = discover_template_files("/does/not/exist", &Node::Missing)
        .map(|v| v.into_iter().map(|(p, n)| (Source { path: p, contents: Ok(Vec::new()) }, n)).collect());
    let mut r = CategoryResult::empty(Category::Template);
    run("/does/not/exist", listing, &table, &mut r);
    assert_eq!((r.passed, r.failed), (0, 0));
    assert!(r.failures.is_empty());
}

#[test]
fn template_enumeration_failure_is_recorded_once() {
    let table = canonical_hashes(&sample_sources());
    let mut r = CategoryResult::empty(Category::Template);
    run("/t", Err("permission denied".to_string()), &table, &mut r);
    assert_eq!((r.passed, r.failed), (0, 1));
    assert_eq!(r.failures[0].message, "failed to enumerate target tree: permission denied");
    assert_eq!(r.failures[0].kind, FailureKind::Io);
}

#[test]
fn template_unknown_name_is_internal_failure() {
    let table = canonical_hashes(&sample_sources());
    let mut r = CategoryResult::empty(Category::Template);
    let f = Source { path: "/t/x".to_string(), contents: Ok(b"x".to_vec()) };
    validate_one(&f, "NOT-A-TEMPLATE", &table, &mut r);
    assert_eq!(r.failures[0].kind, FailureKind::Internal);
    assert_eq!(r.failures[0].message, "no embedded canonical hash for template 'NOT-A-TEMPLATE'");
}
