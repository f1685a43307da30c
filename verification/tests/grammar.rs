use rhumb_validate::validators::grammar::{
    discover_seq_files, format_position_pointer, parse_seq_text, run, tokenize, validate_seq_file, TokenKind,
};
use rhumb_validate::validators::walk::Node;
use rhumb_validate::{Category, CategoryResult, FailureKind, Source};

fn dir(entries: Vec<(&str, Node)>) -> Node {
    Node::Dir {
        markers: Vec::new(),
        listing: Ok(entries.into_iter().map(|(n, node)| Ok((n.to_string(), true, node))).collect()),
    }
}

/// Runs the grammar validator over a snapshot whose files all read as `text_of`.
fn run_snapshot(target: &str, root: &Node, text_of: &dyn Fn(&str) -> String) -> CategoryResult {
    let mut result = CategoryResult::empty(Category::Grammar);
    let listing = discover_seq_files(target, root).map(|paths| {
        paths
            .into_iter()
            .map(|p| {
                let contents = Ok(text_of(&p));
                Source { path: p, contents }
            })
            .collect()
    });
    run(target, listing, &mut result);
    result
}

#[test]
fn parse_accepts_single_phase() {
    assert!(parse_seq_text("P-01").is_ok());
}

#[test]
fn parse_accepts_sub_phase() {
    assert!(parse_seq_text("P-01-A").is_ok());
    assert!(parse_seq_text("P-99-Z").is_ok());
}

#[test]
fn parse_accepts_or_chain() {
    assert!(parse_seq_text("P-01, P-02, P-03").is_ok());
}

#[test]
fn parse_accepts_and_chain() {
    assert!(parse_seq_text("P-01 + P-02 + P-03").is_ok());
}

#[test]
fn parse_accepts_mixed_with_grouping() {
    assert!(parse_seq_text("P-01, (P-02 + P-03), P-04").is_ok());
    assert!(parse_seq_text("[P-01-A, P-01-B, P-01-C]").is_ok());
    assert!(parse_seq_text("P-01 + [P-02-A, P-02-B]").is_ok());
}

#[test]
fn parse_accepts_whitespace_and_comments() {
    let text = "; comment line\n\nP-01,\n  P-02\n; trailing\n";
    assert!(parse_seq_text(text).is_ok());
}

#[test]
fn parse_rejects_single_digit_phase() {
    let err = parse_seq_text("P-1").expect_err("must reject P-1");
    assert!(err.message.contains("GRM-2"), "got: {}", err.message);
}

#[test]
fn parse_rejects_triple_digit_phase() {
    let err = parse_seq_text("P-100").expect_err("must reject P-100");
    assert!(err.message.contains("GRM-2"), "got: {}", err.message);
}

#[test]
fn parse_rejects_lowercase_prefix() {
    let err = parse_seq_text("p-01").expect_err("must reject p-01");
    assert!(err.message.contains("GRM-1"), "got: {}", err.message);
}

#[test]
fn parse_rejects_lowercase_sub_phase() {
    let err = parse_seq_text("P-01-a").expect_err("must reject lowercase sub-phase");
    assert!(err.message.contains("GRM-2"), "got: {}", err.message);
}

#[test]
fn parse_rejects_dangling_comma() {
    let err = parse_seq_text("P-01,").expect_err("must reject trailing comma");
    assert!(err.message.contains("GRM-3"), "got: {}", err.message);
}

#[test]
fn parse_rejects_dangling_plus() {
    let err = parse_seq_text("P-01 +").expect_err("must reject trailing +");
    assert!(err.message.contains("GRM-3"), "got: {}", err.message);
}

#[test]
fn parse_rejects_unbalanced_paren() {
    let err = parse_seq_text("(P-01, P-02").expect_err("must reject unbalanced (");
    assert!(err.message.contains("GRM-3"), "got: {}", err.message);
}

#[test]
fn parse_rejects_unbalanced_bracket() {
    let err = parse_seq_text("[P-01, P-02").expect_err("must reject unbalanced [");
    assert!(err.message.contains("GRM-3"), "got: {}", err.message);
}

#[test]
fn parse_rejects_missing_separator() {
    let err = parse_seq_text("P-01 P-02").expect_err("must reject space-only separator");
    assert!(err.message.contains("GRM-3"), "got: {}", err.message);
}

#[test]
fn parse_rejects_empty_sequence() {
    let err = parse_seq_text("").expect_err("must reject empty");
    assert!(err.message.contains("GRM-4"), "got: {}", err.message);
}

#[test]
fn parse_rejects_only_comments_and_whitespace() {
    let err = parse_seq_text("; just a comment\n\n; another\n").expect_err("must reject all-comments");
    assert!(err.message.contains("GRM-4"), "got: {}", err.message);
}

#[test]
fn parse_rejects_invalid_char() {
    let err = parse_seq_text("P-01 & P-02").expect_err("must reject &");
    assert!(err.message.contains("GRM-1"), "got: {}", err.message);
}

#[test]
fn parse_rejects_extra_sub_phase_letters() {
    let err = parse_seq_text("P-01-AB").expect_err("must reject multi-letter sub-phase");
    assert!(err.message.contains("GRM-2"), "got: {}", err.message);
}

#[test]
fn grammar_run_returns_empty_on_nonexistent_target() {
    let r = run_snapshot(
        "/this/path/should/not/exist/rhumb-validate-grammar-empty",
        &Node::Missing,
        &|_| String::new(),
    );
    assert_eq!(r.passed, 0);
    assert_eq!(r.failed, 0);
    assert_eq!(r.skipped, 0);
    assert!(r.failures.is_empty());
}

#[test]
fn grammar_run_silently_skips_non_seq_files() {
    let tree = dir(vec![("README.md", Node::File), ("data.json", Node::File), ("notes.txt", Node::File)]);
    let r = run_snapshot("/t", &tree, &|_| "P-01\n".to_string());
    assert_eq!((r.passed, r.failed), (0, 0));
    assert!(r.failures.is_empty());
}

#[test]
fn grammar_run_counts_each_file_and_recurses() {
    let tree = dir(vec![
        ("bad-1.seq", Node::File),
        ("good-1.seq", Node::File),
        ("sub", dir(vec![("good-2.seq", Node::File), ("bad-2.seq", Node::File)])),
    ]);
    let r = run_snapshot("/t", &tree, &|p: &str| {
        if p.contains("bad-1") {
            "P-1\n".to_string()
        } else if p.contains("bad-2") {
            "P-01,\n".to_string()
        } else {
            "P-01 + P-02\n".to_string()
        }
    });
    assert_eq!(r.passed, 2);
    assert_eq!(r.failed, 2);
    assert!(r.failures.iter().all(|f| f.kind == FailureKind::GrammarViolation));
    assert_eq!(r.failures[0].fixture, "/t/bad-1.seq");
    assert_eq!(r.failures[1].fixture, "/t/sub/bad-2.seq");
}

#[test]
fn grammar_failure_message_and_pointer_are_exact() {
    let err = parse_seq_text("P-01 & P-02").unwrap_err();
    assert_eq!(err.message, "GRM-1 invalid character '&' at position 5");
    assert_eq!(err.details.as_deref(), Some("line 1, column 6:\nP-01 & P-02\n     ^"));
}

#[test]
fn format_position_pointer_points_into_later_lines() {
    assert_eq!(format_position_pointer("P-01,\nP-0x\n", 9), "line 2, column 4:\nP-0x\n   ^");
}

#[test]
fn tokenize_yields_phase_tokens() {
    let toks = tokenize("P-01-A, P-02").expect("lexes");
    assert_eq!(toks.len(), 3);
    assert!(matches!(toks[0].kind, TokenKind::PhaseId));
    assert_eq!((toks[0].position, toks[0].end), (0, 6));
}

#[test]
fn unreadable_seq_file_counts_as_io_failure() {
    let mut r = CategoryResult::empty(Category::Grammar);
    let f = Source { path: "/t/x.seq".to_string(), contents: Err("permission denied".to_string()) };
    validate_seq_file(&f, &mut r);
    assert_eq!(r.failed, 1);
    assert_eq!(r.failures[0].kind, FailureKind::Io);
    assert_eq!(r.failures[0].message, "read failed: /t/x.seq");
    assert_eq!(r.failures[0].details.as_deref(), Some("permission denied"));
}
