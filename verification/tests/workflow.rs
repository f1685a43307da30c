use rhumb_validate::validators::walk::Node;
use rhumb_validate::validators::workflow::{
    collect_phase_ids, discover_workflow_roots, extract_frontmatter, first_yaml_document, referenced_files, run,
    validate_workflow, Execution, HandoffFile, Handoffs, PhaseEntry, PlanFront, PlanFrontmatter, StateYaml,
    WorkflowRead,
};
use rhumb_validate::{Category, CategoryResult, FailureKind};

type TestResult = Result<(), Box<dyn std::error::Error>>;

fn s(x: &str) -> Option<String> {
    Some(x.to_string())
}

fn plan(id: &str, phase: &str) -> PlanFront {
    PlanFront::Parsed(PlanFrontmatter { plan_id: s(id), current_phase: s(phase) })
}

fn phases(ids: &[&str]) -> Option<Vec<(String, PhaseEntry)>> {
    Some(ids.iter().map(|i| (i.to_string(), PhaseEntry { sub_phases: None })).collect())
}

fn state(id: &str, phase: &str, ids: &[&str], handoffs: Option<Handoffs>) -> StateYaml {
    StateYaml {
        plan_id: s(id),
        execution: Some(Execution { current_phase: s(phase) }),
        phases: phases(ids),
        handoffs,
    }
}

fn check(root: &str, read: WorkflowRead) -> CategoryResult {
    let mut r = CategoryResult::empty(Category::Workflow);
    validate_workflow(root, &read, &mut r);
    r
}

fn workflow_dir(entries: Vec<(&str, Node)>, is_root: bool) -> Node {
    let markers = if is_root { vec!["PLAN.md".to_string(), "state.yaml".to_string()] } else { Vec::new() };
    Node::Dir {
        markers,
        listing: Ok(entries.into_iter().map(|(n, node)| Ok((n.to_string(), true, node))).collect()),
    }
}

#[test]
fn extract_frontmatter_strips_bom() {
    let with_bom = "\u{feff}---\nplan_id: X\n---\nbody\n";
    assert_eq!(extract_frontmatter(with_bom), Some("plan_id: X"));
}

#[test]
fn extract_frontmatter_handles_lf() {
    let lf = "---\nplan_id: X\ncurrent_phase: P-01\n---\nbody\n";
    assert_eq!(extract_frontmatter(lf), Some("plan_id: X\ncurrent_phase: P-01"));
}

#[test]
fn extract_frontmatter_handles_crlf() {
    let crlf = "---\r\nplan_id: X\r\ncurrent_phase: P-01\r\n---\r\nbody\r\n";
    assert_eq!(extract_frontmatter(crlf), Some("plan_id: X\r\ncurrent_phase: P-01"));
}

#[test]
fn extract_frontmatter_returns_none_when_missing() {
    assert_eq!(extract_frontmatter("no frontmatter here\n"), None);
    assert_eq!(extract_frontmatter("---\nopen but never closed\n"), None);
}

#[test]
fn extract_frontmatter_handles_leading_heading() -> TestResult {
    let canonical = "# Rhumb Workflow Protocol: Plan Document\n\n---\n\nplan_id: RWP-0042\ncurrent_phase: P-02\n\n---\n\n# RWP-0042: Body\n";
    let fm = extract_frontmatter(canonical).ok_or("expected frontmatter")?;
    assert_eq!(fm, "\nplan_id: RWP-0042\ncurrent_phase: P-02\n");
    let parsed: serde_yml::Value = serde_yml::from_str(fm)?;
    assert_eq!(parsed.get("plan_id").and_then(|v| v.as_str()), Some("RWP-0042"));
    assert_eq!(parsed.get("current_phase").and_then(|v| v.as_str()), Some("P-02"));
    Ok(())
}

#[test]
fn first_yaml_document_returns_full_text_when_single_doc() {
    let single = "plan_id: A\nexecution:\n  current_phase: P-01\n";
    assert_eq!(first_yaml_document(single), single);
}

#[test]
fn first_yaml_document_strips_trailer_after_dashes() {
    let multi = "plan_id: A\npercentage_complete: 100\n---\nProduced: 2026-03-01\nBy: contrib\n";
    let first = first_yaml_document(multi);
    assert_eq!(first, "plan_id: A\npercentage_complete: 100");
}

#[test]
fn first_yaml_document_preserves_leading_start_of_stream() {
    let with_open = "---\nplan_id: A\n---\nProduced: foo\n";
    let first = first_yaml_document(with_open);
    assert_eq!(first, "---\nplan_id: A");
}

#[test]
fn collect_phase_ids_flattens_sub_phases() {
    let top = vec![
        ("P-01".to_string(), PhaseEntry { sub_phases: None }),
        (
            "P-02".to_string(),
            PhaseEntry {
                sub_phases: Some(vec![
                    ("P-02-A".to_string(), PhaseEntry { sub_phases: None }),
                    ("P-02-B".to_string(), PhaseEntry { sub_phases: None }),
                ]),
            },
        ),
    ];
    let mut out = Vec::new();
    collect_phase_ids(&top, &mut out);
    assert!(out.contains(&"P-01".to_string()));
    assert!(out.contains(&"P-02".to_string()));
    assert!(out.contains(&"P-02-A".to_string()));
    assert!(out.contains(&"P-02-B".to_string()));
    assert_eq!(out.len(), 4);
}

#[test]
fn collect_phase_ids_keeps_each_id_once() {
    let top = vec![
        ("P-01".to_string(), PhaseEntry { sub_phases: Some(vec![("P-01".to_string(), PhaseEntry { sub_phases: None })]) }),
    ];
    let mut out = vec!["P-01".to_string()];
    collect_phase_ids(&top, &mut out);
    assert_eq!(out, vec!["P-01".to_string()]);
}

#[test]
fn discover_workflow_roots_stops_at_root() {
    let tree = workflow_dir(
        vec![
            (
                "workflow-a",
                workflow_dir(
                    vec![
                        ("PLAN.md", Node::File),
                        ("state.yaml", Node::File),
                        ("handoffs", workflow_dir(vec![("PLAN.md", Node::File), ("state.yaml", Node::File)], true)),
                    ],
                    true,
                ),
            ),
            (
                "nested",
                workflow_dir(
                    vec![("workflow-b", workflow_dir(vec![("PLAN.md", Node::File), ("state.yaml", Node::File)], true))],
                    false,
                ),
            ),
        ],
        false,
    );
    let roots = discover_workflow_roots("/tmp/w", &tree).expect("walks");
    assert_eq!(roots, vec!["/tmp/w/nested/workflow-b".to_string(), "/tmp/w/workflow-a".to_string()]);
}

#[test]
fn discover_workflow_roots_skips_hidden_dirs() {
    let hidden = workflow_dir(vec![("PLAN.md", Node::File), ("state.yaml", Node::File)], true);
    let tree = workflow_dir(vec![(".git", workflow_dir(vec![("workflow-x", hidden)], false))], false);
    let roots = discover_workflow_roots("/tmp/w", &tree).expect("walks");
    assert!(roots.is_empty(), "hidden dir should not be scanned");
}

#[test]
fn run_handles_missing_target_gracefully() {
    let mut r = CategoryResult::empty(Category::Workflow);
    let listing = discover_workflow_roots("/does/not/exist", &Node::Missing)
        .map(|v| v.into_iter().map(|root| (root, WorkflowRead::PlanUnreadable(String::new()))).collect());
    run("/does/not/exist", listing, &mut r);
    assert_eq!((r.passed, r.failed), (0, 0));
    assert!(r.failures.is_empty());
}

#[test]
fn consistent_workflow_passes() {
    let st = state("XX", "P-01", &["P-01"], None);
    let r = check("/w", WorkflowRead::Read { plan: plan("XX", "P-01"), state: Ok(st), present: Vec::new() });
    assert_eq!((r.passed, r.failed), (1, 0));
}

#[test]
fn invariant_1_plan_id_mismatch_emits_break() {
    let st = state("BBB", "P-01", &["P-01"], None);
    let r = check("/w", WorkflowRead::Read { plan: plan("AAA", "P-01"), state: Ok(st), present: Vec::new() });
    assert_eq!((r.passed, r.failed), (0, 1));
    assert_eq!(r.failures.len(), 1);
    assert_eq!(r.failures[0].message, "INV-1 plan_id mismatch between PLAN.md and state.yaml");
    assert_eq!(r.failures[0].details.as_deref(), Some("plan_md_plan_id=AAA state_yaml_plan_id=BBB"));
}

#[test]
fn invariant_2_current_phase_mismatch_emits_break() {
    let st = state("XX", "P-99", &["P-02", "P-99"], None);
    let r = check("/w", WorkflowRead::Read { plan: plan("XX", "P-02"), state: Ok(st), present: Vec::new() });
    assert_eq!((r.passed, r.failed), (0, 1));
    assert!(r.failures.iter().any(|f| f.message.starts_with("INV-2")));
}

#[test]
fn invariant_3_and_4_missing_handoff_files_emit_breaks() {
    let handoffs = Handoffs {
        last_handoff: s("handoffs/last.md"),
        handoff_files: Some(vec![
            HandoffFile { file: s("handoffs/missing.md"), phase: s("P-01") },
            HandoffFile { file: s("/abs/here.md"), phase: None },
        ]),
    };
    let st = state("ZZ", "P-01", &["P-01"], Some(handoffs));
    let refs = referenced_files("/w", &Ok(state("ZZ", "P-01", &["P-01"], Some(Handoffs {
        last_handoff: s("handoffs/last.md"),
        handoff_files: Some(vec![
            HandoffFile { file: s("handoffs/missing.md"), phase: s("P-01") },
            HandoffFile { file: s("/abs/here.md"), phase: None },
        ]),
    }))));
    assert_eq!(refs, vec!["/w/handoffs/last.md".to_string(), "/w/handoffs/missing.md".to_string(), "/abs/here.md".to_string()]);
    let r = check("/w", WorkflowRead::Read { plan: plan("ZZ", "P-01"), state: Ok(st), present: vec![false, false, true] });
    assert_eq!((r.passed, r.failed), (0, 1));
    assert_eq!(r.failures.len(), 2);
    assert!(r.failures[0].message.starts_with("INV-3"));
    assert_eq!(r.failures[0].details.as_deref(), Some("last_handoff=handoffs/last.md resolved_path=/w/handoffs/last.md"));
    assert!(r.failures[1].message.starts_with("INV-4"));
    assert_eq!(r.failures[1].details.as_deref(), Some("file=handoffs/missing.md resolved_path=/w/handoffs/missing.md"));
}

#[test]
fn invariant_4_missing_handoff_file_emits_break() {
    let handoffs = Handoffs {
        last_handoff: None,
        handoff_files: Some(vec![HandoffFile { file: s("handoffs/missing.md"), phase: s("P-01") }]),
    };
    let st = state("ZZ", "P-01", &["P-01"], Some(handoffs));
    let r = check("/w", WorkflowRead::Read { plan: plan("ZZ", "P-01"), state: Ok(st), present: vec![false] });
    assert_eq!((r.passed, r.failed), (0, 1));
    assert!(r.failures.iter().any(|f| f.message.starts_with("INV-4")));
}

#[test]
fn invariant_5_unknown_handoff_phase_emits_break() {
    let handoffs = Handoffs {
        last_handoff: None,
        handoff_files: Some(vec![HandoffFile { file: s("handoffs/HO-WW-P-01.md"), phase: s("P-99") }]),
    };
    let st = state("WW", "P-01", &["P-01"], Some(handoffs));
    let r = check("/w", WorkflowRead::Read { plan: plan("WW", "P-01"), state: Ok(st), present: vec![true] });
    assert_eq!((r.passed, r.failed), (0, 1));
    assert_eq!(r.failures.len(), 1);
    assert!(r.failures[0].message.starts_with("INV-5"));
    assert_eq!(r.failures[0].details.as_deref(), Some("phase=P-99"));
}

#[test]
fn workflow_with_invalid_state_yaml_emits_workflow_break() {
    let r = check(
        "/w",
        WorkflowRead::Read {
            plan: PlanFront::Parsed(PlanFrontmatter { plan_id: s("Q"), current_phase: None }),
            state: Err("mapping values are not allowed here".to_string()),
            present: Vec::new(),
        },
    );
    assert_eq!((r.passed, r.failed), (0, 1));
    assert!(r.failures.iter().all(|f| f.kind == FailureKind::WorkflowBreak));
    assert_eq!(r.failures[0].message, "state.yaml is not valid YAML");
    assert_eq!(r.failures[1].message, "INV-1 state.yaml is missing top-level plan_id");
    assert_eq!(r.failures.len(), 2);
}

#[test]
fn missing_frontmatter_and_blank_state_report_both() {
    let blank = StateYaml { plan_id: None, execution: None, phases: None, handoffs: None };
    let r = check("/w", WorkflowRead::Read { plan: PlanFront::Missing, state: Ok(blank), present: Vec::new() });
    assert_eq!(r.failed, 1);
    let msgs: Vec<&str> = r.failures.iter().map(|f| f.message.as_str()).collect();
    assert_eq!(
        msgs,
        vec![
            "PLAN.md is missing the YAML frontmatter block (expected '---' delimited block at top of file)",
            "INV-1 plan_id is missing from BOTH PLAN.md frontmatter and state.yaml",
        ]
    );
}

#[test]
fn unreadable_plan_is_an_io_failure() {
    let r = check("/w", WorkflowRead::PlanUnreadable("No such file".to_string()));
    assert_eq!((r.passed, r.failed), (0, 1));
    assert_eq!(r.failures[0].kind, FailureKind::Io);
    assert_eq!(r.failures[0].message, "read failed: /w/PLAN.md");
    assert_eq!(r.failures[0].details.as_deref(), Some("No such file"));
    let r = check("/w", WorkflowRead::StateUnreadable("denied".to_string()));
    assert_eq!(r.failures[0].message, "read failed: /w/state.yaml");
}

#[test]
fn run_counts_each_workflow_once() {
    let good = state("A", "P-01", &["P-01"], None);
    let bad = state("B", "P-02", &["P-01"], None);
    let reads = vec![
        ("/w/a".to_string(), WorkflowRead::Read { plan: plan("A", "P-01"), state: Ok(good), present: Vec::new() }),
        ("/w/b".to_string(), WorkflowRead::Read { plan: plan("X", "P-01"), state: Ok(bad), present: Vec::new() }),
    ];
    let mut r = CategoryResult::empty(Category::Workflow);
    run("/w", Ok(reads), &mut r);
    assert_eq!((r.passed, r.failed), (1, 1));
    assert_eq!(r.failures.len(), 2);
}

#[test]
fn first_yaml_document_ignores_leading_bom() {
    assert_eq!(first_yaml_document("\u{feff}a: 1\n---\nb: 2\n"), "a: 1");
    assert_eq!(first_yaml_document("\u{feff}a: 1\r\n---\r\nb: 2\r\n"), "a: 1");
}
