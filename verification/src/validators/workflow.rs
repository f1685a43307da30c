//! Workflow validator: cross-file consistency of a workflow tree (a
//! directory holding both `PLAN.md` and `state.yaml`).
//!
//! INV-1  PLAN.md frontmatter `plan_id` equals state.yaml `plan_id`.
//! INV-2  PLAN.md `current_phase` equals state.yaml `execution.current_phase`
//!        (both absent is accepted).
//! INV-3  state.yaml `handoffs.last_handoff`, when present, names a file.
//! INV-4  every `handoffs.handoff_files[].file` names a file.
//! INV-5  every `handoffs.handoff_files[].phase` is a phase id defined under
//!        `phases:` (sub-phases included).
//! Each workflow counts once, however many invariants it breaks.
use vstd::prelude::*;
use vstd::string::StrSliceExecFns;
use crate::text::{chars_of, owned, push_str};
use crate::{opt_view, Category, CategoryResult, Failure, FailureKind, FailureView};
use crate::{failure_views, tally_of, tally_item, tally_items, enumeration_failure};
use crate::validators::paths::{join, join_spec, resolve, resolve_spec, sort_paths, sorted_paths, str_views};
use crate::validators::walk::{walk, walk_spec, ClaimRule, Node};

verus! {

// ---------------------------------------------------------------------------
// Frontmatter and first-document slicing (on characters; all delimiters are
// ASCII, so character and byte positions pick the same text)
// ---------------------------------------------------------------------------

/// Index of the first '\n' at or after `k`, or the length.
pub open spec fn line_end_at(c: Seq<char>, k: int) -> int
    decreases c.len() - k,
{
    if k < 0 || k >= c.len() {
        c.len() as int
    } else if c[k] == '\n' {
        k
    } else {
        line_end_at(c, k + 1)
    }
}

/// A leading byte-order mark does not change what the frontmatter or the
/// first YAML document of a text is.
pub proof fn law_leading_bom_is_ignored(text: Seq<char>)
    requires
        !(text.len() > 0 && text[0] == '\u{feff}'),
    ensures
        frontmatter_spec(seq!['\u{feff}'] + text) == frontmatter_spec(text),
        first_document_spec(seq!['\u{feff}'] + text) == first_document_spec(text),
{
    assert((seq!['\u{feff}'] + text).skip(1) =~= text);
}

pub proof fn lemma_line_end_at(c: Seq<char>, k: int)
    requires
        0 <= k <= c.len(),
    ensures
        k <= line_end_at(c, k) <= c.len(),
        line_end_at(c, k) < c.len() ==> c[line_end_at(c, k)] == '\n',
    decreases c.len() - k,
{
    if k < c.len() && c[k] != '\n' {
        lemma_line_end_at(c, k + 1);
    }
}

/// Drops every trailing '\r'.
pub open spec fn trim_cr(s: Seq<char>) -> Seq<char>
    decreases s.len(),
{
    if s.len() > 0 && s.last() == '\r' {
        trim_cr(s.drop_last())
    } else {
        s
    }
}

/// The next line at or after `pos` that reads exactly `---` (trailing CRs
/// ignored): its start, and the index after its line feed.
pub open spec fn dashes_line_from(c: Seq<char>, pos: int) -> Option<(int, int)>
    decreases c.len() - pos,
{
    if pos < 0 || pos > c.len() {
        None
    } else {
        let le = line_end_at(c, pos);
        if trim_cr(c.subrange(pos, le)) == seq!['-', '-', '-'] {
            Some((pos, if le < c.len() { le + 1 } else { le }))
        } else if le >= c.len() {
            None
        } else {
            proof {
                lemma_line_end_at(c, pos);
            }
            dashes_line_from(c, le + 1)
        }
    }
}

pub open spec fn strip_feff(c: Seq<char>) -> Seq<char> {
    if c.len() > 0 && c[0] == '\u{feff}' {
        c.skip(1)
    } else {
        c
    }
}

/// `e` moved back over one line ending ("\n" or "\r\n"), not below `floor`.
pub open spec fn before_line_ending(c: Seq<char>, floor: int, e: int) -> int {
    if e > floor && c[e - 1] == '\n' {
        if e - 1 > floor && c[e - 2] == '\r' {
            e - 2
        } else {
            e - 1
        }
    } else {
        e
    }
}

/// The YAML between the first two `---` lines (a leading BOM is ignored).
pub open spec fn frontmatter_spec(text: Seq<char>) -> Option<Seq<char>> {
    let body = strip_feff(text);
    match dashes_line_from(body, 0) {
        None => None,
        Some((_, ys)) => match dashes_line_from(body, ys) {
            None => None,
            Some((ye, _)) => Some(body.subrange(ys, before_line_ending(body, ys, ye))),
        },
    }
}

/// The first document of a YAML stream: everything before the first `---`
/// separator line after an optional leading `---` line.
pub open spec fn first_document_spec(text: Seq<char>) -> Seq<char> {
    let body = strip_feff(text);
    let scan = if body.len() >= 4 && body.subrange(0, 4) == seq!['-', '-', '-', '\n'] {
        4
    } else if body.len() >= 5 && body.subrange(0, 5) == seq!['-', '-', '-', '\r', '\n'] {
        5
    } else {
        0
    };
    match dashes_line_from(body, scan) {
        None => body,
        Some((s, _)) => body.subrange(0, before_line_ending(body, 0, s)),
    }
}

proof fn lemma_dashes_line_from(c: Seq<char>, pos: int)
    ensures
        dashes_line_from(c, pos) matches Some((s, a)) ==> pos <= s <= a <= c.len(),
    decreases c.len() - pos,
{
    if 0 <= pos <= c.len() {
        lemma_line_end_at(c, pos);
        let le = line_end_at(c, pos);
        if !(trim_cr(c.subrange(pos, le)) == seq!['-', '-', '-']) && le < c.len() {
            lemma_dashes_line_from(c, le + 1);
        }
    }
}

fn is_dashes(c: &Vec<char>, from: usize, to: usize) -> (r: bool)
    requires
        from <= to <= c@.len(),
    ensures
        r == (trim_cr(c@.subrange(from as int, to as int)) == seq!['-', '-', '-']),
{
    let mut e = to;
    while e > from && c[e - 1] == '\r'
        invariant
            from <= e <= to <= c@.len(),
            trim_cr(c@.subrange(from as int, to as int)) == trim_cr(c@.subrange(from as int, e as int)),
        decreases e,
    {
        assert(c@.subrange(from as int, e as int).drop_last() =~= c@.subrange(from as int, e - 1));
        e = e - 1;
    }
    let ghost s = c@.subrange(from as int, e as int);
    assert(trim_cr(s) == s);
    if e - from == 3 && c[from] == '-' && c[from + 1] == '-' && c[from + 2] == '-' {
        assert(s =~= seq!['-', '-', '-']);
        true
    } else {
        assert(s != seq!['-', '-', '-']) by {
            if s.len() == 3 {
                assert(s[0] == c@[from as int] && s[1] == c@[from + 1] && s[2] == c@[from + 2]);
            }
        }
        false
    }
}

/// The next `---` line at or after `start` (see [`dashes_line_from`]).
fn next_dashes_line(c: &Vec<char>, start: usize) -> (r: Option<(usize, usize)>)
    ensures
        match dashes_line_from(c@, start as int) {
            Some((s, a)) => r == Some((s as usize, a as usize)),
            None => r is None,
        },
{
    if start > c.len() {
        return None;
    }
    let mut pos = start;
    loop
        invariant
            pos <= c@.len(),
            dashes_line_from(c@, start as int) == dashes_line_from(c@, pos as int),
        decreases c@.len() - pos,
    {
        let mut le = pos;
        while le < c.len() && c[le] != '\n'
            invariant
                pos <= le <= c@.len(),
                line_end_at(c@, pos as int) == line_end_at(c@, le as int),
            decreases c@.len() - le,
        {
            le = le + 1;
        }
        if is_dashes(c, pos, le) {
            let after = if le < c.len() { le + 1 } else { le };
            return Some((pos, after));
        }
        if le >= c.len() {
            return None;
        }
        pos = le + 1;
    }
}

/// The characters of `c` after a leading byte-order mark, and how many
/// characters were dropped.
fn strip_feff_chars(c: &Vec<char>) -> (r: (usize, Vec<char>))
    ensures
        r.0 <= c@.len(),
        r.1@ == strip_feff(c@),
        r.1@ == c@.skip(r.0 as int),
{
    let off: usize = if c.len() > 0 && c[0] == '\u{feff}' { 1 } else { 0 };
    let mut body: Vec<char> = Vec::new();
    let mut i = off;
    while i < c.len()
        invariant
            off <= i <= c@.len(),
            body@ == c@.subrange(off as int, i as int),
        decreases c@.len() - i,
    {
        body.push(c[i]);
        assert(body@ =~= c@.subrange(off as int, i + 1));
        i = i + 1;
    }
    assert(body@ =~= c@.skip(off as int));
    assert(c@.skip(0) =~= c@);
    (off, body)
}

/// `e` moved back over one line ending, not below `floor` (see
/// [`before_line_ending`]).
fn back_over_line_ending(body: &Vec<char>, floor: usize, e: usize) -> (r: usize)
    requires
        floor <= e <= body@.len(),
    ensures
        r == before_line_ending(body@, floor as int, e as int),
        floor <= r <= e,
{
    let mut end = e;
    if end > floor && body[end - 1] == '\n' {
        end = end - 1;
        if end > floor && body[end - 1] == '\r' {
            end = end - 1;
        }
    }
    end
}

/// The YAML frontmatter of a markdown text (see [`frontmatter_spec`]).
pub fn extract_frontmatter(text: &str) -> (r: Option<&str>)
    ensures
        match frontmatter_spec(text@) {
            Some(f) => r matches Some(s) && s@ == f,
            None => r is None,
        },
{
    let all = chars_of(text);
    let (off, body) = strip_feff_chars(&all);
    assert(body@.len() + off == text@.len());
    proof {
        lemma_dashes_line_from(body@, 0);
    }
    let n = body.len();
    let ys = match next_dashes_line(&body, 0) {
        Some((_, a)) => a,
        None => return None,
    };
    assert(ys <= n);
    proof {
        lemma_dashes_line_from(body@, ys as int);
    }
    let ye = match next_dashes_line(&body, ys) {
        Some((s, _)) => s,
        None => return None,
    };
    assert(ys <= ye <= n);
    assert(off + n == all.len());
    let end = back_over_line_ending(&body, ys, ye);
    let r = text.substring_char(off + ys, off + end);
    assert(r@ =~= body@.subrange(ys as int, end as int));
    Some(r)
}

/// Where the search for a document separator starts: after a leading
/// start-of-stream `---` line, if there is one.
fn separator_scan_start(body: &Vec<char>) -> (r: usize)
    ensures
        r == (if body@.len() >= 4 && body@.subrange(0, 4) == seq!['-', '-', '-', '\n'] {
            4int
        } else if body@.len() >= 5 && body@.subrange(0, 5) == seq!['-', '-', '-', '\r', '\n'] {
            5int
        } else {
            0int
        }),
{
    let n = body.len();
    let dashes = n >= 4 && body[0] == '-' && body[1] == '-' && body[2] == '-';
    proof {
        if body@.len() >= 4 {
            let p = body@.subrange(0, 4);
            assert(p[0] == body@[0] && p[1] == body@[1] && p[2] == body@[2] && p[3] == body@[3]);
        }
        if body@.len() >= 5 {
            let p = body@.subrange(0, 5);
            assert(p[0] == body@[0] && p[1] == body@[1] && p[2] == body@[2] && p[3] == body@[3] && p[4] == body@[4]);
        }
    }
    if dashes && body[3] == '\n' {
        assert(body@.subrange(0, 4) =~= seq!['-', '-', '-', '\n']);
        4
    } else if dashes && n >= 5 && body[3] == '\r' && body[4] == '\n' {
        assert(body@.subrange(0, 5) =~= seq!['-', '-', '-', '\r', '\n']);
        5
    } else {
        0
    }
}

/// The first document of a YAML stream (see [`first_document_spec`]).
pub fn first_yaml_document(text: &str) -> (r: &str)
    ensures
        r@ == first_document_spec(text@),
{
    let all = chars_of(text);
    let (off, body) = strip_feff_chars(&all);
    assert(body@.len() + off == text@.len());
    let n = body.len();
    assert(off + n == all.len());
    let scan = separator_scan_start(&body);
    match next_dashes_line(&body, scan) {
        None => {
            let r = text.substring_char(off, off + n);
            assert(r@ =~= body@);
            r
        },
        Some((s, _)) => {
            proof {
                lemma_dashes_line_from(body@, scan as int);
            }
            let end = back_over_line_ending(&body, 0, s);
            let r = text.substring_char(off, off + end);
            assert(r@ =~= body@.subrange(0, end as int));
            r
        },
    }
}

// ---------------------------------------------------------------------------
// The documents, as far as the checks read them
// ---------------------------------------------------------------------------

/// PLAN.md frontmatter (absent keys read as `None`).
#[derive(Debug, Clone)]
pub struct PlanFrontmatter {
    pub plan_id: Option<String>,
    pub current_phase: Option<String>,
}

/// `execution:` of state.yaml.
#[derive(Debug, Clone)]
pub struct Execution {
    pub current_phase: Option<String>,
}

/// One entry of a `phases:` (or `sub_phases:`) mapping.
#[derive(Debug)]
pub struct PhaseEntry {
    /// The nested phases, keyed by id (each id once).
    pub sub_phases: Option<Vec<(String, PhaseEntry)>>,
}

/// One entry of `handoffs.handoff_files`.
#[derive(Debug, Clone)]
pub struct HandoffFile {
    pub file: Option<String>,
    pub phase: Option<String>,
}

/// `handoffs:` of state.yaml.
#[derive(Debug, Clone)]
pub struct Handoffs {
    pub last_handoff: Option<String>,
    pub handoff_files: Option<Vec<HandoffFile>>,
}

/// The first document of state.yaml (absent keys read as `None`).
#[derive(Debug)]
pub struct StateYaml {
    pub plan_id: Option<String>,
    pub execution: Option<Execution>,
    /// The top-level phases, keyed by id (each id once).
    pub phases: Option<Vec<(String, PhaseEntry)>>,
    pub handoffs: Option<Handoffs>,
}

// ---------------------------------------------------------------------------
// Phase-namespace flattening
// ---------------------------------------------------------------------------

/// Whether `id` is defined by the entries `ps[i..]` or, at any depth, by
/// their sub-phases.
pub open spec fn defined_from(ps: Seq<(String, PhaseEntry)>, i: int, id: Seq<char>) -> bool
    decreases ps, ps.len() - i,
{
    if i < 0 || i >= ps.len() {
        false
    } else {
        ps[i].0@ == id || (match ps[i].1.sub_phases {
            Some(sub) => defined_from(sub@, 0, id),
            None => false,
        }) || defined_from(ps, i + 1, id)
    }
}

/// Whether `id` names a phase of `phases` (sub-phases included).
pub open spec fn phase_defined(phases: Seq<(String, PhaseEntry)>, id: Seq<char>) -> bool {
    defined_from(phases, 0, id)
}

fn contains_str(v: &Vec<String>, s: &String) -> (r: bool)
    ensures
        r == str_views(v@).contains(s@),
{
    let mut i: usize = 0;
    while i < v.len()
        invariant
            i <= v@.len(),
            forall|k: int| 0 <= k < i ==> v@[k]@ != s@,
        decreases v@.len() - i,
    {
        if v[i] == *s {
            assert(str_views(v@)[i as int] == s@);
            return true;
        }
        i = i + 1;
    }
    assert forall|k: int| 0 <= k < str_views(v@).len() implies str_views(v@)[k] != s@ by {
        assert(str_views(v@)[k] == v@[k]@);
    }
    false
}

fn collect_from(ps: &Vec<(String, PhaseEntry)>, i: usize, out: &mut Vec<String>)
    requires
        i <= ps@.len(),
    ensures
        forall|id: Seq<char>| #[trigger] str_views(final(out)@).contains(id) <==> (str_views(old(out)@).contains(id)
            || defined_from(ps@, i as int, id)),
        str_views(old(out)@).no_duplicates() ==> str_views(final(out)@).no_duplicates(),
    decreases ps@, ps@.len() - i,
{
    if i >= ps.len() {
        return;
    }
    let ghost before = str_views(out@);
    let present = contains_str(out, &ps[i].0);
    if !present {
        out.push(ps[i].0.clone());
        assert(str_views(out@) =~= before.push(ps@[i as int].0@));
    }
    let ghost mid = str_views(out@);
    assert forall|id: Seq<char>| #[trigger] mid.contains(id) <==> (before.contains(id) || ps@[i as int].0@ == id) by {
        if !present {
            vstd::seq_lib::lemma_seq_contains_after_push(before, ps@[i as int].0@, id);
        }
    }
    match &ps[i].1.sub_phases {
        Some(sub) => {
            proof {
                assert(decreases_to!(ps@ => ps@[i as int]));
            }
            collect_from(sub, 0, out);
        },
        None => {},
    }
    collect_from(ps, i + 1, out);
}

/// Adds to `out` every phase id that `phases` defines, sub-phases
/// included, each id once.
pub fn collect_phase_ids(phases: &Vec<(String, PhaseEntry)>, out: &mut Vec<String>)
    ensures
        forall|id: Seq<char>| #[trigger] str_views(final(out)@).contains(id) <==> (str_views(old(out)@).contains(id)
            || phase_defined(phases@, id)),
        str_views(old(out)@).no_duplicates() ==> str_views(final(out)@).no_duplicates(),
{
    collect_from(phases, 0, out);
}

// ---------------------------------------------------------------------------
// Per-workflow checks
// ---------------------------------------------------------------------------

/// What the frontmatter of PLAN.md gave.
#[derive(Debug, Clone)]
pub enum PlanFront {
    /// No `---` delimited block.
    Missing,
    /// The block is not valid YAML: the parser's message.
    Invalid(String),
    Parsed(PlanFrontmatter),
}

/// What was read of one workflow root.
#[derive(Debug)]
pub enum WorkflowRead {
    /// PLAN.md could not be read: the error's text.
    PlanUnreadable(String),
    /// PLAN.md was read, state.yaml could not be: the error's text.
    StateUnreadable(String),
    Read {
        plan: PlanFront,
        /// The first document of state.yaml, or the parser's message.
        state: Result<StateYaml, String>,
        /// For each path of [`referenced_paths`], in order, whether it is a
        /// regular file.
        present: Vec<bool>,
    },
}

pub open spec fn workflow_break(root: Seq<char>, message: Seq<char>, details: Option<Seq<char>>) -> FailureView {
    (root, Category::Workflow, FailureKind::WorkflowBreak, message, details)
}

pub open spec fn plan_fields(plan: PlanFront) -> (Option<Seq<char>>, Option<Seq<char>>) {
    match plan {
        PlanFront::Parsed(p) => (opt_view(p.plan_id), opt_view(p.current_phase)),
        _ => (None, None),
    }
}

pub open spec fn state_plan_id(st: Result<StateYaml, String>) -> Option<Seq<char>> {
    match st {
        Ok(s) => opt_view(s.plan_id),
        Err(_) => None,
    }
}

pub open spec fn state_current_phase(st: Result<StateYaml, String>) -> Option<Seq<char>> {
    match st {
        Ok(s) => match s.execution {
            Some(e) => opt_view(e.current_phase),
            None => None,
        },
        Err(_) => None,
    }
}

pub open spec fn state_phases(st: Result<StateYaml, String>) -> Seq<(String, PhaseEntry)> {
    match st {
        Ok(s) => match s.phases {
            Some(p) => p@,
            None => Seq::empty(),
        },
        Err(_) => Seq::empty(),
    }
}

pub open spec fn state_last_handoff(st: Result<StateYaml, String>) -> Option<Seq<char>> {
    match st {
        Ok(s) => match s.handoffs {
            Some(h) => opt_view(h.last_handoff),
            None => None,
        },
        Err(_) => None,
    }
}

pub open spec fn state_handoff_files(st: Result<StateYaml, String>) -> Seq<HandoffFile> {
    match st {
        Ok(s) => match s.handoffs {
            Some(h) => match h.handoff_files {
                Some(f) => f@,
                None => Seq::empty(),
            },
            None => Seq::empty(),
        },
        Err(_) => Seq::empty(),
    }
}

/// The resolved `file` of each entry `es[i..]` that has one.
pub open spec fn entry_files_from(root: Seq<char>, es: Seq<HandoffFile>, i: int) -> Seq<Seq<char>>
    decreases es.len() - i,
{
    if i < 0 || i >= es.len() {
        Seq::empty()
    } else {
        match es[i].file {
            Some(f) => seq![resolve_spec(root, f@)] + entry_files_from(root, es, i + 1),
            None => entry_files_from(root, es, i + 1),
        }
    }
}

/// The files state.yaml refers to, resolved against the workflow root, in
/// the order they are checked: `last_handoff`, then each
/// `handoff_files[].file`.
pub open spec fn referenced_paths(root: Seq<char>, st: Result<StateYaml, String>) -> Seq<Seq<char>> {
    let last: Seq<Seq<char>> = match state_last_handoff(st) {
        Some(l) => seq![resolve_spec(root, l)],
        None => Seq::empty(),
    };
    last + entry_files_from(root, state_handoff_files(st), 0)
}

pub open spec fn plan_front_outcome(root: Seq<char>, plan: PlanFront) -> Seq<FailureView> {
    match plan {
        PlanFront::Missing => seq![
            workflow_break(
                root,
                "PLAN.md is missing the YAML frontmatter block (expected '---' delimited block at top of file)"@,
                None,
            ),
        ],
        PlanFront::Invalid(e) => seq![workflow_break(root, "PLAN.md frontmatter is not valid YAML"@, Some(e@))],
        PlanFront::Parsed(_) => Seq::empty(),
    }
}

pub open spec fn state_parse_outcome(root: Seq<char>, st: Result<StateYaml, String>) -> Seq<FailureView> {
    match st {
        Err(e) => seq![workflow_break(root, "state.yaml is not valid YAML"@, Some(e@))],
        Ok(_) => Seq::empty(),
    }
}

/// INV-1: both sides name the same `plan_id`.
pub open spec fn plan_id_outcome(root: Seq<char>, a: Option<Seq<char>>, b: Option<Seq<char>>) -> Seq<FailureView> {
    match (a, b) {
        (Some(x), Some(y)) => if x == y {
            Seq::empty()
        } else {
            seq![
                workflow_break(
                    root,
                    "INV-1 plan_id mismatch between PLAN.md and state.yaml"@,
                    Some("plan_md_plan_id="@ + x + " state_yaml_plan_id="@ + y),
                ),
            ]
        },
        (Some(_), None) => seq![workflow_break(root, "INV-1 state.yaml is missing top-level plan_id"@, None)],
        (None, Some(_)) => seq![workflow_break(root, "INV-1 PLAN.md frontmatter is missing plan_id"@, None)],
        (None, None) => seq![
            workflow_break(root, "INV-1 plan_id is missing from BOTH PLAN.md frontmatter and state.yaml"@, None),
        ],
    }
}

/// INV-2: both sides name the same current phase, or neither names one.
pub open spec fn current_phase_outcome(root: Seq<char>, a: Option<Seq<char>>, b: Option<Seq<char>>) -> Seq<FailureView> {
    match (a, b) {
        (Some(x), Some(y)) => if x == y {
            Seq::empty()
        } else {
            seq![
                workflow_break(
                    root,
                    "INV-2 current_phase mismatch between PLAN.md and state.yaml"@,
                    Some("plan_md_current_phase="@ + x + " state_yaml_current_phase="@ + y),
                ),
            ]
        },
        (Some(_), None) => seq![
            workflow_break(
                root,
                "INV-2 state.yaml execution.current_phase is missing while PLAN.md frontmatter has current_phase"@,
                None,
            ),
        ],
        (None, Some(_)) => seq![
            workflow_break(
                root,
                "INV-2 PLAN.md frontmatter current_phase is missing while state.yaml has execution.current_phase"@,
                None,
            ),
        ],
        (None, None) => Seq::empty(),
    }
}

/// INV-3: `last_handoff`, when given, is a file (`present[0]`).
pub open spec fn last_handoff_outcome(root: Seq<char>, last: Option<Seq<char>>, present: Seq<bool>) -> Seq<FailureView> {
    match last {
        None => Seq::empty(),
        Some(l) => if present[0] {
            Seq::empty()
        } else {
            seq![
                workflow_break(
                    root,
                    "INV-3 state.yaml handoffs.last_handoff references a file that does not exist"@,
                    Some("last_handoff="@ + l + " resolved_path="@ + resolve_spec(root, l)),
                ),
            ]
        },
    }
}

/// INV-4 and INV-5 for one entry whose file (if any) has presence `here`.
pub open spec fn entry_outcome(
    root: Seq<char>,
    e: HandoffFile,
    here: bool,
    phases: Seq<(String, PhaseEntry)>,
) -> Seq<FailureView> {
    let file_v: Seq<FailureView> = match e.file {
        Some(f) => if here {
            Seq::empty()
        } else {
            seq![
                workflow_break(
                    root,
                    "INV-4 state.yaml handoffs.handoff_files entry references a file that does not exist"@,
                    Some("file="@ + f@ + " resolved_path="@ + resolve_spec(root, f@)),
                ),
            ]
        },
        None => Seq::empty(),
    };
    let phase_v: Seq<FailureView> = match e.phase {
        Some(p) => if phase_defined(phases, p@) {
            Seq::empty()
        } else {
            seq![
                workflow_break(
                    root,
                    "INV-5 state.yaml handoffs.handoff_files entry references a phase not defined under phases:"@,
                    Some("phase="@ + p@),
                ),
            ]
        },
        None => Seq::empty(),
    };
    file_v + phase_v
}

/// INV-4 and INV-5 over the entries `es[i..]`; `present[j..]` holds the
/// presence of their files.
pub open spec fn entries_outcome(
    root: Seq<char>,
    es: Seq<HandoffFile>,
    i: int,
    present: Seq<bool>,
    j: int,
    phases: Seq<(String, PhaseEntry)>,
) -> Seq<FailureView>
    decreases es.len() - i,
{
    if i < 0 || i >= es.len() {
        Seq::empty()
    } else {
        let next_j = if es[i].file is Some { j + 1 } else { j };
        entry_outcome(root, es[i], present[j], phases) + entries_outcome(root, es, i + 1, present, next_j, phases)
    }
}

/// Every failure one workflow root produces, in order. It counts once,
/// however many there are.
pub open spec fn workflow_outcome(root: Seq<char>, read: WorkflowRead) -> Seq<FailureView> {
    match read {
        WorkflowRead::PlanUnreadable(e) => seq![
            (root, Category::Workflow, FailureKind::Io, "read failed: "@ + join_spec(root, "PLAN.md"@), Some(e@)),
        ],
        WorkflowRead::StateUnreadable(e) => seq![
            (root, Category::Workflow, FailureKind::Io, "read failed: "@ + join_spec(root, "state.yaml"@), Some(e@)),
        ],
        WorkflowRead::Read { plan, state, present } => {
            let last = state_last_handoff(state);
            plan_front_outcome(root, plan) + state_parse_outcome(root, state) + plan_id_outcome(
                root,
                plan_fields(plan).0,
                state_plan_id(state),
            ) + current_phase_outcome(root, plan_fields(plan).1, state_current_phase(state))
                + last_handoff_outcome(root, last, present@) + entries_outcome(
                root,
                state_handoff_files(state),
                0,
                present@,
                if last is Some { 1 } else { 0 },
                state_phases(state),
            )
        },
    }
}

/// Whether `fs` holds a workflow break for `root` whose message starts
/// with `code`.
pub open spec fn has_break_coded(fs: Seq<FailureView>, root: Seq<char>, code: Seq<char>) -> bool {
    exists|k: int|
        0 <= k < fs.len() && (#[trigger] fs[k]).0 == root && fs[k].1 == Category::Workflow && fs[k].2
            == FailureKind::WorkflowBreak && code.is_prefix_of(fs[k].3)
}

proof fn lemma_break_in_middle(
    fs: Seq<FailureView>,
    a: Seq<FailureView>,
    x: Seq<FailureView>,
    z: Seq<FailureView>,
    root: Seq<char>,
    code: Seq<char>,
)
    requires
        fs == a + x + z,
        has_break_coded(x, root, code),
    ensures
        has_break_coded(fs, root, code),
{
    let k = choose|k: int|
        0 <= k < x.len() && (#[trigger] x[k]).0 == root && x[k].1 == Category::Workflow && x[k].2
            == FailureKind::WorkflowBreak && code.is_prefix_of(x[k].3);
    assert(fs[a.len() + k] == x[k]);
}

/// Every message of `fs` has at least five characters, and its fifth is
/// not `d`.
pub open spec fn fifth_chars_avoid(fs: Seq<FailureView>, d: char) -> bool {
    forall|k: int| 0 <= k < fs.len() ==> (#[trigger] fs[k]).3.len() >= 5 && fs[k].3[4] != d
}

proof fn lemma_avoid_concat(a: Seq<FailureView>, b: Seq<FailureView>, d: char)
    requires
        fifth_chars_avoid(a, d),
        fifth_chars_avoid(b, d),
    ensures
        fifth_chars_avoid(a + b, d),
{
    assert forall|k: int| 0 <= k < (a + b).len() implies (#[trigger] (a + b)[k]).3.len() >= 5 && (a + b)[k].3[4]
        != d by {
        if k >= a.len() {
            assert((a + b)[k] == b[k - a.len()]);
        }
    }
}

proof fn lemma_avoid_no_break(fs: Seq<FailureView>, root: Seq<char>, code: Seq<char>)
    requires
        code.len() == 5,
        fifth_chars_avoid(fs, code[4]),
    ensures
        !has_break_coded(fs, root, code),
{
    if has_break_coded(fs, root, code) {
        let k = choose|k: int|
            0 <= k < fs.len() && (#[trigger] fs[k]).0 == root && fs[k].1 == Category::Workflow && fs[k].2
                == FailureKind::WorkflowBreak && code.is_prefix_of(fs[k].3);
        assert(fs[k].3.subrange(0, 5)[4] == fs[k].3[4]);
    }
}

proof fn lemma_entries_fifth_chars(
    root: Seq<char>,
    es: Seq<HandoffFile>,
    i: int,
    present: Seq<bool>,
    j: int,
    phases: Seq<(String, PhaseEntry)>,
)
    ensures
        fifth_chars_avoid(entries_outcome(root, es, i, present, j, phases), '1'),
        fifth_chars_avoid(entries_outcome(root, es, i, present, j, phases), '2'),
    decreases es.len() - i,
{
    reveal_strlit("INV-4 state.yaml handoffs.handoff_files entry references a file that does not exist");
    reveal_strlit("INV-5 state.yaml handoffs.handoff_files entry references a phase not defined under phases:");
    if 0 <= i < es.len() {
        let next_j = if es[i].file is Some { j + 1 } else { j };
        lemma_entries_fifth_chars(root, es, i + 1, present, next_j, phases);
        let e = entry_outcome(root, es[i], present[j], phases);
        lemma_avoid_concat(e, entries_outcome(root, es, i + 1, present, next_j, phases), '1');
        lemma_avoid_concat(e, entries_outcome(root, es, i + 1, present, next_j, phases), '2');
    }
}

/// The failures of a read workflow root, other than its INV-1 and INV-2
/// checks, carry neither code.
proof fn lemma_other_checks_fifth_chars(root: Seq<char>, plan: PlanFront, state: Result<StateYaml, String>, present: Vec<bool>)
    ensures
        fifth_chars_avoid(plan_front_outcome(root, plan) + state_parse_outcome(root, state), '1'),
        fifth_chars_avoid(plan_front_outcome(root, plan) + state_parse_outcome(root, state), '2'),
        fifth_chars_avoid(
            last_handoff_outcome(root, state_last_handoff(state), present@) + entries_outcome(
                root,
                state_handoff_files(state),
                0,
                present@,
                if state_last_handoff(state) is Some { 1 } else { 0 },
                state_phases(state),
            ),
            '1',
        ),
        fifth_chars_avoid(
            last_handoff_outcome(root, state_last_handoff(state), present@) + entries_outcome(
                root,
                state_handoff_files(state),
                0,
                present@,
                if state_last_handoff(state) is Some { 1 } else { 0 },
                state_phases(state),
            ),
            '2',
        ),
{
    reveal_strlit("PLAN.md is missing the YAML frontmatter block (expected '---' delimited block at top of file)");
    reveal_strlit("PLAN.md frontmatter is not valid YAML");
    reveal_strlit("state.yaml is not valid YAML");
    reveal_strlit("INV-3 state.yaml handoffs.last_handoff references a file that does not exist");
    let last = state_last_handoff(state);
    let nj: int = if last is Some { 1 } else { 0 };
    let es = entries_outcome(root, state_handoff_files(state), 0, present@, nj, state_phases(state));
    lemma_entries_fifth_chars(root, state_handoff_files(state), 0, present@, nj, state_phases(state));
    let a = plan_front_outcome(root, plan);
    let b = state_parse_outcome(root, state);
    let l = last_handoff_outcome(root, last, present@);
    lemma_avoid_concat(a, b, '1');
    lemma_avoid_concat(a, b, '2');
    lemma_avoid_concat(l, es, '1');
    lemma_avoid_concat(l, es, '2');
}

/// INV-1 holds exactly when PLAN.md frontmatter and state.yaml both carry a
/// `plan_id` and the two are equal: the root's failures include an INV-1
/// workflow break if and only if either is absent or they differ.
pub proof fn law_plan_id_must_be_on_both_sides(root: Seq<char>, plan: PlanFront, state: Result<StateYaml, String>, present: Vec<bool>)
    ensures
        has_break_coded(workflow_outcome(root, WorkflowRead::Read { plan, state, present }), root, "INV-1"@) <==> (
        plan_fields(plan).0 is None || state_plan_id(state) is None || plan_fields(plan).0 != state_plan_id(state)),
{
    reveal_strlit("INV-1");
    reveal_strlit("INV-1 plan_id mismatch between PLAN.md and state.yaml");
    reveal_strlit("INV-1 state.yaml is missing top-level plan_id");
    reveal_strlit("INV-1 PLAN.md frontmatter is missing plan_id");
    reveal_strlit("INV-1 plan_id is missing from BOTH PLAN.md frontmatter and state.yaml");
    let a = plan_fields(plan).0;
    let b = state_plan_id(state);
    if a is None || b is None || a != b {
        let x = plan_id_outcome(root, a, b);
        assert(x.len() == 1);
        assert(has_break_coded(x, root, "INV-1"@)) by {
            assert("INV-1"@ =~= x[0].3.subrange(0, 5));
        }
        let last = state_last_handoff(state);
        let pre = plan_front_outcome(root, plan) + state_parse_outcome(root, state);
        let post = current_phase_outcome(root, plan_fields(plan).1, state_current_phase(state)) + last_handoff_outcome(
            root,
            last,
            present@,
        ) + entries_outcome(root, state_handoff_files(state), 0, present@, if last is Some { 1 } else { 0 }, state_phases(state));
        let fs = workflow_outcome(root, WorkflowRead::Read { plan, state, present });
        assert(fs =~= pre + x + post);
        lemma_break_in_middle(fs, pre, x, post, root, "INV-1"@);
    } else {
        reveal_strlit("INV-2 current_phase mismatch between PLAN.md and state.yaml");
        reveal_strlit("INV-2 state.yaml execution.current_phase is missing while PLAN.md frontmatter has current_phase");
        reveal_strlit("INV-2 PLAN.md frontmatter current_phase is missing while state.yaml has execution.current_phase");
        lemma_other_checks_fifth_chars(root, plan, state, present);
        let last = state_last_handoff(state);
        let pre = plan_front_outcome(root, plan) + state_parse_outcome(root, state);
        let cp = current_phase_outcome(root, plan_fields(plan).1, state_current_phase(state));
        let post = last_handoff_outcome(root, last, present@) + entries_outcome(
            root,
            state_handoff_files(state),
            0,
            present@,
            if last is Some { 1 } else { 0 },
            state_phases(state),
        );
        assert(fifth_chars_avoid(cp, '1'));
        lemma_avoid_concat(pre, cp, '1');
        lemma_avoid_concat(pre + cp, post, '1');
        let fs = workflow_outcome(root, WorkflowRead::Read { plan, state, present });
        assert(fs =~= pre + cp + post);
        lemma_avoid_no_break(fs, root, "INV-1"@);
    }
}

/// INV-2 holds exactly when both sides name the same current phase or
/// neither names one: the root's failures include an INV-2 workflow break
/// if and only if exactly one of PLAN.md `current_phase` and state.yaml
/// `execution.current_phase` is present, or the two differ.
pub proof fn law_current_phase_on_both_sides_or_neither(
    root: Seq<char>,
    plan: PlanFront,
    state: Result<StateYaml, String>,
    present: Vec<bool>,
)
    ensures
        has_break_coded(workflow_outcome(root, WorkflowRead::Read { plan, state, present }), root, "INV-2"@) <==> plan_fields(
            plan,
        ).1 != state_current_phase(state),
{
    reveal_strlit("INV-2");
    reveal_strlit("INV-2 current_phase mismatch between PLAN.md and state.yaml");
    reveal_strlit("INV-2 state.yaml execution.current_phase is missing while PLAN.md frontmatter has current_phase");
    reveal_strlit("INV-2 PLAN.md frontmatter current_phase is missing while state.yaml has execution.current_phase");
    let a = plan_fields(plan).1;
    let b = state_current_phase(state);
    if a != b {
        let x = current_phase_outcome(root, a, b);
        assert(x.len() == 1);
        assert(has_break_coded(x, root, "INV-2"@)) by {
            assert("INV-2"@ =~= x[0].3.subrange(0, 5));
        }
        let last = state_last_handoff(state);
        let pre = plan_front_outcome(root, plan) + state_parse_outcome(root, state) + plan_id_outcome(
            root,
            plan_fields(plan).0,
            state_plan_id(state),
        );
        let post = last_handoff_outcome(root, last, present@) + entries_outcome(
            root,
            state_handoff_files(state),
            0,
            present@,
            if last is Some { 1 } else { 0 },
            state_phases(state),
        );
        let fs = workflow_outcome(root, WorkflowRead::Read { plan, state, present });
        assert(fs =~= pre + x + post);
        lemma_break_in_middle(fs, pre, x, post, root, "INV-2"@);
    } else {
        reveal_strlit("INV-1 plan_id mismatch between PLAN.md and state.yaml");
        reveal_strlit("INV-1 state.yaml is missing top-level plan_id");
        reveal_strlit("INV-1 PLAN.md frontmatter is missing plan_id");
        reveal_strlit("INV-1 plan_id is missing from BOTH PLAN.md frontmatter and state.yaml");
        lemma_other_checks_fifth_chars(root, plan, state, present);
        let last = state_last_handoff(state);
        let pre = plan_front_outcome(root, plan) + state_parse_outcome(root, state);
        let pid = plan_id_outcome(root, plan_fields(plan).0, state_plan_id(state));
        let post = last_handoff_outcome(root, last, present@) + entries_outcome(
            root,
            state_handoff_files(state),
            0,
            present@,
            if last is Some { 1 } else { 0 },
            state_phases(state),
        );
        assert(fifth_chars_avoid(pid, '2'));
        lemma_avoid_concat(pre, pid, '2');
        lemma_avoid_concat(pre + pid, post, '2');
        let fs = workflow_outcome(root, WorkflowRead::Read { plan, state, present });
        assert(fs =~= pre + pid + post);
        lemma_avoid_no_break(fs, root, "INV-2"@);
    }
}

fn push_break(item: &mut Vec<Failure>, root: &str, message: &str, details: Option<String>)
    ensures
        failure_views(final(item)@) == failure_views(old(item)@).push(workflow_break(root@, message@, opt_view(details))),
{
    let ghost before = item@;
    item.push(Failure {
        fixture: owned(root),
        category: Category::Workflow,
        kind: FailureKind::WorkflowBreak,
        message: owned(message),
        details,
    });
    assert(failure_views(item@) =~= failure_views(before).push(workflow_break(root@, message@, opt_view(details))));
}

/// `a`, `mid` and `b` run together.
fn concat3(a: &str, mid: &str, b: &str, c: &str) -> (r: String)
    ensures
        r@ == a@ + mid@ + b@ + c@,
{
    let mut r = owned(a);
    push_str(&mut r, mid);
    push_str(&mut r, b);
    push_str(&mut r, c);
    r
}

fn plan_front_failures(item: &mut Vec<Failure>, root: &str, plan: &PlanFront)
    ensures
        failure_views(final(item)@) == failure_views(old(item)@) + plan_front_outcome(root@, *plan),
{
    let ghost before = failure_views(item@);
    match plan {
        PlanFront::Missing => push_break(
            item,
            root,
            "PLAN.md is missing the YAML frontmatter block (expected '---' delimited block at top of file)",
            None,
        ),
        PlanFront::Invalid(e) => push_break(item, root, "PLAN.md frontmatter is not valid YAML", Some(e.clone())),
        PlanFront::Parsed(_) => {},
    }
    assert(failure_views(item@) =~= before + plan_front_outcome(root@, *plan));
}

fn state_parse_failures(item: &mut Vec<Failure>, root: &str, st: &Result<StateYaml, String>)
    ensures
        failure_views(final(item)@) == failure_views(old(item)@) + state_parse_outcome(root@, *st),
{
    let ghost before = failure_views(item@);
    match st {
        Err(e) => push_break(item, root, "state.yaml is not valid YAML", Some(e.clone())),
        Ok(_) => {},
    }
    assert(failure_views(item@) =~= before + state_parse_outcome(root@, *st));
}

fn plan_id_failures(item: &mut Vec<Failure>, root: &str, a: &Option<String>, b: &Option<String>)
    ensures
        failure_views(final(item)@) == failure_views(old(item)@) + plan_id_outcome(root@, opt_view(*a), opt_view(*b)),
{
    let ghost before = failure_views(item@);
    match (a, b) {
        (Some(x), Some(y)) => {
            if *x != *y {
                let d = concat3("plan_md_plan_id=", x.as_str(), " state_yaml_plan_id=", y.as_str());
                push_break(item, root, "INV-1 plan_id mismatch between PLAN.md and state.yaml", Some(d));
            }
        },
        (Some(_), None) => push_break(item, root, "INV-1 state.yaml is missing top-level plan_id", None),
        (None, Some(_)) => push_break(item, root, "INV-1 PLAN.md frontmatter is missing plan_id", None),
        (None, None) => push_break(
            item,
            root,
            "INV-1 plan_id is missing from BOTH PLAN.md frontmatter and state.yaml",
            None,
        ),
    }
    assert(failure_views(item@) =~= before + plan_id_outcome(root@, opt_view(*a), opt_view(*b)));
}

fn current_phase_failures(item: &mut Vec<Failure>, root: &str, a: &Option<String>, b: &Option<String>)
    ensures
        failure_views(final(item)@) == failure_views(old(item)@) + current_phase_outcome(
            root@,
            opt_view(*a),
            opt_view(*b),
        ),
{
    let ghost before = failure_views(item@);
    match (a, b) {
        (Some(x), Some(y)) => {
            if *x != *y {
                let d = concat3("plan_md_current_phase=", x.as_str(), " state_yaml_current_phase=", y.as_str());
                push_break(item, root, "INV-2 current_phase mismatch between PLAN.md and state.yaml", Some(d));
            }
        },
        (Some(_), None) => push_break(
            item,
            root,
            "INV-2 state.yaml execution.current_phase is missing while PLAN.md frontmatter has current_phase",
            None,
        ),
        (None, Some(_)) => push_break(
            item,
            root,
            "INV-2 PLAN.md frontmatter current_phase is missing while state.yaml has execution.current_phase",
            None,
        ),
        (None, None) => {},
    }
    assert(failure_views(item@) =~= before + current_phase_outcome(root@, opt_view(*a), opt_view(*b)));
}

fn last_handoff_failures(item: &mut Vec<Failure>, root: &str, last: &Option<String>, present: &Vec<bool>)
    requires
        last is Some ==> present@.len() >= 1,
    ensures
        failure_views(final(item)@) == failure_views(old(item)@) + last_handoff_outcome(root@, opt_view(*last), present@),
{
    let ghost before = failure_views(item@);
    match last {
        Some(l) => {
            if !present[0] {
                let resolved = resolve(root, l.as_str());
                let d = concat3("last_handoff=", l.as_str(), " resolved_path=", resolved.as_str());
                push_break(
                    item,
                    root,
                    "INV-3 state.yaml handoffs.last_handoff references a file that does not exist",
                    Some(d),
                );
            }
        },
        None => {},
    }
    assert(failure_views(item@) =~= before + last_handoff_outcome(root@, opt_view(*last), present@));
}

fn entries_failures(
    item: &mut Vec<Failure>,
    root: &str,
    es: &Vec<HandoffFile>,
    present: &Vec<bool>,
    j0: usize,
    ids: &Vec<String>,
    Ghost(phases): Ghost<Seq<(String, PhaseEntry)>>,
)
    requires
        j0 + entry_files_from(root@, es@, 0).len() == present@.len(),
        forall|id: Seq<char>| #[trigger] str_views(ids@).contains(id) <==> phase_defined(phases, id),
    ensures
        failure_views(final(item)@) == failure_views(old(item)@) + entries_outcome(
            root@,
            es@,
            0,
            present@,
            j0 as int,
            phases,
        ),
{
    let ghost start = failure_views(item@);
    let mut i: usize = 0;
    let mut j: usize = j0;
    let n = present.len();
    while i < es.len()
        invariant
            i <= es@.len(),
            n == present@.len(),
            j + entry_files_from(root@, es@, i as int).len() == present@.len(),
            forall|id: Seq<char>| #[trigger] str_views(ids@).contains(id) <==> phase_defined(phases, id),
            start + entries_outcome(root@, es@, 0, present@, j0 as int, phases) == failure_views(item@)
                + entries_outcome(root@, es@, i as int, present@, j as int, phases),
        decreases es@.len() - i,
    {
        let ghost before = failure_views(item@);
        let ghost j_old = j as int;
        let e = &es[i];
        let mut here = false;
        match &e.file {
            Some(f) => {
                assert(entry_files_from(root@, es@, i as int) == seq![resolve_spec(root@, f@)] + entry_files_from(
                    root@,
                    es@,
                    i + 1,
                ));
                here = present[j];
                j = j + 1;
                if !here {
                    let resolved = resolve(root, f.as_str());
                    let d = concat3("file=", f.as_str(), " resolved_path=", resolved.as_str());
                    push_break(
                        item,
                        root,
                        "INV-4 state.yaml handoffs.handoff_files entry references a file that does not exist",
                        Some(d),
                    );
                }
            },
            None => {},
        }
        match &e.phase {
            Some(p) => {
                if !contains_str(ids, p) {
                    let mut d = owned("phase=");
                    push_str(&mut d, p.as_str());
                    push_break(
                        item,
                        root,
                        "INV-5 state.yaml handoffs.handoff_files entry references a phase not defined under phases:",
                        Some(d),
                    );
                }
            },
            None => {},
        }
        proof {
            let present_j = present@[j_old];
            if e.file is Some {
                assert(here == present_j);
            }
            assert(failure_views(item@) =~= before + entry_outcome(root@, es@[i as int], present_j, phases));
        }
        i = i + 1;
    }
}

/// The files state.yaml refers to, resolved against `root` (see
/// [`referenced_paths`]); the caller reports which are regular files.
pub fn referenced_files(root: &str, state: &Result<StateYaml, String>) -> (r: Vec<String>)
    ensures
        str_views(r@) == referenced_paths(root@, *state),
{
    let mut out: Vec<String> = Vec::new();
    let none: Option<Handoffs> = None;
    let h = match state {
        Ok(s) => &s.handoffs,
        Err(_) => &none,
    };
    match h {
        Some(h) => {
            match &h.last_handoff {
                Some(l) => {
                    out.push(resolve(root, l.as_str()));
                },
                None => {},
            }
            assert(str_views(out@) =~= match state_last_handoff(*state) {
                Some(l) => seq![resolve_spec(root@, l)],
                None => Seq::<Seq<char>>::empty(),
            });
            match &h.handoff_files {
                Some(es) => {
                    let ghost first = str_views(out@);
                    let mut i: usize = 0;
                    while i < es.len()
                        invariant
                            i <= es@.len(),
                            first + entry_files_from(root@, es@, 0) == str_views(out@) + entry_files_from(
                                root@,
                                es@,
                                i as int,
                            ),
                        decreases es@.len() - i,
                    {
                        let ghost before = str_views(out@);
                        match &es[i].file {
                            Some(f) => {
                                out.push(resolve(root, f.as_str()));
                                assert(str_views(out@) =~= before.push(resolve_spec(root@, f@)));
                                assert(before + entry_files_from(root@, es@, i as int) =~= str_views(out@)
                                    + entry_files_from(root@, es@, i + 1));
                            },
                            None => {},
                        }
                        i = i + 1;
                    }
                    assert(str_views(out@) + entry_files_from(root@, es@, i as int) =~= str_views(out@));
                },
                None => {
                    assert(str_views(out@) =~= str_views(out@) + Seq::<Seq<char>>::empty());
                },
            }
        },
        None => {
            assert(str_views(out@) =~= Seq::<Seq<char>>::empty());
        },
    }
    out
}

/// The presence list of a read covers exactly the files its state.yaml
/// refers to.
pub open spec fn read_well_formed(root: Seq<char>, read: WorkflowRead) -> bool {
    match read {
        WorkflowRead::Read { state, present, .. } => present@.len() == referenced_paths(root, state).len(),
        _ => true,
    }
}

/// Checks one workflow root and counts it once: passed when it produced no
/// failure.
pub fn validate_workflow(root: &str, read: &WorkflowRead, result: &mut CategoryResult)
    requires
        read_well_formed(root@, *read),
    ensures
        tally_of(*final(result)) == tally_item(tally_of(*old(result)), workflow_outcome(root@, *read)),
        final(result).category == old(result).category,
        final(result).skipped == old(result).skipped,
        final(result).duration_ms == old(result).duration_ms,
{
    let mut item: Vec<Failure> = Vec::new();
    match read {
        WorkflowRead::PlanUnreadable(e) => {
            let mut m = owned("read failed: ");
            let p = join(root, "PLAN.md");
            push_str(&mut m, p.as_str());
            item.push(Failure {
                fixture: owned(root),
                category: Category::Workflow,
                kind: FailureKind::Io,
                message: m,
                details: Some(e.clone()),
            });
        },
        WorkflowRead::StateUnreadable(e) => {
            let mut m = owned("read failed: ");
            let p = join(root, "state.yaml");
            push_str(&mut m, p.as_str());
            item.push(Failure {
                fixture: owned(root),
                category: Category::Workflow,
                kind: FailureKind::Io,
                message: m,
                details: Some(e.clone()),
            });
        },
        WorkflowRead::Read { plan, state, present } => {
            let none: Option<String> = None;
            let no_handoffs: Option<Handoffs> = None;
            let no_entries: Vec<HandoffFile> = Vec::new();
            let no_phases: Vec<(String, PhaseEntry)> = Vec::new();
            let (pa, pc) = match plan {
                PlanFront::Parsed(p) => (&p.plan_id, &p.current_phase),
                _ => (&none, &none),
            };
            let (sa, sc, h, ph) = match state {
                Ok(s) => (
                    &s.plan_id,
                    match &s.execution {
                        Some(e) => &e.current_phase,
                        None => &none,
                    },
                    &s.handoffs,
                    match &s.phases {
                        Some(p) => p,
                        None => &no_phases,
                    },
                ),
                Err(_) => (&none, &none, &no_handoffs, &no_phases),
            };
            let (last, es) = match h {
                Some(h) => (
                    &h.last_handoff,
                    match &h.handoff_files {
                        Some(f) => f,
                        None => &no_entries,
                    },
                ),
                None => (&none, &no_entries),
            };
            assert(opt_view(*last) == state_last_handoff(*state));
            assert(es@ == state_handoff_files(*state));
            assert(ph@ == state_phases(*state));
            let mut ids: Vec<String> = Vec::new();
            collect_phase_ids(ph, &mut ids);
            plan_front_failures(&mut item, root, plan);
            state_parse_failures(&mut item, root, state);
            plan_id_failures(&mut item, root, pa, sa);
            current_phase_failures(&mut item, root, pc, sc);
            last_handoff_failures(&mut item, root, last, present);
            let j0: usize = if last.is_some() { 1 } else { 0 };
            entries_failures(&mut item, root, es, present, j0, &ids, Ghost(ph@));
            assert(failure_views(item@) =~= workflow_outcome(root@, *read));
        },
    }
    assert(failure_views(item@) =~= workflow_outcome(root@, *read));
    result.record_item(item);
}

// ---------------------------------------------------------------------------
// Discovery and the validator entry point
// ---------------------------------------------------------------------------

/// The workflow roots under `target` (directories holding both `PLAN.md`
/// and `state.yaml`; nothing below a root is searched), in processing order.
pub fn discover_workflow_roots(target: &str, root: &Node) -> (r: Result<Vec<String>, String>)
    ensures
        match walk_spec(target@, *root, ClaimRule::Workflow) {
            Ok(w) => r matches Ok(v) && sorted_paths(v@) && str_views(v@).to_multiset() == w.1.to_multiset(),
            Err(e) => r matches Err(m) && m@ == e,
        },
{
    match walk(target, root, ClaimRule::Workflow) {
        Ok((_, claimed)) => Ok(sort_paths(claimed)),
        Err(e) => Err(e),
    }
}

/// Whether every read's presence list matches its references.
pub open spec fn reads_well_formed(reads: Seq<(String, WorkflowRead)>) -> bool {
    forall|k: int| 0 <= k < reads.len() ==> read_well_formed((#[trigger] reads[k]).0@, reads[k].1)
}

/// Validates every workflow root (each with what was read of it), in order;
/// when the tree could not be enumerated, records that one failure instead.
pub fn run(target: &str, listing: Result<Vec<(String, WorkflowRead)>, String>, result: &mut CategoryResult)
    requires
        listing matches Ok(reads) ==> reads_well_formed(reads@),
    ensures
        final(result).category == old(result).category,
        final(result).skipped == old(result).skipped,
        final(result).duration_ms == old(result).duration_ms,
        match listing {
            Err(e) => tally_of(*final(result)) == tally_item(
                tally_of(*old(result)),
                seq![enumeration_failure(Category::Workflow, target@, e@)],
            ),
            Ok(reads) => tally_of(*final(result)) == tally_items(
                tally_of(*old(result)),
                reads@.map_values(|w: (String, WorkflowRead)| workflow_outcome(w.0@, w.1)),
            ),
        },
{
    match listing {
        Err(e) => {
            result.record_enumeration_failure(Category::Workflow, target, e.as_str());
        },
        Ok(reads) => {
            let ghost t0 = tally_of(*result);
            let ghost outcomes = reads@.map_values(|w: (String, WorkflowRead)| workflow_outcome(w.0@, w.1));
            let mut i: usize = 0;
            while i < reads.len()
                invariant
                    i <= reads@.len(),
                    reads_well_formed(reads@),
                    outcomes == reads@.map_values(|w: (String, WorkflowRead)| workflow_outcome(w.0@, w.1)),
                    tally_of(*result) == tally_items(t0, outcomes.subrange(0, i as int)),
                    result.category == old(result).category,
                    result.skipped == old(result).skipped,
                    result.duration_ms == old(result).duration_ms,
                decreases reads@.len() - i,
            {
                assert(read_well_formed(reads@[i as int].0@, reads@[i as int].1));
                validate_workflow(reads[i].0.as_str(), &reads[i].1, result);
                assert(outcomes.subrange(0, i + 1).drop_last() =~= outcomes.subrange(0, i as int));
                i = i + 1;
            }
            assert(outcomes.subrange(0, reads@.len() as int) =~= outcomes);
        },
    }
}

} // verus!
