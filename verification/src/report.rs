//! Report assembly and the exit-code table.
use vstd::prelude::*;
use crate::{category_name, Category, CategoryResult, Error, Failure, Report, RWP_VERSION};
use crate::validators::schema::{has_infix, occurs_at_spec};
use crate::text::{decimal, owned, push_decimal, push_spaces, push_str, spaces, chars_of};

verus! {

/// The exit code of a single failing category.
pub open spec fn category_code(c: Category) -> u8 {
    match c {
        Category::Schema => 1,
        Category::Template => 2,
        Category::Workflow => 3,
        Category::Adapter => 4,
        Category::Grammar => 5,
    }
}

/// The categories with at least one failure, in report order.
pub open spec fn failing_categories(cs: Seq<CategoryResult>) -> Seq<Category>
    decreases cs.len(),
{
    if cs.len() == 0 {
        Seq::empty()
    } else {
        let rest = failing_categories(cs.drop_last());
        if cs.last().failed > 0 {
            rest.push(cs.last().category)
        } else {
            rest
        }
    }
}

/// Exit code for a report: 0 when nothing failed, the category's own code
/// when exactly one category failed, 6 when several did.
pub open spec fn exit_code_for(cs: Seq<CategoryResult>) -> u8 {
    let f = failing_categories(cs);
    if f.len() == 0 {
        0
    } else if f.len() == 1 {
        category_code(f[0])
    } else {
        6
    }
}

/// Every category result has zero failures.
pub open spec fn all_passed(cs: Seq<CategoryResult>) -> bool {
    forall|i: int| 0 <= i < cs.len() ==> cs[i].failed == 0
}

pub fn category_exit_code(c: Category) -> (r: u8)
    ensures
        r == category_code(c),
{
    match c {
        Category::Schema => 1,
        Category::Template => 2,
        Category::Workflow => 3,
        Category::Adapter => 4,
        Category::Grammar => 5,
    }
}

/// Maps a report to the exit-code table.
pub fn report_exit_code(report: &Report) -> (r: u8)
    ensures
        r == exit_code_for(report.categories@),
{
    let cats = &report.categories;
    let mut failed: Vec<Category> = Vec::new();
    let mut i: usize = 0;
    while i < cats.len()
        invariant
            i <= cats@.len(),
            failed@ == failing_categories(cats@.subrange(0, i as int)),
        decreases cats@.len() - i,
    {
        assert(cats@.subrange(0, i + 1).drop_last() =~= cats@.subrange(0, i as int));
        if cats[i].failed > 0 {
            failed.push(cats[i].category);
        }
        i = i + 1;
    }
    assert(cats@.subrange(0, cats@.len() as int) =~= cats@);
    if failed.len() == 0 {
        0
    } else if failed.len() == 1 {
        category_exit_code(failed[0])
    } else {
        6
    }
}

/// Exit code of a library error: 11 for I/O, 12 otherwise.
pub fn error_exit_raw(err: &Error) -> (r: u8)
    ensures
        r == (match err {
            Error::Io { .. } => 11u8,
            _ => 12u8,
        }),
{
    match err {
        Error::Io { .. } => 11,
        Error::FixtureParse { .. } | Error::Internal(_) => 12,
    }
}

/// Whether every category result has zero failures.
pub fn categories_all_passed(cs: &Vec<CategoryResult>) -> (r: bool)
    ensures
        r == all_passed(cs@),
{
    let mut i: usize = 0;
    while i < cs.len()
        invariant
            i <= cs@.len(),
            forall|k: int| 0 <= k < i ==> cs@[k].failed == 0,
        decreases cs@.len() - i,
    {
        if cs[i].failed != 0 {
            return false;
        }
        i = i + 1;
    }
    true
}

/// The categories a run covers, in order: those asked for, or all five
/// (in canonical order) when none were.
pub fn selected_categories(requested: &[Category]) -> (r: Vec<Category>)
    ensures
        r@ == (if requested@.len() == 0 {
            seq![Category::Schema, Category::Template, Category::Workflow, Category::Adapter, Category::Grammar]
        } else {
            requested@
        }),
{
    if requested.len() == 0 {
        let r = vec![Category::Schema, Category::Template, Category::Workflow, Category::Adapter, Category::Grammar];
        assert(r@ =~= seq![Category::Schema, Category::Template, Category::Workflow, Category::Adapter, Category::Grammar]);
        r
    } else {
        let mut r: Vec<Category> = Vec::new();
        let mut i: usize = 0;
        while i < requested.len()
            invariant
                i <= requested@.len(),
                r@ == requested@.subrange(0, i as int),
            decreases requested@.len() - i,
        {
            r.push(requested[i]);
            assert(r@ =~= requested@.subrange(0, i + 1));
            i = i + 1;
        }
        assert(requested@.subrange(0, requested@.len() as int) =~= requested@);
        r
    }
}

/// Builds the report for a finished run.
pub fn assemble_report(
    tool_version: String,
    started_at: String,
    completed_at: String,
    target_path: String,
    categories: Vec<CategoryResult>,
    total_duration_ms: u64,
) -> (r: Report)
    ensures
        r.rhumb_validate_version == tool_version,
        r.rwp_version@ == RWP_VERSION@,
        r.started_at == started_at,
        r.completed_at == completed_at,
        r.target_path == target_path,
        r.categories@ == categories@,
        r.overall_passed == all_passed(categories@),
        r.total_duration_ms == total_duration_ms,
{
    let overall_passed = categories_all_passed(&categories);
    Report {
        rhumb_validate_version: tool_version,
        rwp_version: owned(RWP_VERSION),
        started_at,
        completed_at,
        target_path,
        categories,
        overall_passed,
        total_duration_ms,
    }
}

proof fn lemma_failing_empty_iff_all_passed(cs: Seq<CategoryResult>)
    ensures
        failing_categories(cs).len() == 0 <==> all_passed(cs),
    decreases cs.len(),
{
    if cs.len() > 0 {
        lemma_failing_empty_iff_all_passed(cs.drop_last());
        if all_passed(cs.drop_last()) && cs.last().failed == 0 {
            assert forall|i: int| 0 <= i < cs.len() implies cs[i].failed == 0 by {
                if i < cs.len() - 1 {
                    assert(cs.drop_last()[i] == cs[i]);
                }
            }
        }
        if all_passed(cs) {
            assert forall|i: int| 0 <= i < cs.drop_last().len() implies cs.drop_last()[i].failed == 0 by {
                assert(cs.drop_last()[i] == cs[i]);
            }
        }
    }
}

/// The exit code is 0 exactly when no category failed.
pub proof fn law_exit_code_zero_iff_all_passed(cs: Seq<CategoryResult>)
    ensures
        (exit_code_for(cs) == 0) <==> all_passed(cs),
{
    lemma_failing_empty_iff_all_passed(cs);
}

/// What a run reports of a category apart from its timing: the category,
/// the counters and the failures (each validator's contract fixes these
/// from what it read of the tree).
pub open spec fn category_outcome(c: CategoryResult) -> (Category, u32, u32, u32, Seq<crate::FailureView>) {
    (c.category, c.passed, c.failed, c.skipped, crate::failure_views(c.failures@))
}

pub open spec fn same_outcomes(a: Seq<CategoryResult>, b: Seq<CategoryResult>) -> bool {
    a.len() == b.len() && forall|i: int| 0 <= i < a.len() ==> category_outcome(#[trigger] a[i]) == category_outcome(
        b[i],
    )
}

/// Two runs whose categories have the same outcomes (as two runs over the
/// same tree do) report the same overall result and the same exit code,
/// whatever their timestamps and durations.
pub proof fn law_reports_agree_apart_from_timing(a: Seq<CategoryResult>, b: Seq<CategoryResult>)
    requires
        same_outcomes(a, b),
    ensures
        all_passed(a) == all_passed(b),
        exit_code_for(a) == exit_code_for(b),
{
    assert forall|i: int| 0 <= i < a.len() implies a[i].failed == b[i].failed by {
        assert(category_outcome(a[i]) == category_outcome(b[i]));
    }
    lemma_same_failing(a, b);
}

/// Two reports agree apart from their timestamps and durations.
pub open spec fn agree_apart_from_timing(a: Report, b: Report) -> bool {
    &&& a.rhumb_validate_version@ == b.rhumb_validate_version@
    &&& a.rwp_version@ == b.rwp_version@
    &&& a.target_path@ == b.target_path@
    &&& same_outcomes(a.categories@, b.categories@)
    &&& a.overall_passed == b.overall_passed
}

/// Two reports assembled (see [`assemble_report`]) for the same tool and
/// target from category results with the same outcomes, as two runs over
/// the same tree give, agree in every field but the timestamps and
/// durations, and map to the same exit code.
pub proof fn law_runs_over_same_tree_agree(a: Report, b: Report)
    requires
        a.overall_passed == all_passed(a.categories@),
        b.overall_passed == all_passed(b.categories@),
        a.rhumb_validate_version@ == b.rhumb_validate_version@,
        a.rwp_version@ == b.rwp_version@,
        a.target_path@ == b.target_path@,
        same_outcomes(a.categories@, b.categories@),
    ensures
        agree_apart_from_timing(a, b),
        exit_code_for(a.categories@) == exit_code_for(b.categories@),
{
    law_reports_agree_apart_from_timing(a.categories@, b.categories@);
}

proof fn lemma_same_failing(a: Seq<CategoryResult>, b: Seq<CategoryResult>)
    requires
        same_outcomes(a, b),
    ensures
        failing_categories(a) == failing_categories(b),
    decreases a.len(),
{
    if a.len() > 0 {
        assert(category_outcome(a.last()) == category_outcome(b.last())) by {
            assert(category_outcome(a[a.len() - 1]) == category_outcome(b[b.len() - 1]));
        }
        assert forall|i: int| 0 <= i < a.drop_last().len() implies category_outcome(
            #[trigger] a.drop_last()[i],
        ) == category_outcome(b.drop_last()[i]) by {
            assert(category_outcome(a[i]) == category_outcome(b[i]));
        }
        lemma_same_failing(a.drop_last(), b.drop_last());
    }
}

/// The exit code of an assembled report is 0 exactly when it reports an
/// overall pass.
pub proof fn law_report_exit_code_matches_overall(r: Report)
    requires
        r.overall_passed == all_passed(r.categories@),
    ensures
        (exit_code_for(r.categories@) == 0) == r.overall_passed,
{
    law_exit_code_zero_iff_all_passed(r.categories@);
}

// ---------------------------------------------------------------------------
// The text rendering of a report
// ---------------------------------------------------------------------------

/// `s` padded on the right with spaces to `width` characters.
pub open spec fn pad_right(s: Seq<char>, width: nat) -> Seq<char> {
    if s.len() >= width {
        s
    } else {
        s + spaces((width - s.len()) as nat)
    }
}

/// `s` padded on the left with spaces to `width` characters.
pub open spec fn pad_left(s: Seq<char>, width: nat) -> Seq<char> {
    if s.len() >= width {
        s
    } else {
        spaces((width - s.len()) as nat) + s
    }
}

/// The lines of `t[start..]` as `str::lines` gives them (with `i` scanned
/// up to): split after each '\n', which is dropped together with a '\r'
/// just before it; no empty line after a final '\n'.
pub open spec fn lines_from(t: Seq<char>, start: int, i: int) -> Seq<Seq<char>>
    decreases t.len() - i,
{
    if start < 0 || i < start || i >= t.len() {
        if 0 <= start < t.len() {
            seq![t.subrange(start, t.len() as int)]
        } else {
            Seq::empty()
        }
    } else if t[i] == '\n' {
        let line = t.subrange(start, i);
        let stripped = if line.len() > 0 && line.last() == '\r' {
            line.drop_last()
        } else {
            line
        };
        seq![stripped] + lines_from(t, i + 1, i + 1)
    } else {
        lines_from(t, start, i + 1)
    }
}

/// One row of the category table.
pub open spec fn table_row(c: CategoryResult) -> Seq<char> {
    pad_right(category_name(c.category), 11) + " "@ + pad_left(decimal(c.passed as nat), 6) + "  "@ + pad_left(
        decimal(c.failed as nat),
        6,
    ) + "  "@ + pad_left(decimal(c.skipped as nat), 7) + "  "@ + pad_left(decimal(c.duration_ms as nat), 12) + "\n"@
}

pub open spec fn table_rows(cs: Seq<CategoryResult>) -> Seq<char>
    decreases cs.len(),
{
    if cs.len() == 0 {
        Seq::empty()
    } else {
        table_rows(cs.drop_last()) + table_row(cs.last())
    }
}

/// The indented detail lines of a failure.
pub open spec fn detail_lines(ls: Seq<Seq<char>>) -> Seq<char>
    decreases ls.len(),
{
    if ls.len() == 0 {
        Seq::empty()
    } else {
        detail_lines(ls.drop_last()) + "      "@ + ls.last() + "\n"@
    }
}

/// One failure of the category `c`, with its details.
pub open spec fn failure_text(c: Category, f: Failure) -> Seq<char> {
    "  ["@ + category_name(c) + "] "@ + f.fixture@ + " \u{2014} "@ + f.message@ + "\n"@ + match f.details {
        Some(d) => detail_lines(lines_from(d@, 0, 0)),
        None => Seq::empty(),
    }
}

pub open spec fn failures_of(c: Category, fs: Seq<Failure>) -> Seq<char>
    decreases fs.len(),
{
    if fs.len() == 0 {
        Seq::empty()
    } else {
        failures_of(c, fs.drop_last()) + failure_text(c, fs.last())
    }
}

pub open spec fn failures_text(cs: Seq<CategoryResult>) -> Seq<char>
    decreases cs.len(),
{
    if cs.len() == 0 {
        Seq::empty()
    } else {
        failures_text(cs.drop_last()) + failures_of(cs.last().category, cs.last().failures@)
    }
}

pub open spec fn any_failures(cs: Seq<CategoryResult>) -> bool {
    exists|i: int| 0 <= i < cs.len() && (#[trigger] cs[i]).failures@.len() > 0
}

/// The human-readable rendering of a report.
pub open spec fn report_text(r: Report) -> Seq<char> {
    let cs = r.categories@;
    let head = "rhumb-validate "@ + r.rhumb_validate_version@ + " (RWP "@ + r.rwp_version@ + ")\n"@ + "target: "@
        + r.target_path@ + "\n"@ + "started: "@ + r.started_at@ + "    completed: "@ + r.completed_at@
        + "    duration: "@ + decimal(r.total_duration_ms as nat) + " ms\n"@ + "\n"@;
    let body = if cs.len() == 0 {
        "(no categories executed \u{2014} placeholder run)\n"@
    } else {
        "Category    Passed  Failed  Skipped  Duration(ms)\n"@ + "--------    ------  ------  -------  ------------\n"@
            + table_rows(cs) + if any_failures(cs) {
            "\nFailures:\n"@ + failures_text(cs)
        } else {
            Seq::empty()
        }
    };
    head + body + "\n"@ + if r.overall_passed {
        "RESULT: PASS\n"@
    } else {
        "RESULT: FAIL\n"@
    }
}

proof fn lemma_infix_extends(s: Seq<char>, t: Seq<char>, u: Seq<char>)
    requires
        has_infix(s, t),
    ensures
        has_infix(s + u, t),
        has_infix(u + s, t),
{
    let i = choose|i: int| #[trigger] occurs_at_spec(s, t, i);
    assert((s + u).subrange(i, i + t.len()) =~= s.subrange(i, i + t.len()));
    assert(occurs_at_spec(s + u, t, i));
    assert((u + s).subrange(u.len() + i, u.len() + i + t.len()) =~= s.subrange(i, i + t.len()));
    assert(occurs_at_spec(u + s, t, u.len() + i));
}

proof fn lemma_prefix_is_infix(s: Seq<char>, u: Seq<char>)
    ensures
        has_infix(s + u, s),
{
    assert((s + u).subrange(0, s.len() as int) =~= s);
    assert(occurs_at_spec(s + u, s, 0));
}

proof fn lemma_failure_line_in_failures_of(c: Category, fs: Seq<Failure>, j: int)
    requires
        0 <= j < fs.len(),
    ensures
        has_infix(
            failures_of(c, fs),
            "  ["@ + category_name(c) + "] "@ + fs[j].fixture@ + " \u{2014} "@ + fs[j].message@ + "\n"@,
        ),
    decreases fs.len(),
{
    let f = fs[j];
    let line = "  ["@ + category_name(c) + "] "@ + f.fixture@ + " \u{2014} "@ + f.message@ + "\n"@;
    if j == fs.len() - 1 {
        let rest = match f.details {
            Some(d) => detail_lines(lines_from(d@, 0, 0)),
            None => Seq::<char>::empty(),
        };
        assert(failure_text(c, f) == line + rest);
        lemma_prefix_is_infix(line, rest);
        lemma_infix_extends(failure_text(c, f), line, failures_of(c, fs.drop_last()));
    } else {
        assert(fs.drop_last()[j] == f);
        lemma_failure_line_in_failures_of(c, fs.drop_last(), j);
        lemma_infix_extends(failures_of(c, fs.drop_last()), line, failure_text(c, fs.last()));
    }
}

proof fn lemma_failure_line_in_failures_text(cs: Seq<CategoryResult>, i: int, j: int)
    requires
        0 <= i < cs.len(),
        0 <= j < cs[i].failures@.len(),
    ensures
        has_infix(
            failures_text(cs),
            "  ["@ + category_name(cs[i].category) + "] "@ + cs[i].failures@[j].fixture@ + " \u{2014} "@
                + cs[i].failures@[j].message@ + "\n"@,
        ),
    decreases cs.len(),
{
    let f = cs[i].failures@[j];
    let line = "  ["@ + category_name(cs[i].category) + "] "@ + f.fixture@ + " \u{2014} "@ + f.message@ + "\n"@;
    if i == cs.len() - 1 {
        lemma_failure_line_in_failures_of(cs[i].category, cs[i].failures@, j);
        lemma_infix_extends(failures_of(cs.last().category, cs.last().failures@), line, failures_text(cs.drop_last()));
    } else {
        assert(cs.drop_last()[i] == cs[i]);
        lemma_failure_line_in_failures_text(cs.drop_last(), i, j);
        lemma_infix_extends(failures_text(cs.drop_last()), line, failures_of(cs.last().category, cs.last().failures@));
    }
}

/// The text report lists every failure of every category: whatever
/// category it belongs to, each failure has its own line
/// of the category name in brackets, the fixture, an em dash and the
/// message, under a `Failures:` heading.
pub proof fn law_text_lists_every_failure(r: Report, i: int, j: int)
    requires
        0 <= i < r.categories@.len(),
        0 <= j < r.categories@[i].failures@.len(),
    ensures
        has_infix(report_text(r), "\nFailures:\n"@),
        has_infix(
            report_text(r),
            "  ["@ + category_name(r.categories@[i].category) + "] "@ + r.categories@[i].failures@[j].fixture@
                + " \u{2014} "@ + r.categories@[i].failures@[j].message@ + "\n"@,
        ),
{
    let cs = r.categories@;
    let f = cs[i].failures@[j];
    let line = "  ["@ + category_name(cs[i].category) + "] "@ + f.fixture@ + " \u{2014} "@ + f.message@ + "\n"@;
    assert(any_failures(cs));
    let fl = "\nFailures:\n"@ + failures_text(cs);
    lemma_failure_line_in_failures_text(cs, i, j);
    lemma_infix_extends(failures_text(cs), line, "\nFailures:\n"@);
    lemma_prefix_is_infix("\nFailures:\n"@, failures_text(cs));
    let top = "Category    Passed  Failed  Skipped  Duration(ms)\n"@ + "--------    ------  ------  -------  ------------\n"@
        + table_rows(cs);
    let head = "rhumb-validate "@ + r.rhumb_validate_version@ + " (RWP "@ + r.rwp_version@ + ")\n"@ + "target: "@
        + r.target_path@ + "\n"@ + "started: "@ + r.started_at@ + "    completed: "@ + r.completed_at@
        + "    duration: "@ + decimal(r.total_duration_ms as nat) + " ms\n"@ + "\n"@;
    let body = top + fl;
    let tail = if r.overall_passed {
        "RESULT: PASS\n"@
    } else {
        "RESULT: FAIL\n"@
    };
    assert(report_text(r) == head + body + "\n"@ + tail);
    lemma_infix_extends(fl, line, top);
    lemma_infix_extends(body, line, head);
    lemma_infix_extends(head + body, line, "\n"@);
    lemma_infix_extends(head + body + "\n"@, line, tail);
    lemma_infix_extends(fl, "\nFailures:\n"@, top);
    lemma_infix_extends(body, "\nFailures:\n"@, head);
    lemma_infix_extends(head + body, "\nFailures:\n"@, "\n"@);
    lemma_infix_extends(head + body + "\n"@, "\nFailures:\n"@, tail);
}

fn push_padded_right(out: &mut String, s: &str, width: usize)
    ensures
        final(out)@ == old(out)@ + pad_right(s@, width as nat),
{
    let n = chars_of(s).len();
    push_str(out, s);
    if n < width {
        push_spaces(out, width - n);
    }
}

fn push_padded_number(out: &mut String, n: u64, width: usize)
    ensures
        final(out)@ == old(out)@ + pad_left(decimal(n as nat), width as nat),
{
    let d = crate::text::decimal_string(n as u128);
    let len = chars_of(d.as_str()).len();
    if len < width {
        push_spaces(out, width - len);
    }
    push_str(out, d.as_str());
}

/// Appends each line of `t` (see [`lines_from`]), indented, one per line.
fn push_detail_lines(out: &mut String, t: &str)
    ensures
        final(out)@ == old(out)@ + detail_lines(lines_from(t@, 0, 0)),
{
    let c = chars_of(t);
    let ghost start_out = out@;
    let ghost mut done: Seq<Seq<char>> = Seq::empty();
    let mut start: usize = 0;
    let mut i: usize = 0;
    while i < c.len()
        invariant
            start <= i <= c@.len(),
            c@ == t@,
            lines_from(t@, 0, 0) == done + lines_from(t@, start as int, i as int),
            out@ == start_out + detail_lines(done),
        decreases c@.len() - i,
    {
        if c[i] == '\n' {
            let mut end = i;
            if end > start && c[end - 1] == '\r' {
                end = end - 1;
            }
            let line = crate::text::string_of_chars(&c.as_slice()[start..end]);
            push_str(out, "      ");
            push_str(out, line.as_str());
            push_str(out, "\n");
            proof {
                let whole = c@.subrange(start as int, i as int);
                let stripped = if whole.len() > 0 && whole.last() == '\r' {
                    whole.drop_last()
                } else {
                    whole
                };
                assert(line@ =~= stripped);
                assert(lines_from(t@, start as int, i as int) == seq![stripped] + lines_from(t@, i + 1, i + 1));
                assert((done + seq![stripped]).drop_last() =~= done);
                assert(done + lines_from(t@, start as int, i as int) =~= (done + seq![stripped]) + lines_from(
                    t@,
                    i + 1,
                    i + 1,
                ));
                assert((done + seq![stripped]).last() == stripped);
                assert(detail_lines(done + seq![stripped]) == detail_lines(done) + "      "@ + stripped + "\n"@);
                done = done + seq![stripped];
                assert(out@ =~= start_out + detail_lines(done));
            }
            start = i + 1;
        }
        i = i + 1;
    }
    if start < c.len() {
        let line = crate::text::string_of_chars(&c.as_slice()[start..c.len()]);
        push_str(out, "      ");
        push_str(out, line.as_str());
        push_str(out, "\n");
        proof {
            let last = c@.subrange(start as int, c@.len() as int);
            assert(line@ =~= last);
            assert((done + seq![last]).drop_last() =~= done);
            assert((done + seq![last]).last() == last);
            assert(detail_lines(done + seq![last]) == detail_lines(done) + "      "@ + last + "\n"@);
            assert(done + seq![last] =~= lines_from(t@, 0, 0));
            assert(out@ =~= start_out + detail_lines(done + seq![last]));
        }
    } else {
        assert(done + Seq::<Seq<char>>::empty() =~= done);
    }
}

fn push_table_row(out: &mut String, c: &CategoryResult)
    ensures
        final(out)@ == old(out)@ + table_row(*c),
{
    let ghost prev = out@;
    push_padded_right(out, c.category.as_str(), 11);
    push_str(out, " ");
    push_padded_number(out, c.passed as u64, 6);
    push_str(out, "  ");
    push_padded_number(out, c.failed as u64, 6);
    push_str(out, "  ");
    push_padded_number(out, c.skipped as u64, 7);
    push_str(out, "  ");
    push_padded_number(out, c.duration_ms, 12);
    push_str(out, "\n");
    assert(out@ =~= prev + table_row(*c));
}

fn push_failure(out: &mut String, c: Category, f: &Failure)
    ensures
        final(out)@ == old(out)@ + failure_text(c, *f),
{
    let ghost start = out@;
    push_str(out, "  [");
    push_str(out, c.as_str());
    push_str(out, "] ");
    push_str(out, f.fixture.as_str());
    push_str(out, " \u{2014} ");
    push_str(out, f.message.as_str());
    push_str(out, "\n");
    let ghost mid = out@;
    match &f.details {
        Some(d) => push_detail_lines(out, d.as_str()),
        None => {},
    }
    assert(out@ =~= start + failure_text(c, *f));
}

/// The human-readable rendering of a report (see [`report_text`]).
pub fn render_text(report: &Report) -> (out: String)
    ensures
        out@ == report_text(*report),
{
    let cs = &report.categories;
    let mut out = owned("rhumb-validate ");
    push_str(&mut out, report.rhumb_validate_version.as_str());
    push_str(&mut out, " (RWP ");
    push_str(&mut out, report.rwp_version.as_str());
    push_str(&mut out, ")\n");
    push_str(&mut out, "target: ");
    push_str(&mut out, report.target_path.as_str());
    push_str(&mut out, "\n");
    push_str(&mut out, "started: ");
    push_str(&mut out, report.started_at.as_str());
    push_str(&mut out, "    completed: ");
    push_str(&mut out, report.completed_at.as_str());
    push_str(&mut out, "    duration: ");
    push_decimal(&mut out, report.total_duration_ms as u128);
    push_str(&mut out, " ms\n");
    push_str(&mut out, "\n");
    let ghost head = out@;
    if cs.len() == 0 {
        push_str(&mut out, "(no categories executed \u{2014} placeholder run)\n");
    } else {
        push_str(&mut out, "Category    Passed  Failed  Skipped  Duration(ms)\n");
        push_str(&mut out, "--------    ------  ------  -------  ------------\n");
        let ghost before_rows = out@;
        let mut i: usize = 0;
        while i < cs.len()
            invariant
                i <= cs@.len(),
                out@ == before_rows + table_rows(cs@.subrange(0, i as int)),
            decreases cs@.len() - i,
        {
            push_table_row(&mut out, &cs[i]);
            assert(cs@.subrange(0, i + 1).drop_last() =~= cs@.subrange(0, i as int));
            i = i + 1;
        }
        assert(cs@.subrange(0, cs@.len() as int) =~= cs@);
        let mut any = false;
        let mut k: usize = 0;
        while k < cs.len()
            invariant
                k <= cs@.len(),
                any == exists|q: int| 0 <= q < k && (#[trigger] cs@[q]).failures@.len() > 0,
            decreases cs@.len() - k,
        {
            if cs[k].failures.len() > 0 {
                any = true;
            }
            k = k + 1;
        }
        if any {
            push_str(&mut out, "\nFailures:\n");
            let ghost before_failures = out@;
            let mut i: usize = 0;
            while i < cs.len()
                invariant
                    i <= cs@.len(),
                    out@ == before_failures + failures_text(cs@.subrange(0, i as int)),
                decreases cs@.len() - i,
            {
                let c = &cs[i];
                let ghost prev = out@;
                let mut j: usize = 0;
                while j < c.failures.len()
                    invariant
                        j <= c.failures@.len(),
                        out@ == prev + failures_of(c.category, c.failures@.subrange(0, j as int)),
                    decreases c.failures@.len() - j,
                {
                    push_failure(&mut out, c.category, &c.failures[j]);
                    assert(c.failures@.subrange(0, j + 1).drop_last() =~= c.failures@.subrange(0, j as int));
                    j = j + 1;
                }
                assert(c.failures@.subrange(0, c.failures@.len() as int) =~= c.failures@);
                assert(cs@.subrange(0, i + 1).drop_last() =~= cs@.subrange(0, i as int));
                i = i + 1;
            }
            assert(cs@.subrange(0, cs@.len() as int) =~= cs@);
        }
    }
    push_str(&mut out, "\n");
    if report.overall_passed {
        push_str(&mut out, "RESULT: PASS\n");
    } else {
        push_str(&mut out, "RESULT: FAIL\n");
    }
    assert(out@ =~= report_text(*report));
    out
}

} // verus!
