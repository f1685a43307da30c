//! Conformance checking for Rhumb Workflow Protocol artifact trees.
//!
//! Five categories are checked: JSON documents against the RWP schemas,
//! templates against their canonical text, workflow trees for cross-file
//! consistency, integration adapters for manifest shape, and phase-sequence
//! files against the sequence grammar.
use vstd::prelude::*;
use crate::text::{owned, push_str, to_ascii_lowercase, ascii_lower};

pub mod fixtures;
pub mod report;
pub mod text;
pub mod validators;

verus! {

/// RWP protocol version this library checks against.
pub const RWP_VERSION: &'static str = "0.26.0";

/// Magic bytes at offset 0 of the embedded fixture blob.
pub const EMBEDDED_FIXTURES_MAGIC: [u8; 4] = [0x52, 0x56, 0x46, 0x00];

/// Format version stamped into the embedded fixture blob at bytes 4..8 (LE u32).
pub const EMBEDDED_FIXTURES_FORMAT_VERSION: u32 = 1;

/// The five conformance categories, in canonical order.
#[derive(Debug, Clone, Copy, PartialEq, Eq, Hash, Structural)]
pub enum Category {
    Schema,
    Template,
    Workflow,
    Adapter,
    Grammar,
}

/// The lower-case name of a category.
pub open spec fn category_name(c: Category) -> Seq<char> {
    match c {
        Category::Schema => "schema"@,
        Category::Template => "template"@,
        Category::Workflow => "workflow"@,
        Category::Adapter => "adapter"@,
        Category::Grammar => "grammar"@,
    }
}

/// What reading a category name gives: names match case-insensitively
/// (ASCII), anything else is refused with a message naming the input.
pub open spec fn category_from_name(s: Seq<char>) -> Result<Category, Seq<char>> {
    let l = s.map_values(|c: char| ascii_lower(c));
    if l == "schema"@ {
        Ok(Category::Schema)
    } else if l == "template"@ {
        Ok(Category::Template)
    } else if l == "workflow"@ {
        Ok(Category::Workflow)
    } else if l == "adapter"@ {
        Ok(Category::Adapter)
    } else if l == "grammar"@ {
        Ok(Category::Grammar)
    } else {
        Err("unknown category '"@ + l + "'; expected one of: schema, template, workflow, adapter, grammar"@)
    }
}

impl Category {
    /// Every category, in canonical order.
    pub const ALL: [Category; 5] = [
        Category::Schema,
        Category::Template,
        Category::Workflow,
        Category::Adapter,
        Category::Grammar,
    ];

    pub fn as_str(&self) -> (s: &'static str)
        ensures
            s@ == category_name(*self),
    {
        match self {
            Category::Schema => "schema",
            Category::Template => "template",
            Category::Workflow => "workflow",
            Category::Adapter => "adapter",
            Category::Grammar => "grammar",
        }
    }

    /// Reads a category from its name, ignoring ASCII case.
    pub fn from_name(s: &str) -> (r: Result<Category, String>)
        ensures
            match category_from_name(s@) {
                Ok(c) => r == Ok::<Category, String>(c),
                Err(m) => r matches Err(e) && e@ == m,
            },
    {
        let l = to_ascii_lowercase(s);
        if l == owned("schema") {
            Ok(Category::Schema)
        } else if l == owned("template") {
            Ok(Category::Template)
        } else if l == owned("workflow") {
            Ok(Category::Workflow)
        } else if l == owned("adapter") {
            Ok(Category::Adapter)
        } else if l == owned("grammar") {
            Ok(Category::Grammar)
        } else {
            let mut m = owned("unknown category '");
            push_str(&mut m, l.as_str());
            push_str(&mut m, "'; expected one of: schema, template, workflow, adapter, grammar");
            Err(m)
        }
    }
}

impl std::str::FromStr for Category {
    type Err = String;

    fn from_str(s: &str) -> (r: Result<Category, String>)
        ensures
            match category_from_name(s@) {
                Ok(c) => r == Ok::<Category, String>(c),
                Err(m) => r matches Err(e) && e@ == m,
            },
    {
        Category::from_name(s)
    }
}

/// Reading back the name of any category gives that category.
pub proof fn law_category_name_round_trip(c: Category)
    ensures
        category_from_name(category_name(c)) == Ok::<Category, Seq<char>>(c),
{
    reveal_strlit("schema");
    reveal_strlit("template");
    reveal_strlit("workflow");
    reveal_strlit("adapter");
    reveal_strlit("grammar");
    let n = category_name(c);
    assert(n.map_values(|ch: char| ascii_lower(ch)) =~= n);
    assert("schema"@[0] == 's' && "template"@[0] == 't' && "workflow"@[0] == 'w' && "adapter"@[0] == 'a'
        && "grammar"@[0] == 'g');
}

/// Category names are read without regard to ASCII case.
pub proof fn law_category_names_ignore_case(s: Seq<char>)
    ensures
        category_from_name(s) == category_from_name(s.map_values(|c: char| ascii_lower(c))),
{
    let l = s.map_values(|c: char| ascii_lower(c));
    assert(l.map_values(|c: char| ascii_lower(c)) =~= l);
}

/// Classification of failures.
#[derive(Debug, Clone, Copy, PartialEq, Eq, Structural)]
pub enum FailureKind {
    SchemaMismatch,
    TemplateRenderDiff,
    WorkflowBreak,
    AdapterShapeMismatch,
    GrammarViolation,
    Io,
    Internal,
}

/// One failure, with enough context for a human or CI to act on it.
#[derive(Debug, Clone)]
pub struct Failure {
    pub fixture: String,
    pub category: Category,
    pub kind: FailureKind,
    pub message: String,
    pub details: Option<String>,
}

/// Result of a single validator run.
#[derive(Debug, Clone)]
pub struct CategoryResult {
    pub category: Category,
    pub passed: u32,
    pub failed: u32,
    pub skipped: u32,
    pub failures: Vec<Failure>,
    pub duration_ms: u64,
}

impl CategoryResult {
    pub fn empty(category: Category) -> (r: Self)
        ensures
            r.category == category,
            r.passed == 0,
            r.failed == 0,
            r.skipped == 0,
            r.failures@.len() == 0,
            r.duration_ms == 0,
    {
        CategoryResult { category, passed: 0, failed: 0, skipped: 0, failures: Vec::new(), duration_ms: 0 }
    }
}

/// Aggregate report over the categories that were run.
#[derive(Debug, Clone)]
pub struct Report {
    pub rhumb_validate_version: String,
    pub rwp_version: String,
    pub started_at: String,
    pub completed_at: String,
    pub target_path: String,
    pub categories: Vec<CategoryResult>,
    pub overall_passed: bool,
    pub total_duration_ms: u64,
}

/// A file found in the target tree: its path and its contents, or the text
/// of the error met reading it.
#[derive(Debug)]
pub struct Source<T> {
    pub path: String,
    pub contents: Result<T, String>,
}

/// A failure as plain values: fixture, category, kind, message, details.
pub type FailureView = (Seq<char>, Category, FailureKind, Seq<char>, Option<Seq<char>>);

pub open spec fn opt_view(o: Option<String>) -> Option<Seq<char>> {
    match o {
        Some(s) => Some(s@),
        None => None,
    }
}

impl View for Failure {
    type V = FailureView;

    open spec fn view(&self) -> FailureView {
        (self.fixture@, self.category, self.kind, self.message@, opt_view(self.details))
    }
}

pub open spec fn failure_views(v: Seq<Failure>) -> Seq<FailureView> {
    v.map_values(|f: Failure| f@)
}

/// Counters and failures of a category result.
pub type Tally = (u32, u32, Seq<FailureView>);

pub open spec fn tally_of(r: CategoryResult) -> Tally {
    (r.passed, r.failed, failure_views(r.failures@))
}

pub open spec fn saturating_inc(x: u32) -> u32 {
    if x < u32::MAX {
        (x + 1) as u32
    } else {
        x
    }
}

/// Counting one fixture: no failures counts it passed; otherwise it counts
/// once as failed, however many failures it produced, and all are kept.
pub open spec fn tally_item(t: Tally, item: Seq<FailureView>) -> Tally {
    if item.len() == 0 {
        (saturating_inc(t.0), t.1, t.2)
    } else {
        (t.0, saturating_inc(t.1), t.2 + item)
    }
}

/// Counting fixtures in order.
pub open spec fn tally_items(t: Tally, items: Seq<Seq<FailureView>>) -> Tally
    decreases items.len(),
{
    if items.len() == 0 {
        t
    } else {
        tally_item(tally_items(t, items.drop_last()), items.last())
    }
}

/// Each fixture counts exactly once, as passed when it produced no failure
/// and as failed otherwise, however many failures it produced; all of them
/// are kept, in order (while neither counter is saturated).
pub proof fn law_each_fixture_counts_once(t: Tally, item: Seq<FailureView>)
    requires
        t.0 < u32::MAX,
        t.1 < u32::MAX,
    ensures
        tally_item(t, item).0 + tally_item(t, item).1 == t.0 + t.1 + 1,
        (tally_item(t, item).0 == t.0 + 1) == (item.len() == 0),
        tally_item(t, item).2 == t.2 + item,
{
    if item.len() == 0 {
        assert(t.2 + item =~= t.2);
    }
}

/// The one failure recorded when the target tree cannot be enumerated.
pub open spec fn enumeration_failure(category: Category, target: Seq<char>, err: Seq<char>) -> FailureView {
    (target, category, FailureKind::Io, "failed to enumerate target tree: "@ + err, None)
}

impl CategoryResult {
    /// Counts one fixture with the failures it produced (none: passed).
    pub fn record_item(&mut self, item: Vec<Failure>)
        ensures
            tally_of(*final(self)) == tally_item(tally_of(*old(self)), failure_views(item@)),
            final(self).category == old(self).category,
            final(self).skipped == old(self).skipped,
            final(self).duration_ms == old(self).duration_ms,
    {
        if item.len() == 0 {
            if self.passed < u32::MAX {
                self.passed = self.passed + 1;
            }
        } else {
            let ghost before = self.failures@;
            let mut item = item;
            let ghost it = item@;
            self.failures.append(&mut item);
            assert(failure_views(self.failures@) =~= failure_views(before) + failure_views(it));
            if self.failed < u32::MAX {
                self.failed = self.failed + 1;
            }
        }
    }

    /// Records that the target tree could not be enumerated.
    pub fn record_enumeration_failure(&mut self, category: Category, target: &str, err: &str)
        ensures
            tally_of(*final(self)) == tally_item(
                tally_of(*old(self)),
                seq![enumeration_failure(category, target@, err@)],
            ),
            final(self).category == old(self).category,
            final(self).skipped == old(self).skipped,
            final(self).duration_ms == old(self).duration_ms,
    {
        let mut message = owned("failed to enumerate target tree: ");
        push_str(&mut message, err);
        let f = Failure {
            fixture: owned(target),
            category,
            kind: FailureKind::Io,
            message,
            details: None,
        };
        let item = vec![f];
        assert(failure_views(item@) =~= seq![enumeration_failure(category, target@, err@)]);
        self.record_item(item);
    }
}

#[verifier::external_type_specification]
#[verifier::external_body]
pub struct ExIoError(std::io::Error);

/// Errors surfaced to callers for exit-code dispatch.
#[derive(Debug)]
pub enum Error {
    Io { path: String, source: std::io::Error },
    FixtureParse { fixture: String, message: String },
    Internal(String),
}

/// A timestamp as plain values: the local calendar date and clock time, and
/// the offset from UTC (hours, minutes and seconds, of one sign).
#[derive(Debug, Clone, Copy, PartialEq, Eq, Structural)]
pub struct Timestamp {
    pub year: i32,
    pub month: u8,
    pub day: u8,
    pub hour: u8,
    pub minute: u8,
    pub second: u8,
    pub nanosecond: u32,
    pub offset_hours: i8,
    pub offset_minutes: i8,
    pub offset_seconds: i8,
}

pub open spec fn is_leap_year(y: int) -> bool {
    y % 4 == 0 && (y % 100 != 0 || y % 400 == 0)
}

pub open spec fn days_in_month(y: int, m: int) -> int {
    if m == 2 {
        if is_leap_year(y) { 29 } else { 28 }
    } else if m == 4 || m == 6 || m == 9 || m == 11 {
        30
    } else {
        31
    }
}

/// A timestamp the `time` crate can hold: a real calendar date in years
/// -9999..=9999, a clock time, and an offset within +-25:59:59 whose
/// components share one sign.
pub open spec fn valid_timestamp(t: Timestamp) -> bool {
    &&& -9999 <= t.year <= 9999
    &&& 1 <= t.month <= 12
    &&& 1 <= t.day <= days_in_month(t.year as int, t.month as int)
    &&& t.hour < 24 && t.minute < 60 && t.second < 60 && t.nanosecond < 1_000_000_000
    &&& -25 <= t.offset_hours <= 25 && -59 <= t.offset_minutes <= 59 && -59 <= t.offset_seconds <= 59
    &&& (t.offset_hours >= 0 && t.offset_minutes >= 0 && t.offset_seconds >= 0) || (t.offset_hours <= 0
        && t.offset_minutes <= 0 && t.offset_seconds <= 0)
}

/// `n` (below 10^k) in `k` decimal digits, zero-padded.
pub open spec fn padded(n: nat, k: nat) -> Seq<char>
    decreases k,
{
    if k == 0 {
        Seq::empty()
    } else {
        padded(n / 10, (k - 1) as nat).push(crate::text::digit_char(n % 10))
    }
}

/// `s` without its trailing '0' characters.
pub open spec fn trim_zeros(s: Seq<char>) -> Seq<char>
    decreases s.len(),
{
    if s.len() > 0 && s.last() == '0' {
        trim_zeros(s.drop_last())
    } else {
        s
    }
}

/// The RFC 3339 text the `time` crate writes for a timestamp:
/// `YYYY-MM-DDTHH:MM:SS`, `.` and the nanoseconds' nine digits without
/// trailing zeros when they are not zero, then `Z` for a zero offset and
/// `+HH:MM` / `-HH:MM` otherwise. None when the year is outside 0..=9999,
/// the offset's hours exceed 23, or the offset has seconds.
pub open spec fn rfc3339_spec(t: Timestamp) -> Option<Seq<char>> {
    let oh = if t.offset_hours < 0 { -t.offset_hours } else { t.offset_hours as int };
    let om = if t.offset_minutes < 0 { -t.offset_minutes } else { t.offset_minutes as int };
    if !(0 <= t.year <= 9999) || oh > 23 || t.offset_seconds != 0 {
        None
    } else {
        let clock = padded(t.year as nat, 4) + seq!['-'] + padded(t.month as nat, 2) + seq!['-'] + padded(
            t.day as nat,
            2,
        ) + seq!['T'] + padded(t.hour as nat, 2) + seq![':'] + padded(t.minute as nat, 2) + seq![':'] + padded(
            t.second as nat,
            2,
        );
        let fraction = if t.nanosecond == 0 {
            Seq::empty()
        } else {
            seq!['.'] + trim_zeros(padded(t.nanosecond as nat, 9))
        };
        let zone = if t.offset_hours == 0 && t.offset_minutes == 0 {
            seq!['Z']
        } else {
            seq![if t.offset_hours < 0 || t.offset_minutes < 0 { '-' } else { '+' }] + padded(oh as nat, 2) + seq![
                ':',
            ] + padded(om as nat, 2)
        };
        Some(clock + fraction + zone)
    }
}

fn leap_year(y: i32) -> (r: bool)
    ensures
        r == is_leap_year(y as int),
{
    let r = y % 4 == 0 && (y % 100 != 0 || y % 400 == 0);
    assert(r == is_leap_year(y as int)) by (nonlinear_arith)
        requires
            r == (y % 4 == 0 && (y % 100 != 0 || y % 400 == 0)),
    ;
    r
}

fn month_length(y: i32, m: u8) -> (r: u8)
    ensures
        r as int == days_in_month(y as int, m as int),
{
    if m == 2 {
        if leap_year(y) { 29 } else { 28 }
    } else if m == 4 || m == 6 || m == 9 || m == 11 {
        30
    } else {
        31
    }
}

impl Timestamp {
    /// Whether the timestamp is one the `time` crate can hold (see
    /// [`valid_timestamp`]).
    pub fn is_valid(&self) -> (r: bool)
        ensures
            r == valid_timestamp(*self),
    {
        let date_ok = -9999 <= self.year && self.year <= 9999 && 1 <= self.month && self.month <= 12 && 1
            <= self.day && self.day <= month_length(self.year, self.month);
        let clock_ok = self.hour < 24 && self.minute < 60 && self.second < 60 && self.nanosecond < 1_000_000_000;
        let h = self.offset_hours;
        let mi = self.offset_minutes;
        let sec = self.offset_seconds;
        let range_ok = -25 <= h && h <= 25 && -59 <= mi && mi <= 59 && -59 <= sec && sec <= 59;
        let sign_ok = (h >= 0 && mi >= 0 && sec >= 0) || (h <= 0 && mi <= 0 && sec <= 0);
        date_ok && clock_ok && range_ok && sign_ok
    }
}

/// `OffsetDateTime::format` with the RFC 3339 description, on the timestamp
/// built from `t`'s fields (`Date::from_calendar_date`,
/// `Time::from_hms_nano`, `UtcOffset::from_hms`). For a valid timestamp the
/// text is [`rfc3339_spec`], as the `time` crate's RFC 3339 formatter
/// writes it; for any other the contract states nothing.
#[verifier::external_body]
fn rfc3339_text(t: &Timestamp) -> (r: Option<String>)
    ensures
        valid_timestamp(*t) ==> match rfc3339_spec(*t) {
            Some(s) => r matches Some(x) && x@ == s,
            None => r is None,
        },
{
    let month = time::Month::try_from(t.month).ok()?;
    let date = time::Date::from_calendar_date(t.year, month, t.day).ok()?;
    let clock = time::Time::from_hms_nano(t.hour, t.minute, t.second, t.nanosecond).ok()?;
    let offset = time::UtcOffset::from_hms(t.offset_hours, t.offset_minutes, t.offset_seconds).ok()?;
    let at = time::PrimitiveDateTime::new(date, clock).assume_offset(offset);
    at.format(&time::format_description::well_known::Rfc3339).ok()
}

/// The RFC 3339 text of a timestamp (see [`rfc3339_spec`]), or
/// `0001-01-01T00:00:00Z` when it has none.
pub fn format_iso8601(t: Timestamp) -> (r: String)
    requires
        valid_timestamp(t),
    ensures
        r@ == match rfc3339_spec(t) {
            Some(s) => s,
            None => "0001-01-01T00:00:00Z"@,
        },
{
    match rfc3339_text(&t) {
        Some(s) => s,
        None => owned("0001-01-01T00:00:00Z"),
    }
}

} // verus!
