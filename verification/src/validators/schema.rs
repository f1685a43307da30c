//! Schema validator: every JSON document of the tree that is an instance of
//! one of the five RWP schemas is checked against it (draft 7).
//!
//! Which schema a document is an instance of comes from its `$schema` URI
//! (`.../<name>.schema.json`), or else from a `-`/`_` separated segment of
//! its file stem. A document whose `$schema` is a JSON Schema meta-schema,
//! or that matches no schema, is skipped without being counted.
use vstd::prelude::*;
use serde_json::Value as J;
use crate::text::{ascii_lower, chars_of, owned, push_str, to_ascii_lowercase};
use crate::{Category, CategoryResult, Failure, FailureKind, FailureView, Source, Tally};
use crate::{failure_views, tally_of, tally_item, enumeration_failure};
use crate::validators::paths::{
    extension_of, extension_spec, file_name_of, file_name_spec, sort_paths, sorted_paths, stem_of, stem_spec,
    str_views,
};
use crate::validators::walk::{walk, walk_spec, ClaimRule, Node};

verus! {

// ---------------------------------------------------------------------------
// JSON documents
// ---------------------------------------------------------------------------

#[verifier::external_type_specification]
#[verifier::external_body]
pub struct ExJsonNumber(serde_json::Number);

#[verifier::external_type_specification]
#[verifier::external_body]
pub struct ExJsonDocument(serde_json::Value);

/// A compiled `jsonschema::Validator`, held opaquely: nothing of it is read
/// here but through [`conforms`] and [`first_error`].
#[verifier::external_body]
pub struct Draft7Validator {
    inner: jsonschema::Validator,
}

/// A JSON value. Object members keep the order the parser gave them.
#[derive(Debug)]
pub enum JsonValue {
    Null,
    Bool(bool),
    /// A number, carried through unread.
    Number(serde_json::Number),
    String(String),
    Array(Vec<JsonValue>),
    Object(Vec<(String, JsonValue)>),
}

/// A JSON value as plain values.
pub enum JsonView {
    Null,
    Bool(bool),
    Number(serde_json::Number),
    String(Seq<char>),
    Array(Seq<JsonView>),
    Object(Seq<(Seq<char>, JsonView)>),
}

pub open spec fn json_view(v: JsonValue) -> JsonView
    decreases v, 0int,
{
    match v {
        JsonValue::Null => JsonView::Null,
        JsonValue::Bool(b) => JsonView::Bool(b),
        JsonValue::Number(n) => JsonView::Number(n),
        JsonValue::String(s) => JsonView::String(s@),
        JsonValue::Array(a) => JsonView::Array(items_view(a@, 0)),
        JsonValue::Object(m) => JsonView::Object(members_view(m@, 0)),
    }
}

/// The views of `a[i..]`.
pub open spec fn items_view(a: Seq<JsonValue>, i: int) -> Seq<JsonView>
    decreases a, a.len() - i,
{
    if i < 0 || i >= a.len() {
        Seq::empty()
    } else {
        seq![json_view(a[i])] + items_view(a, i + 1)
    }
}

/// The views of the members `m[i..]`.
pub open spec fn members_view(m: Seq<(String, JsonValue)>, i: int) -> Seq<(Seq<char>, JsonView)>
    decreases m, m.len() - i,
{
    if i < 0 || i >= m.len() {
        Seq::empty()
    } else {
        seq![(m[i].0@, json_view(m[i].1))] + members_view(m, i + 1)
    }
}

impl View for JsonValue {
    type V = JsonView;

    open spec fn view(&self) -> JsonView {
        json_view(*self)
    }
}

pub proof fn lemma_members_view(m: Seq<(String, JsonValue)>, i: int)
    requires
        0 <= i <= m.len(),
    ensures
        members_view(m, i).len() == m.len() - i,
        forall|k: int| i <= k < m.len() ==> #[trigger] members_view(m, i)[k - i] == (m[k].0@, json_view(m[k].1)),
    decreases m.len() - i,
{
    if i < m.len() {
        lemma_members_view(m, i + 1);
        assert forall|k: int| i <= k < m.len() implies #[trigger] members_view(m, i)[k - i] == (
            m[k].0@,
            json_view(m[k].1),
        ) by {
            if k > i {
                assert(members_view(m, i)[k - i] == members_view(m, i + 1)[k - (i + 1)]);
            }
        }
    }
}

pub proof fn lemma_members_view_at(m: Seq<(String, JsonValue)>)
    ensures
        members_view(m, 0).len() == m.len(),
        forall|k: int| 0 <= k < m.len() ==> #[trigger] members_view(m, 0)[k] == (m[k].0@, json_view(m[k].1)),
{
    lemma_members_view(m, 0);
    assert forall|k: int| 0 <= k < m.len() implies #[trigger] members_view(m, 0)[k] == (m[k].0@, json_view(m[k].1)) by {
        assert(members_view(m, 0)[k - 0] == (m[k].0@, json_view(m[k].1)));
    }
}

proof fn lemma_members_view_push(m: Seq<(String, JsonValue)>, x: (String, JsonValue))
    ensures
        members_view(m.push(x), 0) == members_view(m, 0).push((x.0@, json_view(x.1))),
{
    lemma_members_view(m, 0);
    lemma_members_view(m.push(x), 0);
    assert forall|k: int| 0 <= k < m.len() + 1 implies #[trigger] members_view(m.push(x), 0)[k] == members_view(
        m,
        0,
    ).push((x.0@, json_view(x.1)))[k] by {
        assert(members_view(m.push(x), 0)[k - 0] == (m.push(x)[k].0@, json_view(m.push(x)[k].1)));
        if k < m.len() {
            assert(members_view(m, 0)[k - 0] == (m[k].0@, json_view(m[k].1)));
        }
    }
    assert(members_view(m.push(x), 0) =~= members_view(m, 0).push((x.0@, json_view(x.1))));
}

/// One `serde_json::Value` as a [`JsonValue`], variant for variant.
#[verifier::external_body]
fn json_of(v: J) -> JsonValue {
    match v {
        J::Null => JsonValue::Null,
        J::Bool(b) => JsonValue::Bool(b),
        J::Number(n) => JsonValue::Number(n),
        J::String(s) => JsonValue::String(s),
        J::Array(a) => JsonValue::Array(a.into_iter().map(json_of).collect()),
        J::Object(m) => JsonValue::Object(m.into_iter().map(|(k, x)| (k, json_of(x))).collect()),
    }
}

/// One [`JsonValue`] as a `serde_json::Value`, variant for variant.
#[verifier::external_body]
fn serde_of(v: &JsonValue) -> J {
    match v {
        JsonValue::Null => J::Null,
        JsonValue::Bool(b) => J::Bool(*b),
        JsonValue::Number(n) => J::Number(n.clone()),
        JsonValue::String(s) => J::String(s.clone()),
        JsonValue::Array(a) => J::Array(a.iter().map(serde_of).collect()),
        JsonValue::Object(m) => J::Object(m.iter().map(|(k, x)| (k.clone(), serde_of(x))).collect()),
    }
}

pub open spec fn json_result_view(r: Result<JsonValue, String>) -> Result<JsonView, Seq<char>> {
    match r {
        Ok(v) => Ok(v@),
        Err(e) => Err(e@),
    }
}

/// What `serde_json::from_slice` gives for a byte string: its value, or the
/// parser's message.
pub uninterp spec fn json_from_slice(bytes: Seq<u8>) -> Result<JsonView, Seq<char>>;

/// What `serde_json::from_str` gives for a text: its value, or the parser's
/// message.
pub uninterp spec fn json_from_str(text: Seq<char>) -> Result<JsonView, Seq<char>>;

/// The message with which draft 7 refuses to compile a schema, if it does.
pub uninterp spec fn draft7_compile_error(schema: JsonView) -> Option<Seq<char>>;

/// Whether an instance conforms to a (compiled) draft 7 schema.
pub uninterp spec fn draft7_valid(schema: JsonView, instance: JsonView) -> bool;

/// The first error draft 7 reports for an instance, if any: its message,
/// the instance path and the schema path.
pub uninterp spec fn draft7_first_error(schema: JsonView, instance: JsonView) -> Option<
    (Seq<char>, Seq<char>, Seq<char>),
>;

/// `serde_json::from_slice::<serde_json::Value>`: the document, or the
/// parser's error message. The contract names the result ([`json_from_slice`]).
#[verifier::external_body]
fn parse_json_bytes(bytes: &[u8]) -> (r: Result<JsonValue, String>)
    ensures
        json_result_view(r) == json_from_slice(bytes@),
{
    match serde_json::from_slice::<J>(bytes) {
        Ok(v) => Ok(json_of(v)),
        Err(e) => Err(e.to_string()),
    }
}

/// `serde_json::from_str::<serde_json::Value>`: the document, or the parser's
/// error message. The contract names the result ([`json_from_str`]).
#[verifier::external_body]
fn parse_json_text(text: &str) -> (r: Result<JsonValue, String>)
    ensures
        json_result_view(r) == json_from_str(text@),
{
    match serde_json::from_str::<J>(text) {
        Ok(v) => Ok(json_of(v)),
        Err(e) => Err(e.to_string()),
    }
}

/// A draft 7 validator together with the schema it was compiled from.
pub struct CompiledSchema {
    schema: JsonValue,
    validator: Draft7Validator,
}

impl View for CompiledSchema {
    type V = JsonView;

    closed spec fn view(&self) -> JsonView {
        self.schema@
    }
}

/// `jsonschema::draft7::new`: compiles a schema, or gives the error's
/// message. The contract names the outcome ([`draft7_compile_error`]) and
/// says that the validator keeps the schema it was compiled from.
#[verifier::external_body]
fn compile_draft7(schema: JsonValue) -> (r: Result<CompiledSchema, String>)
    ensures
        match draft7_compile_error(schema@) {
            None => r matches Ok(c) && c@ == schema@,
            Some(e) => r matches Err(m) && m@ == e,
        },
{
    match jsonschema::draft7::new(&serde_of(&schema)) {
        Ok(inner) => Ok(CompiledSchema { schema, validator: Draft7Validator { inner } }),
        Err(e) => Err(e.to_string()),
    }
}

/// `jsonschema::Validator::is_valid`. The contract names the result
/// ([`draft7_valid`]).
#[verifier::external_body]
fn conforms(c: &CompiledSchema, instance: &JsonValue) -> (r: bool)
    ensures
        r == draft7_valid(c@, instance@),
{
    c.validator.inner.is_valid(&serde_of(instance))
}

/// `jsonschema::Validator::iter_errors`, first item: its message, instance
/// path and schema path. The contract names the result
/// ([`draft7_first_error`]).
#[verifier::external_body]
fn first_error(c: &CompiledSchema, instance: &JsonValue) -> (r: Option<(String, String, String)>)
    ensures
        match draft7_first_error(c@, instance@) {
            Some((m, ip, sp)) => r matches Some((a, b, d)) && a@ == m && b@ == ip && d@ == sp,
            None => r is None,
        },
{
    let v = serde_of(instance);
    let e = c.validator.inner.iter_errors(&v).next();
    e.map(|e| (e.to_string(), e.instance_path().to_string(), e.schema_path().to_string()))
}

// ---------------------------------------------------------------------------
// Which schema a document is an instance of
// ---------------------------------------------------------------------------

/// The RWP schemas, in the order they are tried.
pub const SCHEMA_NAMES: [&'static str; 5] = ["handoff", "intake", "manifest", "plan", "state"];

pub open spec fn schema_names() -> Seq<Seq<char>> {
    seq!["handoff"@, "intake"@, "manifest"@, "plan"@, "state"@]
}

/// The value of the first member named `key`.
pub open spec fn member_get(m: Seq<(Seq<char>, JsonView)>, key: Seq<char>) -> Option<JsonView>
    decreases m.len(),
{
    if m.len() == 0 {
        None
    } else if m[0].0 == key {
        Some(m[0].1)
    } else {
        member_get(m.skip(1), key)
    }
}

/// The document's `$schema` URI, when it is an object with a string there.
pub open spec fn schema_uri(v: JsonView) -> Option<Seq<char>> {
    match v {
        JsonView::Object(m) => match member_get(m, "$schema"@) {
            Some(JsonView::String(u)) => Some(u),
            _ => None,
        },
        _ => None,
    }
}

pub open spec fn has_prefix(s: Seq<char>, p: Seq<char>) -> bool {
    p.len() <= s.len() && s.subrange(0, p.len() as int) == p
}

/// Whether `t` occurs in `s` at position `i`.
pub open spec fn occurs_at_spec(s: Seq<char>, t: Seq<char>, i: int) -> bool {
    0 <= i && i + t.len() <= s.len() && s.subrange(i, i + t.len()) == t
}

pub open spec fn has_infix(s: Seq<char>, t: Seq<char>) -> bool {
    exists|i: int| #[trigger] occurs_at_spec(s, t, i)
}

/// A URI of the JSON Schema meta-schemas.
pub open spec fn is_meta_schema_uri(u: Seq<char>) -> bool {
    has_prefix(u, "http://json-schema.org/"@) || has_prefix(u, "https://json-schema.org/"@)
}

/// The first of `names` whose `/<name>.schema.json` occurs in `u`.
pub open spec fn name_in_uri(u: Seq<char>, names: Seq<Seq<char>>) -> Option<Seq<char>>
    decreases names.len(),
{
    if names.len() == 0 {
        None
    } else if has_infix(u, "/"@ + names[0] + ".schema.json"@) {
        Some(names[0])
    } else {
        name_in_uri(u, names.skip(1))
    }
}

pub open spec fn is_segment_separator(c: char) -> bool {
    c == '-' || c == '_'
}

/// Splitting `s` at every '-' and '_': the first segment, among those from
/// the one starting at `start` (with `i` scanned up to), that is a schema
/// name.
pub open spec fn named_segment_from(s: Seq<char>, start: int, i: int) -> Option<Seq<char>>
    decreases s.len() - i,
{
    if i < start || start < 0 || i >= s.len() {
        let seg = s.subrange(start, s.len() as int);
        if schema_names().contains(seg) {
            Some(seg)
        } else {
            None
        }
    } else if is_segment_separator(s[i]) {
        let seg = s.subrange(start, i);
        if schema_names().contains(seg) {
            Some(seg)
        } else {
            named_segment_from(s, i + 1, i + 1)
        }
    } else {
        named_segment_from(s, start, i + 1)
    }
}

/// The schema named by a segment of the path's lower-cased file stem.
pub open spec fn stem_schema_name(path: Seq<char>) -> Option<Seq<char>> {
    match file_name_spec(path) {
        None => None,
        Some(n) => named_segment_from(stem_spec(n).map_values(|c: char| ascii_lower(c)), 0, 0),
    }
}

/// Which RWP schema the document at `path` is an instance of: by its
/// `$schema` URI, else by its file stem; none for a meta-schema URI.
pub open spec fn schema_name_for(path: Seq<char>, v: JsonView) -> Option<Seq<char>> {
    match schema_uri(v) {
        Some(u) => if is_meta_schema_uri(u) {
            None
        } else {
            match name_in_uri(u, schema_names()) {
                Some(n) => Some(n),
                None => stem_schema_name(path),
            }
        },
        None => stem_schema_name(path),
    }
}

/// A document whose `$schema` is a JSON Schema meta-schema URI is never
/// taken for an instance of an RWP schema, whatever its file name.
pub proof fn law_meta_schema_documents_are_skipped(path: Seq<char>, v: JsonView)
    requires
        schema_uri(v) matches Some(u) && is_meta_schema_uri(u),
    ensures
        schema_name_for(path, v) is None,
{
}

fn schema_uri_of(v: &JsonValue) -> (r: Option<&String>)
    ensures
        match schema_uri(v@) {
            Some(u) => r matches Some(s) && s@ == u,
            None => r is None,
        },
{
    match v {
        JsonValue::Object(m) => {
            let key = owned("$schema");
            let ghost mv = members_view(m@, 0);
            proof {
                lemma_members_view_at(m@);
                assert(mv.skip(0) =~= mv);
            }
            let mut i: usize = 0;
            while i < m.len()
                invariant
                    i <= m@.len(),
                    mv == members_view(m@, 0),
                    schema_uri(v@) == match member_get(mv, "$schema"@) {
                        Some(JsonView::String(u)) => Some(u),
                        _ => None,
                    },
                    mv.len() == m@.len(),
                    forall|k: int| 0 <= k < m@.len() ==> #[trigger] mv[k] == (m@[k].0@, json_view(m@[k].1)),
                    key@ == "$schema"@,
                    member_get(mv, "$schema"@) == member_get(mv.skip(i as int), "$schema"@),
                decreases m@.len() - i,
            {
                let ghost rest = mv.skip(i as int);
                assert(rest[0] == mv[i as int]);
                if m[i].0 == key {
                    assert(mv[i as int] == (m@[i as int].0@, json_view(m@[i as int].1)));
                    assert(member_get(rest, "$schema"@) == Some(json_view(m@[i as int].1)));
                    return match &m[i].1 {
                        JsonValue::String(u) => Some(u),
                        _ => None,
                    };
                }
                assert(rest.skip(1) =~= mv.skip(i + 1));
                i = i + 1;
            }
            None
        },
        _ => None,
    }
}

fn has_prefix_of(s: &Vec<char>, p: &str) -> (r: bool)
    ensures
        r == has_prefix(s@, p@),
{
    let pv = chars_of(p);
    if pv.len() > s.len() {
        return false;
    }
    let mut i: usize = 0;
    while i < pv.len()
        invariant
            i <= pv@.len() <= s@.len(),
            pv@ == p@,
            forall|k: int| 0 <= k < i ==> s@[k] == pv@[k],
        decreases pv@.len() - i,
    {
        if s[i] != pv[i] {
            assert(s@.subrange(0, pv@.len() as int)[i as int] != pv@[i as int]);
            return false;
        }
        i = i + 1;
    }
    assert(s@.subrange(0, pv@.len() as int) =~= pv@);
    true
}

/// Whether `t` occurs in `s` at position `at`.
fn occurs_at(s: &Vec<char>, t: &Vec<char>, at: usize) -> (r: bool)
    requires
        at + t@.len() <= s@.len(),
    ensures
        r == (s@.subrange(at as int, at + t@.len()) == t@),
{
    let _n = s.len();
    let mut k: usize = 0;
    while k < t.len()
        invariant
            k <= t@.len(),
            at + t@.len() <= s@.len() <= usize::MAX,
            forall|q: int| 0 <= q < k ==> s@[at + q] == t@[q],
        decreases t@.len() - k,
    {
        if s[at + k] != t[k] {
            assert(s@.subrange(at as int, at + t@.len())[k as int] != t@[k as int]);
            return false;
        }
        k = k + 1;
    }
    assert(s@.subrange(at as int, at + t@.len()) =~= t@);
    true
}

fn has_infix_of(s: &Vec<char>, t: &Vec<char>) -> (r: bool)
    ensures
        r == has_infix(s@, t@),
{
    if t.len() > s.len() {
        assert forall|q: int| !#[trigger] occurs_at_spec(s@, t@, q) by {}
        return false;
    }
    if t.len() == 0 {
        assert(s@.subrange(0, 0) =~= t@);
        assert(occurs_at_spec(s@, t@, 0));
        return true;
    }
    let end = s.len() - t.len() + 1;
    let mut i: usize = 0;
    while i < end
        invariant
            end + t@.len() == s@.len() + 1,
            i <= end,
            forall|q: int| 0 <= q < i ==> !#[trigger] occurs_at_spec(s@, t@, q),
        decreases end - i,
    {
        if occurs_at(s, t, i) {
            assert(occurs_at_spec(s@, t@, i as int));
            return true;
        }
        i = i + 1;
    }
    assert forall|q: int| !#[trigger] occurs_at_spec(s@, t@, q) by {
        if 0 <= q < i {
        }
    }
    false
}

/// The first schema whose `/<name>.schema.json` occurs in the URI.
fn name_in_uri_of(u: &String) -> (r: Option<&'static str>)
    ensures
        match name_in_uri(u@, schema_names()) {
            Some(n) => r matches Some(x) && x@ == n,
            None => r is None,
        },
{
    let uv = chars_of(u.as_str());
    let names = SCHEMA_NAMES;
    let mut i: usize = 0;
    assert(schema_names().skip(0) =~= schema_names());
    while i < 5
        invariant
            i <= 5,
            uv@ == u@,
            names@ == seq!["handoff", "intake", "manifest", "plan", "state"],
            name_in_uri(u@, schema_names()) == name_in_uri(u@, schema_names().skip(i as int)),
        decreases 5 - i,
    {
        let ghost rest = schema_names().skip(i as int);
        assert(rest[0] == names[i as int]@);
        let mut pattern = owned("/");
        push_str(&mut pattern, names[i]);
        push_str(&mut pattern, ".schema.json");
        let pv = chars_of(pattern.as_str());
        if has_infix_of(&uv, &pv) {
            return Some(names[i]);
        }
        assert(rest.skip(1) =~= schema_names().skip(i + 1));
        i = i + 1;
    }
    None
}

/// The schema name that a segment `seg[from..to]` is, if any.
fn segment_name(seg: &Vec<char>, from: usize, to: usize) -> (r: Option<&'static str>)
    requires
        from <= to <= seg@.len(),
    ensures
        match r {
            Some(n) => n@ == seg@.subrange(from as int, to as int) && schema_names().contains(n@),
            None => !schema_names().contains(seg@.subrange(from as int, to as int)),
        },
{
    let names = SCHEMA_NAMES;
    let ghost piece = seg@.subrange(from as int, to as int);
    let mut i: usize = 0;
    while i < 5
        invariant
            i <= 5,
            from <= to <= seg@.len(),
            piece == seg@.subrange(from as int, to as int),
            names@ == seq!["handoff", "intake", "manifest", "plan", "state"],
            forall|k: int| 0 <= k < i ==> schema_names()[k] != piece,
        decreases 5 - i,
    {
        let nv = chars_of(names[i]);
        assert(schema_names()[i as int] == nv@);
        if nv.len() == to - from && occurs_at(seg, &nv, from) {
            assert(schema_names()[i as int] == piece);
            return Some(names[i]);
        }
        i = i + 1;
    }
    assert forall|k: int| 0 <= k < schema_names().len() implies schema_names()[k] != piece by {}
    None
}

/// The schema named by a segment of the path's lower-cased file stem.
fn stem_schema_name_of(path: &str) -> (r: Option<&'static str>)
    ensures
        match stem_schema_name(path@) {
            Some(n) => r matches Some(x) && x@ == n,
            None => r is None,
        },
{
    let name = match file_name_of(path) {
        Some(n) => n,
        None => return None,
    };
    let stem = stem_of(name.as_str());
    let lower = to_ascii_lowercase(stem.as_str());
    let s = chars_of(lower.as_str());
    assert(s@ == stem_spec(name@).map_values(|c: char| ascii_lower(c)));
    let mut start: usize = 0;
    let mut i: usize = 0;
    while i < s.len()
        invariant
            start <= i <= s@.len(),
            stem_schema_name(path@) == named_segment_from(s@, 0, 0),
            named_segment_from(s@, 0, 0) == named_segment_from(s@, start as int, i as int),
        decreases s@.len() - i,
    {
        if s[i] == '-' || s[i] == '_' {
            match segment_name(&s, start, i) {
                Some(n) => {
                    assert(named_segment_from(s@, start as int, i as int) == Some(s@.subrange(start as int, i as int)));
                    return Some(n);
                },
                None => {},
            }
            start = i + 1;
        }
        i = i + 1;
    }
    segment_name(&s, start, s.len())
}

/// Which RWP schema the document at `path` is an instance of (see
/// [`schema_name_for`]).
pub fn resolve_schema_name(path: &str, value: &JsonValue) -> (r: Option<&'static str>)
    ensures
        match schema_name_for(path@, value@) {
            Some(n) => r matches Some(x) && x@ == n,
            None => r is None,
        },
{
    match schema_uri_of(value) {
        Some(u) => {
            let uv = chars_of(u.as_str());
            if has_prefix_of(&uv, "http://json-schema.org/") || has_prefix_of(&uv, "https://json-schema.org/") {
                return None;
            }
            match name_in_uri_of(u) {
                Some(n) => Some(n),
                None => stem_schema_name_of(path),
            }
        },
        None => stem_schema_name_of(path),
    }
}

// ---------------------------------------------------------------------------
// Checking one document
// ---------------------------------------------------------------------------

pub open spec fn key_kept(key: Seq<char>) -> spec_fn((Seq<char>, JsonView)) -> bool {
    |p: (Seq<char>, JsonView)| p.0 != key
}

/// `v` with every member named `key` removed, when it is an object.
pub open spec fn without_key(v: JsonView, key: Seq<char>) -> JsonView {
    match v {
        JsonView::Object(m) => JsonView::Object(m.filter(key_kept(key))),
        _ => v,
    }
}

/// Whether some member of `m` is named `key`.
pub open spec fn has_member(m: Seq<(Seq<char>, JsonView)>, key: Seq<char>) -> bool {
    exists|k: int| 0 <= k < m.len() && (#[trigger] m[k]).0 == key
}

/// Removing the `$schema` member of an object keeps exactly its other
/// members, in their order, so that no member named `$schema` is left;
/// a document that is no object is left as it is.
pub proof fn law_schema_member_removed(v: JsonView)
    ensures
        v matches JsonView::Object(m) ==> without_key(v, "$schema"@) == JsonView::Object(
            m.filter(|p: (Seq<char>, JsonView)| p.0 != "$schema"@),
        ),
        without_key(v, "$schema"@) matches JsonView::Object(m2) ==> !has_member(m2, "$schema"@),
        !(v is Object) ==> without_key(v, "$schema"@) == v,
{
    let pred = |p: (Seq<char>, JsonView)| p.0 != "$schema"@;
    assert(key_kept("$schema"@) =~= pred);
    if let JsonView::Object(m) = v {
        let m2 = m.filter(pred);
        assert forall|k: int| 0 <= k < m2.len() implies (#[trigger] m2[k]).0 != "$schema"@ by {
            m.lemma_filter_pred(pred, k);
        }
    }
}

/// The document without its `$schema` member (see [`without_key`]).
fn strip_schema_key(v: JsonValue) -> (r: JsonValue)
    ensures
        r@ == without_key(v@, "$schema"@),
{
    match v {
        JsonValue::Object(m) => {
            let key = owned("$schema");
            let ghost orig = m@;
            let ghost ov = members_view(orig, 0);
            proof {
                lemma_members_view_at(orig);
                assert(ov.take(0) =~= Seq::<(Seq<char>, JsonView)>::empty());
                assert(members_view(Seq::<(String, JsonValue)>::empty(), 0) =~= Seq::<(Seq<char>, JsonView)>::empty());
                assert(orig.skip(0) =~= orig);
            }
            let mut rest = m;
            let mut out: Vec<(String, JsonValue)> = Vec::new();
            let ghost mut c: int = 0;
            while rest.len() > 0
                invariant
                    0 <= c <= orig.len(),
                    rest@ == orig.skip(c),
                    ov == members_view(orig, 0),
                    ov.len() == orig.len(),
                    forall|k: int| 0 <= k < orig.len() ==> #[trigger] ov[k] == (orig[k].0@, json_view(orig[k].1)),
                    key@ == "$schema"@,
                    members_view(out@, 0) == ov.take(c).filter(key_kept("$schema"@)),
                decreases rest@.len(),
            {
                let x = rest.remove(0);
                proof {
                    assert(x == orig[c]);
                    assert(rest@ =~= orig.skip(c + 1));
                    assert(ov.take(c + 1) =~= ov.take(c).push(ov[c]));
                    ov.take(c).lemma_filter_push(ov[c], key_kept("$schema"@));
                }
                if x.0 != key {
                    let ghost before = out@;
                    out.push(x);
                    proof {
                        lemma_members_view_push(before, x);
                    }
                }
                proof {
                    c = c + 1;
                }
            }
            proof {
                assert(ov.take(c) =~= ov);
            }
            JsonValue::Object(out)
        },
        other => other,
    }
}

/// The position of a schema name in [`SCHEMA_NAMES`].
pub open spec fn schema_index(name: Seq<char>) -> int {
    if name == "handoff"@ {
        0
    } else if name == "intake"@ {
        1
    } else if name == "manifest"@ {
        2
    } else if name == "plan"@ {
        3
    } else {
        4
    }
}

/// What compiling the embedded schema `name` from its source gives: the
/// schema, or the message of the step that failed.
pub open spec fn compile_outcome(name: Seq<char>, source: Seq<char>) -> Result<JsonView, Seq<char>> {
    match json_from_str(source) {
        Err(e) => Err("embedded "@ + name + " schema parse error: "@ + e),
        Ok(v) => match draft7_compile_error(v) {
            Some(e) => Err("embedded "@ + name + " schema compile error: "@ + e),
            None => Ok(v),
        },
    }
}

pub open spec fn compiled_view(r: Result<CompiledSchema, String>) -> Result<JsonView, Seq<char>> {
    match r {
        Ok(c) => Ok(c@),
        Err(e) => Err(e@),
    }
}

/// The five schemas compiled for validation, in [`SCHEMA_NAMES`] order;
/// one that failed to compile holds the error's message.
pub struct SchemaValidators {
    compiled: Vec<Result<CompiledSchema, String>>,
}

impl SchemaValidators {
    #[verifier::type_invariant]
    spec fn five(self) -> bool {
        self.compiled@.len() == 5
    }

    pub closed spec fn view(self) -> Seq<Result<JsonView, Seq<char>>> {
        self.compiled@.map_values(|r: Result<CompiledSchema, String>| compiled_view(r))
    }

    /// Compiles the schemas from their sources, given in [`SCHEMA_NAMES`]
    /// order.
    pub fn compile(sources: &[String; 5]) -> (r: SchemaValidators)
        ensures
            r.view().len() == 5,
            forall|k: int| 0 <= k < 5 ==> #[trigger] r.view()[k] == compile_outcome(schema_names()[k], sources@[k]@),
    {
        let names = SCHEMA_NAMES;
        let mut compiled: Vec<Result<CompiledSchema, String>> = Vec::new();
        let mut i: usize = 0;
        while i < 5
            invariant
                i <= 5,
                names@ == seq!["handoff", "intake", "manifest", "plan", "state"],
                compiled@.len() == i,
                forall|k: int| 0 <= k < i ==> #[trigger] compiled_view(compiled@[k]) == compile_outcome(
                    schema_names()[k],
                    sources@[k]@,
                ),
            decreases 5 - i,
        {
            assert(schema_names()[i as int] == names[i as int]@);
            let outcome = match parse_json_text(sources[i].as_str()) {
                Err(e) => {
                    let mut m = owned("embedded ");
                    push_str(&mut m, names[i]);
                    push_str(&mut m, " schema parse error: ");
                    push_str(&mut m, e.as_str());
                    Err(m)
                },
                Ok(v) => match compile_draft7(v) {
                    Ok(c) => Ok(c),
                    Err(e) => {
                        let mut m = owned("embedded ");
                        push_str(&mut m, names[i]);
                        push_str(&mut m, " schema compile error: ");
                        push_str(&mut m, e.as_str());
                        Err(m)
                    },
                },
            };
            compiled.push(outcome);
            i = i + 1;
        }
        let r = SchemaValidators { compiled };
        assert(r.view().len() == 5);
        r
    }

    fn get(&self, k: usize) -> (r: &Result<CompiledSchema, String>)
        requires
            k < 5,
        ensures
            compiled_view(*r) == self.view()[k as int],
    {
        proof {
            use_type_invariant(self);
        }
        &self.compiled[k]
    }
}

fn schema_index_of(name: &'static str) -> (k: usize)
    requires
        schema_names().contains(name@),
    ensures
        k < 5,
        k == schema_index(name@),
        schema_names()[k as int] == name@,
{
    let n = owned(name);
    if n == owned("handoff") {
        0
    } else if n == owned("intake") {
        1
    } else if n == owned("manifest") {
        2
    } else if n == owned("plan") {
        3
    } else {
        let ghost w = choose|k: int| 0 <= k < 5 && schema_names()[k] == name@;
        assert(w == 4);
        4
    }
}

/// The failures of a document that is an instance of schema `name`,
/// checked (without `$schema`) against what compiling `name` gave.
pub open spec fn conformance_outcome(
    path: Seq<char>,
    name: Seq<char>,
    compiled: Result<JsonView, Seq<char>>,
    instance: JsonView,
) -> Seq<FailureView> {
    match compiled {
        Err(e) => seq![
            (path, Category::Schema, FailureKind::Internal, "validator construction failed for "@ + name + ": "@ + e, None),
        ],
        Ok(schema) => if draft7_valid(schema, instance) {
            Seq::empty()
        } else {
            match draft7_first_error(schema, instance) {
                Some((m, ip, sp)) => seq![
                    (
                        path,
                        Category::Schema,
                        FailureKind::SchemaMismatch,
                        "does not conform to "@ + name + " schema: "@ + m,
                        Some("instance_path="@ + ip + " schema_path="@ + sp),
                    ),
                ],
                None => seq![
                    (
                        path,
                        Category::Schema,
                        FailureKind::SchemaMismatch,
                        "does not conform to "@ + name + " schema (no error details available)"@,
                        None,
                    ),
                ],
            }
        },
    }
}

/// What one JSON file gives: `None` when it is skipped (it is no instance
/// of an RWP schema), else the failures it counts with.
pub open spec fn schema_file_outcome(f: Source<Vec<u8>>, set: Seq<Result<JsonView, Seq<char>>>) -> Option<
    Seq<FailureView>,
> {
    match f.contents {
        Err(e) => Some(seq![(f.path@, Category::Schema, FailureKind::Io, "read failed: "@ + e@, None)]),
        Ok(bytes) => match json_from_slice(bytes@) {
            Err(e) => Some(
                seq![(f.path@, Category::Schema, FailureKind::SchemaMismatch, "not valid JSON: "@ + e, None)],
            ),
            Ok(v) => match schema_name_for(f.path@, v) {
                None => None,
                Some(name) => Some(
                    conformance_outcome(f.path@, name, set[schema_index(name)], without_key(v, "$schema"@)),
                ),
            },
        },
    }
}

/// The instance that a JSON object document is checked against its schema
/// with is the document with its `$schema` member removed: its members are
/// the document's other members, in order, and none is named `$schema`.
pub proof fn law_checked_instance_has_no_schema_member(
    f: Source<Vec<u8>>,
    set: Seq<Result<JsonView, Seq<char>>>,
    m: Seq<(Seq<char>, JsonView)>,
    name: Seq<char>,
)
    requires
        f.contents is Ok,
        json_from_slice(f.contents->Ok_0@) == Ok::<JsonView, Seq<char>>(JsonView::Object(m)),
        schema_name_for(f.path@, JsonView::Object(m)) == Some(name),
    ensures
        schema_file_outcome(f, set) == Some(
            conformance_outcome(
                f.path@,
                name,
                set[schema_index(name)],
                JsonView::Object(m.filter(|p: (Seq<char>, JsonView)| p.0 != "$schema"@)),
            ),
        ),
        !has_member(m.filter(|p: (Seq<char>, JsonView)| p.0 != "$schema"@), "$schema"@),
{
    law_schema_member_removed(JsonView::Object(m));
}

/// Counting a file that may have been skipped.
pub open spec fn tally_counted(t: Tally, o: Option<Seq<FailureView>>) -> Tally {
    match o {
        None => t,
        Some(item) => tally_item(t, item),
    }
}

pub open spec fn tally_counted_items(t: Tally, os: Seq<Option<Seq<FailureView>>>) -> Tally
    decreases os.len(),
{
    if os.len() == 0 {
        t
    } else {
        tally_counted(tally_counted_items(t, os.drop_last()), os.last())
    }
}

proof fn lemma_name_known(path: Seq<char>, v: JsonView)
    ensures
        schema_name_for(path, v) matches Some(n) ==> schema_names().contains(n),
{
    if let Some(u) = schema_uri(v) {
        lemma_name_in_uri_known(u, schema_names());
    }
    if let Some(fname) = file_name_spec(path) {
        let s = stem_spec(fname).map_values(|c: char| ascii_lower(c));
        lemma_named_segment_known(s, 0, 0);
    }
}

proof fn lemma_name_in_uri_known(u: Seq<char>, names: Seq<Seq<char>>)
    ensures
        name_in_uri(u, names) matches Some(n) ==> names.contains(n),
    decreases names.len(),
{
    if names.len() > 0 {
        if !has_infix(u, "/"@ + names[0] + ".schema.json"@) {
            lemma_name_in_uri_known(u, names.skip(1));
            if let Some(n) = name_in_uri(u, names.skip(1)) {
                let k = choose|k: int| 0 <= k < names.skip(1).len() && names.skip(1)[k] == n;
                assert(names[k + 1] == n);
            }
        } else {
            assert(names[0] == names[0]);
        }
    }
}

proof fn lemma_named_segment_known(s: Seq<char>, start: int, i: int)
    ensures
        named_segment_from(s, start, i) matches Some(n) ==> schema_names().contains(n),
    decreases s.len() - i,
{
    if !(i < start || start < 0 || i >= s.len()) {
        if is_segment_separator(s[i]) {
            lemma_named_segment_known(s, i + 1, i + 1);
        } else {
            lemma_named_segment_known(s, start, i + 1);
        }
    }
}

/// Checks one JSON file: counts it with its failures, or leaves the counts
/// alone when it is skipped.
pub fn validate_schema_file(file: &Source<Vec<u8>>, schemas: &SchemaValidators, result: &mut CategoryResult)
    ensures
        tally_of(*final(result)) == tally_counted(tally_of(*old(result)), schema_file_outcome(*file, schemas.view())),
        final(result).category == old(result).category,
        final(result).skipped == old(result).skipped,
        final(result).duration_ms == old(result).duration_ms,
{
    let path = file.path.as_str();
    let bytes = match &file.contents {
        Err(err) => {
            let mut m = owned("read failed: ");
            push_str(&mut m, err.as_str());
            let item = vec![
                Failure { fixture: owned(path), category: Category::Schema, kind: FailureKind::Io, message: m, details: None },
            ];
            assert(failure_views(item@) =~= schema_file_outcome(*file, schemas.view())->Some_0);
            result.record_item(item);
            return;
        },
        Ok(b) => b,
    };
    let value = match parse_json_bytes(bytes.as_slice()) {
        Err(err) => {
            let mut m = owned("not valid JSON: ");
            push_str(&mut m, err.as_str());
            let item = vec![
                Failure {
                    fixture: owned(path),
                    category: Category::Schema,
                    kind: FailureKind::SchemaMismatch,
                    message: m,
                    details: None,
                },
            ];
            assert(failure_views(item@) =~= schema_file_outcome(*file, schemas.view())->Some_0);
            result.record_item(item);
            return;
        },
        Ok(v) => v,
    };
    let name = match resolve_schema_name(path, &value) {
        None => return,
        Some(n) => n,
    };
    proof {
        lemma_name_known(path@, value@);
    }
    let k = schema_index_of(name);
    let instance = strip_schema_key(value);
    let mut item: Vec<Failure> = Vec::new();
    match schemas.get(k) {
        Err(e) => {
            let mut m = owned("validator construction failed for ");
            push_str(&mut m, name);
            push_str(&mut m, ": ");
            push_str(&mut m, e.as_str());
            item.push(Failure {
                fixture: owned(path),
                category: Category::Schema,
                kind: FailureKind::Internal,
                message: m,
                details: None,
            });
        },
        Ok(c) => {
            if !conforms(c, &instance) {
                match first_error(c, &instance) {
                    Some((msg, ip, sp)) => {
                        let mut m = owned("does not conform to ");
                        push_str(&mut m, name);
                        push_str(&mut m, " schema: ");
                        push_str(&mut m, msg.as_str());
                        let mut d = owned("instance_path=");
                        push_str(&mut d, ip.as_str());
                        push_str(&mut d, " schema_path=");
                        push_str(&mut d, sp.as_str());
                        item.push(Failure {
                            fixture: owned(path),
                            category: Category::Schema,
                            kind: FailureKind::SchemaMismatch,
                            message: m,
                            details: Some(d),
                        });
                    },
                    None => {
                        let mut m = owned("does not conform to ");
                        push_str(&mut m, name);
                        push_str(&mut m, " schema (no error details available)");
                        item.push(Failure {
                            fixture: owned(path),
                            category: Category::Schema,
                            kind: FailureKind::SchemaMismatch,
                            message: m,
                            details: None,
                        });
                    },
                }
            }
        },
    }
    assert(failure_views(item@) =~= schema_file_outcome(*file, schemas.view())->Some_0);
    result.record_item(item);
}

// ---------------------------------------------------------------------------
// Discovery and the validator entry point
// ---------------------------------------------------------------------------

/// A path whose file name has the extension `json`, in any ASCII case.
pub open spec fn is_json_path(p: Seq<char>) -> bool {
    file_name_spec(p) matches Some(n) && extension_spec(n) matches Some(e) && e.map_values(|c: char| ascii_lower(c))
        == "json"@
}

/// The JSON paths among `s`, in order.
pub open spec fn select_json_paths(s: Seq<Seq<char>>) -> Seq<Seq<char>>
    decreases s.len(),
{
    if s.len() == 0 {
        Seq::empty()
    } else if is_json_path(s.last()) {
        select_json_paths(s.drop_last()).push(s.last())
    } else {
        select_json_paths(s.drop_last())
    }
}

pub fn has_json_extension(path: &str) -> (r: bool)
    ensures
        r == is_json_path(path@),
{
    match file_name_of(path) {
        None => false,
        Some(n) => match extension_of(n.as_str()) {
            Some(e) => to_ascii_lowercase(e.as_str()) == owned("json"),
            None => false,
        },
    }
}

/// The JSON files of the tree, in processing order.
pub fn discover_json_files(target: &str, root: &Node) -> (r: Result<Vec<String>, String>)
    ensures
        match walk_spec(target@, *root, ClaimRule::Nothing) {
            Ok(w) => r matches Ok(v) && sorted_paths(v@) && str_views(v@).to_multiset()
                == select_json_paths(w.0).to_multiset(),
            Err(e) => r matches Err(m) && m@ == e,
        },
{
    let (files, _) = match walk(target, root, ClaimRule::Nothing) {
        Ok(w) => w,
        Err(e) => return Err(e),
    };
    let mut out: Vec<String> = Vec::new();
    let mut i: usize = 0;
    while i < files.len()
        invariant
            i <= files@.len(),
            str_views(out@) == select_json_paths(str_views(files@).subrange(0, i as int)),
        decreases files@.len() - i,
    {
        assert(str_views(files@).subrange(0, i + 1).drop_last() =~= str_views(files@).subrange(0, i as int));
        if has_json_extension(files[i].as_str()) {
            let ghost before = str_views(out@);
            out.push(files[i].clone());
            assert(str_views(out@) =~= before.push(files@[i as int]@));
        }
        i = i + 1;
    }
    assert(str_views(files@).subrange(0, files@.len() as int) =~= str_views(files@));
    Ok(sort_paths(out))
}

/// Checks every discovered JSON file, in order; when the tree could not be
/// enumerated, records that one failure instead.
pub fn run(
    target: &str,
    listing: Result<Vec<Source<Vec<u8>>>, String>,
    schemas: &SchemaValidators,
    result: &mut CategoryResult,
)
    ensures
        final(result).category == old(result).category,
        final(result).skipped == old(result).skipped,
        final(result).duration_ms == old(result).duration_ms,
        match listing {
            Err(e) => tally_of(*final(result)) == tally_item(
                tally_of(*old(result)),
                seq![enumeration_failure(Category::Schema, target@, e@)],
            ),
            Ok(files) => tally_of(*final(result)) == tally_counted_items(
                tally_of(*old(result)),
                files@.map_values(|f: Source<Vec<u8>>| schema_file_outcome(f, schemas.view())),
            ),
        },
{
    match listing {
        Err(e) => {
            result.record_enumeration_failure(Category::Schema, target, e.as_str());
        },
        Ok(files) => {
            let ghost t0 = tally_of(*result);
            let ghost outcomes = files@.map_values(|f: Source<Vec<u8>>| schema_file_outcome(f, schemas.view()));
            let mut i: usize = 0;
            while i < files.len()
                invariant
                    i <= files@.len(),
                    outcomes == files@.map_values(|f: Source<Vec<u8>>| schema_file_outcome(f, schemas.view())),
                    tally_of(*result) == tally_counted_items(t0, outcomes.subrange(0, i as int)),
                    result.category == old(result).category,
                    result.skipped == old(result).skipped,
                    result.duration_ms == old(result).duration_ms,
                decreases files@.len() - i,
            {
                validate_schema_file(&files[i], schemas, result);
                assert(outcomes.subrange(0, i + 1).drop_last() =~= outcomes.subrange(0, i as int));
                i = i + 1;
            }
            assert(outcomes.subrange(0, files@.len() as int) =~= outcomes);
        },
    }
}

} // verus!
