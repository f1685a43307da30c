//! Adapter validator: the shape of an integration adapter's `MANIFEST.yaml`.
//!
//! An adapter root is a directory holding `MANIFEST.yaml`; nothing below a
//! root is searched. The manifest must be a YAML mapping with
//!
//! ADP-1  an `integration:` mapping, in which
//! ADP-2  `name`,
//! ADP-3  `platform`,
//! ADP-4  `rwp_version` and
//! ADP-5  `version` are non-empty strings, and
//! ADP-6  a `components:` mapping (an empty one is fine).
//!
//! Each adapter counts once, however many rules it breaks.
use vstd::prelude::*;
use serde_yml::Value as Y;
use crate::text::{owned, push_str};
use crate::{Category, CategoryResult, Failure, FailureKind, FailureView, Source};
use crate::{failure_views, tally_of, tally_item, tally_items, enumeration_failure};
use crate::validators::paths::{join, join_spec, sort_paths, sorted_paths, str_views};
use crate::validators::walk::{walk, walk_spec, ClaimRule, Node};

verus! {

/// A YAML value as the checks read it.
#[derive(Debug)]
pub enum YamlValue {
    Null,
    Bool(bool),
    /// A number (its value is never read).
    Number,
    String(String),
    Sequence(Vec<YamlValue>),
    /// Key/value pairs in document order, each key once.
    Mapping(Vec<(String, YamlValue)>),
    /// A value under a custom tag: the tag and the value.
    Tagged(String, Box<YamlValue>),
}

/// What parsing a YAML document gives: its value, or the parser's message.
/// Parsing is a function of the text alone.
pub uninterp spec fn yaml_parse(text: Seq<char>) -> Result<YamlValue, Seq<char>>;

pub open spec fn parsed_view(r: Result<YamlValue, String>) -> Result<YamlValue, Seq<char>> {
    match r {
        Ok(v) => Ok(v),
        Err(e) => Err(e@),
    }
}

#[verifier::external_type_specification]
#[verifier::external_body]
pub struct ExYamlDocument(serde_yml::Value);

/// One `serde_yml::Value` as a [`YamlValue`], variant for variant.
#[verifier::external_body]
fn yaml_of(v: Y) -> YamlValue {
    match v {
        Y::Null => YamlValue::Null,
        Y::Bool(b) => YamlValue::Bool(b),
        Y::Number(_) => YamlValue::Number,
        Y::String(s) => YamlValue::String(s),
        Y::Sequence(s) => YamlValue::Sequence(s.into_iter().map(yaml_of).collect()),
        Y::Mapping(m) => YamlValue::Mapping(m.into_iter().map(|(k, x)| (k, yaml_of(x))).collect()),
        Y::Tagged(t) => YamlValue::Tagged(t.tag().to_string(), Box::new(yaml_of(t.value().clone()))),
    }
}

/// `serde_yml::from_str::<serde_yml::Value>`: the document's value, or the
/// parser's error message. The contract names the result ([`yaml_parse`]);
/// what YAML a text holds is left to the parser.
#[verifier::external_body]
fn parse_yaml(text: &str) -> (r: Result<YamlValue, String>)
    ensures
        parsed_view(r) == yaml_parse(text@),
{
    match serde_yml::from_str::<serde_yml::Value>(text) {
        Ok(v) => Ok(yaml_of(v)),
        Err(e) => Err(e.to_string()),
    }
}

/// The value under `key` in a mapping's pairs.
pub open spec fn map_get(m: Seq<(String, YamlValue)>, key: Seq<char>) -> Option<YamlValue>
    decreases m.len(),
{
    if m.len() == 0 {
        None
    } else if m[0].0@ == key {
        Some(m[0].1)
    } else {
        map_get(m.skip(1), key)
    }
}

fn map_lookup<'a>(m: &'a Vec<(String, YamlValue)>, key: &str) -> (r: Option<&'a YamlValue>)
    ensures
        match map_get(m@, key@) {
            Some(v) => r matches Some(x) && *x == v,
            None => r is None,
        },
{
    let k = owned(key);
    let mut i: usize = 0;
    assert(m@.skip(0) =~= m@);
    while i < m.len()
        invariant
            i <= m@.len(),
            k@ == key@,
            map_get(m@, key@) == map_get(m@.skip(i as int), key@),
        decreases m@.len() - i,
    {
        let ghost rest = m@.skip(i as int);
        assert(rest[0] == m@[i as int]);
        if m[i].0 == k {
            return Some(&m[i].1);
        }
        assert(rest.skip(1) =~= m@.skip(i + 1));
        i = i + 1;
    }
    None
}

pub open spec fn adapter_break(root: Seq<char>, message: Seq<char>) -> FailureView {
    (root, Category::Adapter, FailureKind::AdapterShapeMismatch, message, None)
}

/// ADP-2..5 for one key of the `integration:` mapping.
pub open spec fn required_string_outcome(
    root: Seq<char>,
    integration: Seq<(String, YamlValue)>,
    key: Seq<char>,
    code: Seq<char>,
) -> Seq<FailureView> {
    let head = code + " MANIFEST.yaml integration."@ + key;
    match map_get(integration, key) {
        None => seq![adapter_break(root, head + " is missing"@)],
        Some(YamlValue::String(s)) => if s@.len() > 0 {
            Seq::empty()
        } else {
            seq![adapter_break(root, head + " is an empty string"@)]
        },
        Some(_) => seq![adapter_break(root, head + " is not a string"@)],
    }
}

/// ADP-1..5 for what the manifest holds under `integration`.
pub open spec fn integration_outcome(root: Seq<char>, v: Option<YamlValue>) -> Seq<FailureView> {
    match v {
        None => seq![adapter_break(root, "ADP-1 MANIFEST.yaml is missing the top-level 'integration:' block"@)],
        Some(YamlValue::Mapping(m)) => required_string_outcome(root, m@, "name"@, "ADP-2"@)
            + required_string_outcome(root, m@, "platform"@, "ADP-3"@) + required_string_outcome(
            root,
            m@,
            "rwp_version"@,
            "ADP-4"@,
        ) + required_string_outcome(root, m@, "version"@, "ADP-5"@),
        Some(_) => seq![adapter_break(root, "ADP-1 MANIFEST.yaml 'integration:' is not a mapping"@)],
    }
}

/// ADP-6 for what the manifest holds under `components`.
pub open spec fn components_outcome(root: Seq<char>, v: Option<YamlValue>) -> Seq<FailureView> {
    match v {
        None => seq![adapter_break(root, "ADP-6 MANIFEST.yaml is missing the top-level 'components:' block"@)],
        Some(YamlValue::Mapping(_)) => Seq::empty(),
        Some(YamlValue::Null) => seq![
            adapter_break(root, "ADP-6 MANIFEST.yaml 'components:' is null (expected a mapping; empty map allowed)"@),
        ],
        Some(_) => seq![adapter_break(root, "ADP-6 MANIFEST.yaml 'components:' is not a mapping"@)],
    }
}

/// Every failure a parsed manifest produces, in order.
pub open spec fn manifest_outcome(root: Seq<char>, parsed: Result<YamlValue, Seq<char>>) -> Seq<FailureView> {
    match parsed {
        Err(e) => seq![
            (root, Category::Adapter, FailureKind::AdapterShapeMismatch, "MANIFEST.yaml is not valid YAML"@, Some(e)),
        ],
        Ok(YamlValue::Mapping(m)) => integration_outcome(root, map_get(m@, "integration"@)) + components_outcome(
            root,
            map_get(m@, "components"@),
        ),
        Ok(_) => seq![adapter_break(root, "MANIFEST.yaml top-level value is not a mapping"@)],
    }
}

/// Every failure one adapter root produces, given its manifest text or the
/// error met reading it.
pub open spec fn adapter_outcome(root: Seq<char>, manifest: Result<String, String>) -> Seq<FailureView> {
    match manifest {
        Err(e) => seq![
            (
                root,
                Category::Adapter,
                FailureKind::Io,
                "read failed: "@ + join_spec(root, "MANIFEST.yaml"@),
                Some(e@),
            ),
        ],
        Ok(text) => manifest_outcome(root, yaml_parse(text@)),
    }
}

fn push_adapter_break(item: &mut Vec<Failure>, root: &str, message: String)
    ensures
        failure_views(final(item)@) == failure_views(old(item)@).push(adapter_break(root@, message@)),
{
    let ghost before = item@;
    item.push(Failure {
        fixture: owned(root),
        category: Category::Adapter,
        kind: FailureKind::AdapterShapeMismatch,
        message,
        details: None,
    });
    assert(failure_views(item@) =~= failure_views(before).push(adapter_break(root@, message@)));
}

fn check_required_string(
    item: &mut Vec<Failure>,
    root: &str,
    integration: &Vec<(String, YamlValue)>,
    key: &str,
    code: &str,
)
    ensures
        failure_views(final(item)@) == failure_views(old(item)@) + required_string_outcome(
            root@,
            integration@,
            key@,
            code@,
        ),
{
    let ghost before = failure_views(item@);
    let mut head = owned(code);
    push_str(&mut head, " MANIFEST.yaml integration.");
    push_str(&mut head, key);
    match map_lookup(integration, key) {
        None => {
            push_str(&mut head, " is missing");
            push_adapter_break(item, root, head);
        },
        Some(YamlValue::String(s)) => {
            if s.as_str().unicode_len() == 0 {
                push_str(&mut head, " is an empty string");
                push_adapter_break(item, root, head);
            }
        },
        Some(_) => {
            push_str(&mut head, " is not a string");
            push_adapter_break(item, root, head);
        },
    }
    assert(failure_views(item@) =~= before + required_string_outcome(root@, integration@, key@, code@));
}

/// The failures a parsed manifest produces (see [`manifest_outcome`]).
pub fn check_manifest(root: &str, parsed: &Result<YamlValue, String>) -> (r: Vec<Failure>)
    ensures
        failure_views(r@) == manifest_outcome(root@, parsed_view(*parsed)),
{
    let mut item: Vec<Failure> = Vec::new();
    match parsed {
        Err(e) => {
            item.push(Failure {
                fixture: owned(root),
                category: Category::Adapter,
                kind: FailureKind::AdapterShapeMismatch,
                message: owned("MANIFEST.yaml is not valid YAML"),
                details: Some(e.clone()),
            });
        },
        Ok(YamlValue::Mapping(m)) => {
            match map_lookup(m, "integration") {
                None => push_adapter_break(
                    &mut item,
                    root,
                    owned("ADP-1 MANIFEST.yaml is missing the top-level 'integration:' block"),
                ),
                Some(YamlValue::Mapping(integration)) => {
                    check_required_string(&mut item, root, integration, "name", "ADP-2");
                    check_required_string(&mut item, root, integration, "platform", "ADP-3");
                    check_required_string(&mut item, root, integration, "rwp_version", "ADP-4");
                    check_required_string(&mut item, root, integration, "version", "ADP-5");
                },
                Some(_) => push_adapter_break(
                    &mut item,
                    root,
                    owned("ADP-1 MANIFEST.yaml 'integration:' is not a mapping"),
                ),
            }
            let ghost mid = failure_views(item@);
            match map_lookup(m, "components") {
                None => push_adapter_break(
                    &mut item,
                    root,
                    owned("ADP-6 MANIFEST.yaml is missing the top-level 'components:' block"),
                ),
                Some(YamlValue::Mapping(_)) => {},
                Some(YamlValue::Null) => push_adapter_break(
                    &mut item,
                    root,
                    owned("ADP-6 MANIFEST.yaml 'components:' is null (expected a mapping; empty map allowed)"),
                ),
                Some(_) => push_adapter_break(
                    &mut item,
                    root,
                    owned("ADP-6 MANIFEST.yaml 'components:' is not a mapping"),
                ),
            }
            assert(failure_views(item@) =~= mid + components_outcome(root@, map_get(m@, "components"@)));
        },
        Ok(_) => push_adapter_break(&mut item, root, owned("MANIFEST.yaml top-level value is not a mapping")),
    }
    assert(failure_views(item@) =~= manifest_outcome(root@, parsed_view(*parsed)));
    item
}

/// Checks one adapter root, given its manifest text or the error met reading
/// it, and counts it once: passed when it produced no failure.
pub fn validate_adapter(manifest: &Source<String>, result: &mut CategoryResult)
    ensures
        tally_of(*final(result)) == tally_item(
            tally_of(*old(result)),
            adapter_outcome(manifest.path@, manifest.contents),
        ),
        final(result).category == old(result).category,
        final(result).skipped == old(result).skipped,
        final(result).duration_ms == old(result).duration_ms,
{
    let root = manifest.path.as_str();
    let item = match &manifest.contents {
        Err(e) => {
            let mut m = owned("read failed: ");
            let p = join(root, "MANIFEST.yaml");
            push_str(&mut m, p.as_str());
            let item = vec![
                Failure {
                    fixture: owned(root),
                    category: Category::Adapter,
                    kind: FailureKind::Io,
                    message: m,
                    details: Some(e.clone()),
                },
            ];
            assert(failure_views(item@) =~= adapter_outcome(manifest.path@, manifest.contents));
            item
        },
        Ok(text) => {
            let parsed = parse_yaml(text.as_str());
            check_manifest(root, &parsed)
        },
    };
    result.record_item(item);
}

/// The adapter roots under `target` (directories holding `MANIFEST.yaml`;
/// nothing below a root is searched), in processing order.
pub fn discover_adapter_roots(target: &str, root: &Node) -> (r: Result<Vec<String>, String>)
    ensures
        match walk_spec(target@, *root, ClaimRule::Adapter) {
            Ok(w) => r matches Ok(v) && sorted_paths(v@) && str_views(v@).to_multiset() == w.1.to_multiset(),
            Err(e) => r matches Err(m) && m@ == e,
        },
{
    match walk(target, root, ClaimRule::Adapter) {
        Ok((_, claimed)) => Ok(sort_paths(claimed)),
        Err(e) => Err(e),
    }
}

/// Validates every adapter root (each with its manifest), in order; when the
/// tree could not be enumerated, records that one failure instead.
pub fn run(target: &str, listing: Result<Vec<Source<String>>, String>, result: &mut CategoryResult)
    ensures
        final(result).category == old(result).category,
        final(result).skipped == old(result).skipped,
        final(result).duration_ms == old(result).duration_ms,
        match listing {
            Err(e) => tally_of(*final(result)) == tally_item(
                tally_of(*old(result)),
                seq![enumeration_failure(Category::Adapter, target@, e@)],
            ),
            Ok(manifests) => tally_of(*final(result)) == tally_items(
                tally_of(*old(result)),
                manifests@.map_values(|m: Source<String>| adapter_outcome(m.path@, m.contents)),
            ),
        },
{
    match listing {
        Err(e) => {
            result.record_enumeration_failure(Category::Adapter, target, e.as_str());
        },
        Ok(manifests) => {
            let ghost t0 = tally_of(*result);
            let ghost outcomes = manifests@.map_values(|m: Source<String>| adapter_outcome(m.path@, m.contents));
            let mut i: usize = 0;
            while i < manifests.len()
                invariant
                    i <= manifests@.len(),
                    outcomes == manifests@.map_values(|m: Source<String>| adapter_outcome(m.path@, m.contents)),
                    tally_of(*result) == tally_items(t0, outcomes.subrange(0, i as int)),
                    result.category == old(result).category,
                    result.skipped == old(result).skipped,
                    result.duration_ms == old(result).duration_ms,
                decreases manifests@.len() - i,
            {
                validate_adapter(&manifests[i], result);
                assert(outcomes.subrange(0, i + 1).drop_last() =~= outcomes.subrange(0, i as int));
                i = i + 1;
            }
            assert(outcomes.subrange(0, manifests@.len() as int) =~= outcomes);
        },
    }
}

} // verus!
