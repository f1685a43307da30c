//! Template validator: each file named like one of the canonical RWP
//! templates must hash (SHA-256 over a canonical form) to the canonical
//! template's hash.
//!
//! Canonical form: strip a leading UTF-8 BOM, turn CRLF and lone CR into
//! LF, and end with exactly one LF. Trailing spaces on lines are kept.
use vstd::prelude::*;
use sha2::Digest;
use crate::text::{digit_char, push_char, owned, push_str};
use crate::{Category, CategoryResult, Failure, FailureKind, FailureView, Source};
use crate::{failure_views, tally_of, tally_item, tally_items, enumeration_failure};
use crate::validators::paths::{file_name_of, file_name_spec, sort_paths, sorted_paths, str_views};
use crate::validators::walk::{walk, walk_spec, ClaimRule, Node};

verus! {

/// The seventeen canonical template file names.
pub const TEMPLATE_NAMES: [&'static str; 17] = [
    "DEPENDENCIES.yaml.template",
    "INTAKE.yaml.template",
    "MANIFEST-PLAN.yaml.template",
    "MASTERPLAN.yaml.template",
    "PLAN-STATE.yaml.template",
    "PLAN.md.template",
    "PROMPT.md.template",
    "sequences.yaml.template",
    "START-PROMPT.md.template",
    "ACS-TEMPLATE.md",
    "AVD-TEMPLATE.md",
    "HANDOFF-COMPLETE-DISPLAY.md.template",
    "PHASE-COMPLETE-DISPLAY.md.template",
    "PLAN-COMMIT-DISPLAY.md.template",
    "PLAN-DRAFT-DISPLAY.md.template",
    "HANDOFF-TEMPLATE.md",
    "PHASE-AUDIT.md",
];

// ---------------------------------------------------------------------------
// Canonical form
// ---------------------------------------------------------------------------

pub open spec fn has_bom(b: Seq<u8>) -> bool {
    b.len() >= 3 && b[0] == 0xef && b[1] == 0xbb && b[2] == 0xbf
}

pub open spec fn strip_bom(b: Seq<u8>) -> Seq<u8> {
    if has_bom(b) {
        b.skip(3)
    } else {
        b
    }
}

/// CRLF and lone CR become LF; every other byte is kept.
pub open spec fn normalize_eol(b: Seq<u8>) -> Seq<u8>
    decreases b.len(),
{
    if b.len() == 0 {
        Seq::empty()
    } else if b[0] == 0x0d {
        if b.len() >= 2 && b[1] == 0x0a {
            seq![0x0au8] + normalize_eol(b.skip(2))
        } else {
            seq![0x0au8] + normalize_eol(b.skip(1))
        }
    } else {
        seq![b[0]] + normalize_eol(b.skip(1))
    }
}

/// Drops every trailing LF.
pub open spec fn strip_trailing_lf(s: Seq<u8>) -> Seq<u8>
    decreases s.len(),
{
    if s.len() > 0 && s.last() == 0x0a {
        strip_trailing_lf(s.drop_last())
    } else {
        s
    }
}

/// The canonical form of a text.
pub open spec fn canonical(b: Seq<u8>) -> Seq<u8> {
    strip_trailing_lf(normalize_eol(strip_bom(b))).push(0x0a)
}

/// Strips a UTF-8 BOM, normalizes CRLF and lone CR to LF, and ensures exactly
/// one trailing LF.
pub fn canonicalize(bytes: &[u8]) -> (out: Vec<u8>)
    ensures
        out@ == canonical(bytes@),
{
    let ghost b = bytes@;
    let has = bytes.len() >= 3 && bytes[0] == 0xef && bytes[1] == 0xbb && bytes[2] == 0xbf;
    let start: usize = if has { 3 } else { 0 };
    let ghost body = strip_bom(b);
    assert(body =~= b.skip(start as int));

    let mut out: Vec<u8> = Vec::new();
    let mut i: usize = start;
    assert(b.skip(i as int) =~= body);
    while i < bytes.len()
        invariant
            bytes@ == b,
            start <= i <= b.len(),
            body == b.skip(start as int),
            normalize_eol(body) == out@ + normalize_eol(b.skip(i as int)),
        decreases b.len() - i,
    {
        let c = bytes[i];
        let ghost rest = b.skip(i as int);
        if c == 0x0d {
            out.push(0x0a);
            if i + 1 < bytes.len() && bytes[i + 1] == 0x0a {
                assert(rest.skip(2) =~= b.skip(i + 2));
                i = i + 2;
            } else {
                assert(rest.skip(1) =~= b.skip(i + 1));
                i = i + 1;
            }
        } else {
            out.push(c);
            assert(rest.skip(1) =~= b.skip(i + 1));
            i = i + 1;
        }
        assert(normalize_eol(body) =~= out@ + normalize_eol(b.skip(i as int)));
    }
    assert(b.skip(i as int) =~= Seq::<u8>::empty());
    assert(out@ + Seq::<u8>::empty() =~= out@);
    let ghost normalized = out@;
    while out.len() > 0 && out[out.len() - 1] == 0x0a
        invariant
            strip_trailing_lf(normalized) == strip_trailing_lf(out@),
        decreases out@.len(),
    {
        out.pop();
    }
    out.push(0x0a);
    out
}

proof fn lemma_normalize_no_cr(b: Seq<u8>)
    ensures
        forall|k: int| 0 <= k < normalize_eol(b).len() ==> normalize_eol(b)[k] != 0x0d,
        normalize_eol(b).len() <= b.len(),
    decreases b.len(),
{
    if b.len() > 0 {
        if b[0] == 0x0d && b.len() >= 2 && b[1] == 0x0a {
            lemma_normalize_no_cr(b.skip(2));
        } else {
            lemma_normalize_no_cr(b.skip(1));
        }
    }
}

proof fn lemma_normalize_cr_free(b: Seq<u8>)
    requires
        forall|k: int| 0 <= k < b.len() ==> b[k] != 0x0d,
    ensures
        normalize_eol(b) == b,
    decreases b.len(),
{
    if b.len() > 0 {
        lemma_normalize_cr_free(b.skip(1));
        assert(seq![b[0]] + b.skip(1) =~= b);
    }
}

proof fn lemma_strip_trailing_lf(s: Seq<u8>)
    ensures
        strip_trailing_lf(s).len() <= s.len(),
        strip_trailing_lf(s) == s.subrange(0, strip_trailing_lf(s).len() as int),
        strip_trailing_lf(s).len() == 0 || strip_trailing_lf(s).last() != 0x0a,
    decreases s.len(),
{
    if s.len() > 0 && s.last() == 0x0a {
        lemma_strip_trailing_lf(s.drop_last());
        let r = strip_trailing_lf(s.drop_last());
        assert(r =~= s.subrange(0, r.len() as int));
    } else {
        assert(s =~= s.subrange(0, s.len() as int));
    }
}

/// The first byte of the normalized text, and the rest.
proof fn lemma_normalize_first(b: Seq<u8>)
    requires
        b.len() > 0,
    ensures
        normalize_eol(b).len() > 0,
        normalize_eol(b)[0] == (if b[0] == 0x0d { 0x0au8 } else { b[0] }),
        b[0] != 0x0d ==> normalize_eol(b).skip(1) == normalize_eol(b.skip(1)),
{
    if b[0] == 0x0d {
        if b.len() >= 2 && b[1] == 0x0a {
            assert((seq![0x0au8] + normalize_eol(b.skip(2)))[0] == 0x0a);
        } else {
            assert((seq![0x0au8] + normalize_eol(b.skip(1)))[0] == 0x0a);
        }
    } else {
        assert((seq![b[0]] + normalize_eol(b.skip(1))).skip(1) =~= normalize_eol(b.skip(1)));
    }
}

proof fn lemma_bom_commutes_with_normalize(b: Seq<u8>)
    ensures
        strip_bom(normalize_eol(b)) == normalize_eol(strip_bom(b)),
{
    let n0 = normalize_eol(b);
    if b.len() > 0 {
        lemma_normalize_first(b);
        if b[0] != 0x0d && b.len() > 1 {
            let b1 = b.skip(1);
            lemma_normalize_first(b1);
            assert(n0[1] == normalize_eol(b1)[0]);
            if b1[0] != 0x0d && b1.len() > 1 {
                let b2 = b1.skip(1);
                lemma_normalize_first(b2);
                assert(n0[2] == normalize_eol(b2)[0]);
                if has_bom(b) {
                    assert(b.skip(3) =~= b2.skip(1));
                    assert(n0.skip(3) =~= normalize_eol(b2).skip(1));
                }
            }
        }
    }
}

/// Canonicalizing twice gives the same bytes as canonicalizing once, except
/// when the canonical form itself starts with a BOM (an input that began
/// with two BOMs).
pub proof fn law_canonical_idempotent(b: Seq<u8>)
    requires
        !has_bom(canonical(b)),
    ensures
        canonical(canonical(b)) == canonical(b),
{
    let n = normalize_eol(strip_bom(b));
    let p = strip_trailing_lf(n);
    let c = canonical(b);
    lemma_normalize_no_cr(strip_bom(b));
    lemma_strip_trailing_lf(n);
    assert forall|k: int| 0 <= k < c.len() implies c[k] != 0x0d by {
        if k < p.len() {
            assert(p[k] == n[k]);
        }
    }
    lemma_normalize_cr_free(c);
    assert(c.drop_last() =~= p);
    if p.len() > 0 {
        assert(strip_trailing_lf(p) == p);
    }
}

/// The canonical form does not depend on the line-ending style: normalizing
/// CRLF and lone CR to LF beforehand changes nothing.
pub proof fn law_canonical_ignores_line_endings(b: Seq<u8>)
    ensures
        canonical(normalize_eol(b)) == canonical(b),
{
    lemma_bom_commutes_with_normalize(b);
    lemma_normalize_no_cr(strip_bom(b));
    lemma_normalize_cr_free(normalize_eol(strip_bom(b)));
}

/// The canonical form ends with exactly one LF and holds no CR.
pub proof fn law_canonical_shape(b: Seq<u8>)
    ensures
        canonical(b).len() >= 1,
        canonical(b).last() == 0x0a,
        canonical(b).len() == 1 || canonical(b)[canonical(b).len() - 2] != 0x0a,
        forall|k: int| 0 <= k < canonical(b).len() ==> canonical(b)[k] != 0x0d,
{
    let n = normalize_eol(strip_bom(b));
    let p = strip_trailing_lf(n);
    lemma_normalize_no_cr(strip_bom(b));
    lemma_strip_trailing_lf(n);
    assert forall|k: int| 0 <= k < canonical(b).len() implies canonical(b)[k] != 0x0d by {
        if k < p.len() {
            assert(p[k] == n[k]);
        }
    }
}

// ---------------------------------------------------------------------------
// Hashing
// ---------------------------------------------------------------------------

/// The SHA-256 digest of a byte sequence.
pub uninterp spec fn sha256(data: Seq<u8>) -> Seq<u8>;

/// sha2 `Sha256::digest`: the 32-byte SHA-256 digest of `data`.
#[verifier::external_body]
fn sha256_digest(data: &[u8]) -> (r: [u8; 32])
    ensures
        r@ == sha256(data@),
{
    sha2::Sha256::digest(data).into()
}

/// SHA-256 of the canonical form.
pub fn hash_canonical(bytes: &[u8]) -> (r: [u8; 32])
    ensures
        r@ == sha256(canonical(bytes@)),
{
    let canon = canonicalize(bytes);
    sha256_digest(canon.as_slice())
}

pub open spec fn hex_digit(v: nat) -> char {
    if v < 10 {
        digit_char(v)
    } else {
        ((v - 10) + 97) as char
    }
}

/// Lower-case hex, two digits per byte.
pub open spec fn hex_lower_spec(b: Seq<u8>) -> Seq<char>
    decreases b.len(),
{
    if b.len() == 0 {
        Seq::empty()
    } else {
        hex_lower_spec(b.drop_last()) + seq![hex_digit((b.last() / 16) as nat), hex_digit((b.last() % 16) as nat)]
    }
}

fn hex_digit_of(v: u8) -> (c: char)
    requires
        v < 16,
    ensures
        c == hex_digit(v as nat),
{
    if v == 0 { '0' } else if v == 1 { '1' } else if v == 2 { '2' } else if v == 3 { '3' }
    else if v == 4 { '4' } else if v == 5 { '5' } else if v == 6 { '6' } else if v == 7 { '7' }
    else if v == 8 { '8' } else if v == 9 { '9' } else if v == 10 { 'a' } else if v == 11 { 'b' }
    else if v == 12 { 'c' } else if v == 13 { 'd' } else if v == 14 { 'e' } else { 'f' }
}

pub fn hex_lower(digest: &[u8; 32]) -> (s: String)
    ensures
        s@ == hex_lower_spec(digest@),
{
    let mut s = String::new();
    let mut i: usize = 0;
    while i < 32
        invariant
            i <= 32,
            digest@.len() == 32,
            s@ == hex_lower_spec(digest@.subrange(0, i as int)),
        decreases 32 - i,
    {
        let byte = digest[i];
        assert(digest@.subrange(0, i + 1).drop_last() =~= digest@.subrange(0, i as int));
        push_char(&mut s, hex_digit_of(byte / 16));
        push_char(&mut s, hex_digit_of(byte % 16));
        i = i + 1;
        assert(s@ =~= hex_lower_spec(digest@.subrange(0, i as int)));
    }
    assert(digest@.subrange(0, 32) =~= digest@);
    s
}


// ---------------------------------------------------------------------------
// Canonical names and hashes
// ---------------------------------------------------------------------------

pub open spec fn template_names() -> Seq<Seq<char>> {
    TEMPLATE_NAMES@.map_values(|s: &str| s@)
}

/// The first template whose name equals `n`.
pub open spec fn template_index(n: Seq<char>) -> Option<int> {
    if exists|i: int| 0 <= i < 17 && template_names()[i] == n {
        Some(choose|i: int| 0 <= i < 17 && template_names()[i] == n && forall|j: int| 0 <= j < i ==> template_names()[j] != n)
    } else {
        None
    }
}

/// The canonical template a path names, by its full file name.
pub open spec fn canonical_name_spec(path: Seq<char>) -> Option<Seq<char>> {
    match file_name_spec(path) {
        Some(n) => match template_index(n) {
            Some(i) => Some(template_names()[i]),
            None => None,
        },
        None => None,
    }
}

fn template_index_of(n: &String) -> (r: Option<usize>)
    ensures
        match template_index(n@) {
            Some(i) => r == Some(i as usize),
            None => r is None,
        },
{
    let mut i: usize = 0;
    while i < 17
        invariant
            i <= 17,
            forall|j: int| 0 <= j < i ==> template_names()[j] != n@,
        decreases 17 - i,
    {
        if *n == owned(TEMPLATE_NAMES[i]) {
            assert(template_names()[i as int] == n@);
            assert forall|j: int| 0 <= j < i implies template_names()[j] != n@ by {}
            let ghost k = choose|k: int| 0 <= k < 17 && template_names()[k] == n@ && forall|j: int| 0 <= j < k ==> template_names()[j] != n@;
            assert(k == i) by {
                if k < i {
                    assert(template_names()[k] != n@);
                } else if k > i {
                    assert(template_names()[i as int] != n@);
                }
            }
            return Some(i);
        }
        i = i + 1;
    }
    None
}

/// The canonical template name matching the file name of `path`, if any.
pub fn canonical_name_for(path: &str) -> (r: Option<&'static str>)
    ensures
        match canonical_name_spec(path@) {
            Some(n) => r matches Some(s) && s@ == n,
            None => r is None,
        },
{
    match file_name_of(path) {
        None => None,
        Some(n) => match template_index_of(&n) {
            Some(i) => Some(TEMPLATE_NAMES[i]),
            None => None,
        },
    }
}

/// The canonical hash of each template, given the templates' canonical texts
/// in [`TEMPLATE_NAMES`] order.
pub fn canonical_hashes(sources: &[Vec<u8>; 17]) -> (r: Vec<(&'static str, [u8; 32])>)
    ensures
        r@.len() == 17,
        forall|i: int| 0 <= i < 17 ==> r@[i].0@ == template_names()[i] && r@[i].1@ == sha256(
            canonical(sources@[i]@),
        ),
{
    let mut r: Vec<(&'static str, [u8; 32])> = Vec::new();
    let mut i: usize = 0;
    while i < 17
        invariant
            i <= 17,
            r@.len() == i,
            forall|k: int| 0 <= k < i ==> r@[k].0@ == template_names()[k] && r@[k].1@ == sha256(
                canonical(sources@[k]@),
            ),
        decreases 17 - i,
    {
        r.push((TEMPLATE_NAMES[i], hash_canonical(sources[i].as_slice())));
        i = i + 1;
    }
    r
}

/// The hash stored for `name`: the first entry with that name.
pub open spec fn lookup_hash(table: Seq<(&'static str, [u8; 32])>, name: Seq<char>) -> Option<Seq<u8>>
    decreases table.len(),
{
    if table.len() == 0 {
        None
    } else if table[0].0@ == name {
        Some(table[0].1@)
    } else {
        lookup_hash(table.skip(1), name)
    }
}

fn lookup_hash_of(table: &Vec<(&'static str, [u8; 32])>, name: &str) -> (r: Option<[u8; 32]>)
    ensures
        match lookup_hash(table@, name@) {
            Some(h) => r matches Some(x) && x@ == h,
            None => r is None,
        },
{
    let target = owned(name);
    let mut i: usize = 0;
    assert(table@.skip(0) =~= table@);
    while i < table.len()
        invariant
            i <= table@.len(),
            target@ == name@,
            lookup_hash(table@, name@) == lookup_hash(table@.skip(i as int), name@),
        decreases table@.len() - i,
    {
        let ghost rest = table@.skip(i as int);
        assert(rest[0] == table@[i as int]);
        if owned(table[i].0) == target {
            return Some(table[i].1);
        }
        assert(rest.skip(1) =~= table@.skip(i + 1));
        i = i + 1;
    }
    None
}

fn same_digest(a: &[u8; 32], b: &[u8; 32]) -> (r: bool)
    ensures
        r == (a@ == b@),
{
    let mut i: usize = 0;
    while i < 32
        invariant
            i <= 32,
            a@.len() == 32,
            b@.len() == 32,
            forall|k: int| 0 <= k < i ==> a@[k] == b@[k],
        decreases 32 - i,
    {
        if a[i] != b[i] {
            return false;
        }
        i = i + 1;
    }
    assert(a@ =~= b@);
    true
}

// ---------------------------------------------------------------------------
// Discovery and the validator entry point
// ---------------------------------------------------------------------------

/// The paths among `s` that name a canonical template, in order.
pub open spec fn select_template_paths(s: Seq<Seq<char>>) -> Seq<Seq<char>>
    decreases s.len(),
{
    if s.len() == 0 {
        Seq::empty()
    } else if canonical_name_spec(s.last()) is Some {
        select_template_paths(s.drop_last()).push(s.last())
    } else {
        select_template_paths(s.drop_last())
    }
}

proof fn lemma_same_multiset_contains<A>(a: Seq<A>, b: Seq<A>, x: A)
    requires
        a.to_multiset() == b.to_multiset(),
        a.contains(x),
    ensures
        b.contains(x),
{
    vstd::seq_lib::to_multiset_contains(a, x);
    vstd::seq_lib::to_multiset_contains(b, x);
}

/// The files of the tree named like a canonical template, in processing
/// order, each with that template's name.
pub fn discover_template_files(target: &str, root: &Node) -> (r: Result<Vec<(String, &'static str)>, String>)
    ensures
        match walk_spec(target@, *root, ClaimRule::Nothing) {
            Ok(w) => r matches Ok(v) && sorted_paths(v@.map_values(|e: (String, &'static str)| e.0))
                && str_views(v@.map_values(|e: (String, &'static str)| e.0)).to_multiset()
                == select_template_paths(w.0).to_multiset()
                && forall|k: int| 0 <= k < v@.len() ==> canonical_name_spec(#[trigger] v@[k].0@) == Some(v@[k].1@),
            Err(e) => r matches Err(m) && m@ == e,
        },
{
    let (files, _) = match walk(target, root, ClaimRule::Nothing) {
        Ok(w) => w,
        Err(e) => return Err(e),
    };
    let mut found: Vec<String> = Vec::new();
    let mut i: usize = 0;
    while i < files.len()
        invariant
            i <= files@.len(),
            forall|k: int| 0 <= k < found@.len() ==> canonical_name_spec(#[trigger] found@[k]@) is Some,
            str_views(found@) == select_template_paths(str_views(files@).subrange(0, i as int)),
        decreases files@.len() - i,
    {
        assert(str_views(files@).subrange(0, i + 1).drop_last() =~= str_views(files@).subrange(0, i as int));
        if canonical_name_for(files[i].as_str()).is_some() {
            let ghost before = str_views(found@);
            found.push(files[i].clone());
            assert(str_views(found@) =~= before.push(files@[i as int]@));
        }
        i = i + 1;
    }
    assert(str_views(files@).subrange(0, files@.len() as int) =~= str_views(files@));
    let ghost found_seq = found@;
    let sorted = sort_paths(found);
    let mut out: Vec<(String, &'static str)> = Vec::new();
    let mut j: usize = 0;
    while j < sorted.len()
        invariant
            j <= sorted@.len(),
            sorted@.to_multiset() == found_seq.to_multiset(),
            forall|k: int| 0 <= k < found_seq.len() ==> canonical_name_spec(#[trigger] found_seq[k]@) is Some,
            out@.len() == j,
            forall|k: int| 0 <= k < j ==> (#[trigger] out@[k]).0 == sorted@[k] && canonical_name_spec(sorted@[k]@)
                == Some(out@[k].1@),
        decreases sorted@.len() - j,
    {
        proof {
            assert(sorted@.contains(sorted@[j as int]));
            lemma_same_multiset_contains(sorted@, found_seq, sorted@[j as int]);
        }
        match canonical_name_for(sorted[j].as_str()) {
            Some(name) => {
                out.push((sorted[j].clone(), name));
            },
            None => vstd::pervasive::unreached(),
        }
        j = j + 1;
    }
    assert(out@.map_values(|e: (String, &'static str)| e.0) =~= sorted@);
    Ok(out)
}


/// The failures one template file produces (none when its canonical hash
/// matches the canonical template's).
pub open spec fn template_outcome(
    f: Source<Vec<u8>>,
    name: Seq<char>,
    table: Seq<(&'static str, [u8; 32])>,
) -> Seq<FailureView> {
    match f.contents {
        Err(e) => seq![(f.path@, Category::Template, FailureKind::Io, "read failed: "@ + e@, None)],
        Ok(bytes) => {
            let actual = sha256(canonical(bytes@));
            match lookup_hash(table, name) {
                None => seq![
                    (
                        f.path@,
                        Category::Template,
                        FailureKind::Internal,
                        "no embedded canonical hash for template '"@ + name + "'"@,
                        None,
                    ),
                ],
                Some(expected) => if actual == expected {
                    Seq::empty()
                } else {
                    seq![
                        (
                            f.path@,
                            Category::Template,
                            FailureKind::TemplateRenderDiff,
                            "template '"@ + name + "' has drifted from the canonical RWP version"@,
                            Some(
                                "expected_sha256="@ + hex_lower_spec(expected) + " actual_sha256="@ + hex_lower_spec(
                                    actual,
                                ),
                            ),
                        ),
                    ]
                },
            }
        },
    }
}

/// Checks one template file against the canonical hash of `canonical_name`.
pub fn validate_one(
    file: &Source<Vec<u8>>,
    canonical_name: &str,
    canonicals: &Vec<(&'static str, [u8; 32])>,
    result: &mut CategoryResult,
)
    ensures
        tally_of(*final(result)) == tally_item(
            tally_of(*old(result)),
            template_outcome(*file, canonical_name@, canonicals@),
        ),
        final(result).category == old(result).category,
        final(result).skipped == old(result).skipped,
        final(result).duration_ms == old(result).duration_ms,
{
    let mut item: Vec<Failure> = Vec::new();
    match &file.contents {
        Err(err) => {
            let mut message = owned("read failed: ");
            push_str(&mut message, err.as_str());
            item.push(Failure {
                fixture: file.path.clone(),
                category: Category::Template,
                kind: FailureKind::Io,
                message,
                details: None,
            });
        },
        Ok(bytes) => {
            let actual = hash_canonical(bytes.as_slice());
            match lookup_hash_of(canonicals, canonical_name) {
                None => {
                    let mut message = owned("no embedded canonical hash for template '");
                    push_str(&mut message, canonical_name);
                    push_str(&mut message, "'");
                    item.push(Failure {
                        fixture: file.path.clone(),
                        category: Category::Template,
                        kind: FailureKind::Internal,
                        message,
                        details: None,
                    });
                },
                Some(expected) => {
                    if !same_digest(&actual, &expected) {
                        let mut message = owned("template '");
                        push_str(&mut message, canonical_name);
                        push_str(&mut message, "' has drifted from the canonical RWP version");
                        let mut details = owned("expected_sha256=");
                        let e = hex_lower(&expected);
                        push_str(&mut details, e.as_str());
                        push_str(&mut details, " actual_sha256=");
                        let a = hex_lower(&actual);
                        push_str(&mut details, a.as_str());
                        item.push(Failure {
                            fixture: file.path.clone(),
                            category: Category::Template,
                            kind: FailureKind::TemplateRenderDiff,
                            message,
                            details: Some(details),
                        });
                    }
                },
            }
        },
    }
    assert(failure_views(item@) =~= template_outcome(*file, canonical_name@, canonicals@));
    result.record_item(item);
}

/// Validates every discovered template file (each paired with its canonical
/// name), in order; when the tree could not be enumerated, records that one
/// failure instead.
pub fn run(
    target: &str,
    listing: Result<Vec<(Source<Vec<u8>>, &'static str)>, String>,
    canonicals: &Vec<(&'static str, [u8; 32])>,
    result: &mut CategoryResult,
)
    ensures
        final(result).category == old(result).category,
        final(result).skipped == old(result).skipped,
        final(result).duration_ms == old(result).duration_ms,
        match listing {
            Err(e) => tally_of(*final(result)) == tally_item(
                tally_of(*old(result)),
                seq![enumeration_failure(Category::Template, target@, e@)],
            ),
            Ok(files) => tally_of(*final(result)) == tally_items(
                tally_of(*old(result)),
                files@.map_values(|f: (Source<Vec<u8>>, &'static str)| template_outcome(f.0, f.1@, canonicals@)),
            ),
        },
{
    match listing {
        Err(e) => {
            result.record_enumeration_failure(Category::Template, target, e.as_str());
        },
        Ok(files) => {
            let ghost t0 = tally_of(*result);
            let ghost outcomes = files@.map_values(
                |f: (Source<Vec<u8>>, &'static str)| template_outcome(f.0, f.1@, canonicals@),
            );
            let mut i: usize = 0;
            while i < files.len()
                invariant
                    i <= files@.len(),
                    outcomes == files@.map_values(
                        |f: (Source<Vec<u8>>, &'static str)| template_outcome(f.0, f.1@, canonicals@),
                    ),
                    tally_of(*result) == tally_items(t0, outcomes.subrange(0, i as int)),
                    result.category == old(result).category,
                    result.skipped == old(result).skipped,
                    result.duration_ms == old(result).duration_ms,
                decreases files@.len() - i,
            {
                validate_one(&files[i].0, files[i].1, canonicals, result);
                assert(outcomes.subrange(0, i + 1).drop_last() =~= outcomes.subrange(0, i as int));
                i = i + 1;
            }
            assert(outcomes.subrange(0, files@.len() as int) =~= outcomes);
        },
    }
}

} // verus!
