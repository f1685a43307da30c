//! Path arithmetic on '/'-separated path text: file names, extensions,
//! joining, and the order in which discovered paths are processed.
use vstd::prelude::*;
use crate::text::{chars_of, string_of_chars, push_char, push_str};

verus! {

/// Index just after the last '/' of `p` (0 when there is none).
pub open spec fn piece_start(p: Seq<char>) -> int
    decreases p.len(),
{
    if p.len() == 0 {
        0
    } else if p.last() == '/' {
        p.len() as int
    } else {
        piece_start(p.drop_last())
    }
}

proof fn lemma_piece_start(p: Seq<char>)
    ensures
        0 <= piece_start(p) <= p.len(),
        forall|k: int| piece_start(p) <= k < p.len() ==> p[k] != '/',
        piece_start(p) > 0 ==> p[piece_start(p) - 1] == '/',
    decreases p.len(),
{
    if p.len() > 0 && p.last() != '/' {
        lemma_piece_start(p.drop_last());
        assert forall|k: int| piece_start(p) <= k < p.len() implies p[k] != '/' by {
            if k < p.len() - 1 {
                assert(p.drop_last()[k] == p[k]);
            }
        }
    }
}

/// The final component of a path, as `Path::file_name` gives it: trailing
/// separators and `.` components are ignored, and a final `..` has none.
pub open spec fn file_name_spec(p: Seq<char>) -> Option<Seq<char>>
    decreases p.len(),
{
    if p.len() == 0 {
        None
    } else if p.last() == '/' {
        file_name_spec(p.drop_last())
    } else {
        let s = piece_start(p);
        let piece = p.subrange(s, p.len() as int);
        if piece == seq!['.'] {
            if 0 <= s < p.len() {
                file_name_spec(p.subrange(0, s))
            } else {
                None
            }
        } else if piece == seq!['.', '.'] {
            None
        } else {
            Some(piece)
        }
    }
}

/// Position of the last '.' in `name` (or -1).
pub open spec fn last_dot(name: Seq<char>) -> int
    decreases name.len(),
{
    if name.len() == 0 {
        -1
    } else if name.last() == '.' {
        name.len() - 1
    } else {
        last_dot(name.drop_last())
    }
}

proof fn lemma_last_dot(name: Seq<char>)
    ensures
        -1 <= last_dot(name) < name.len(),
        last_dot(name) >= 0 ==> name[last_dot(name)] == '.',
        forall|k: int| last_dot(name) < k < name.len() ==> name[k] != '.',
    decreases name.len(),
{
    if name.len() > 0 && name.last() != '.' {
        lemma_last_dot(name.drop_last());
        assert forall|k: int| last_dot(name) < k < name.len() implies name[k] != '.' by {
            if k < name.len() - 1 {
                assert(name.drop_last()[k] == name[k]);
            }
        }
    }
}

/// The extension of a file name, as `Path::extension` gives it: the text
/// after the last '.', unless that '.' starts the name.
pub open spec fn extension_spec(name: Seq<char>) -> Option<Seq<char>> {
    let d = last_dot(name);
    if d > 0 {
        Some(name.subrange(d + 1, name.len() as int))
    } else {
        None
    }
}

/// The stem of a file name, as `Path::file_stem` gives it.
pub open spec fn stem_spec(name: Seq<char>) -> Seq<char> {
    let d = last_dot(name);
    if d > 0 {
        name.subrange(0, d)
    } else {
        name
    }
}

fn piece_start_of(p: &Vec<char>, len: usize) -> (s: usize)
    requires
        len <= p@.len(),
    ensures
        s == piece_start(p@.subrange(0, len as int)),
{
    let mut k = len;
    while k > 0 && p[k - 1] != '/'
        invariant
            k <= len <= p@.len(),
            piece_start(p@.subrange(0, len as int)) == piece_start(p@.subrange(0, k as int)),
        decreases k,
    {
        assert(p@.subrange(0, k as int).drop_last() =~= p@.subrange(0, k - 1));
        k = k - 1;
    }
    if k > 0 {
        assert(p@.subrange(0, k as int).last() == '/');
    }
    k
}

/// The final component of `path` (see [`file_name_spec`]).
pub fn file_name_of(path: &str) -> (r: Option<String>)
    ensures
        match file_name_spec(path@) {
            Some(n) => r matches Some(s) && s@ == n,
            None => r is None,
        },
{
    let p = chars_of(path);
    let mut len = p.len();
    assert(p@.subrange(0, len as int) =~= path@);
    loop
        invariant
            len <= p@.len(),
            p@ == path@,
            file_name_spec(path@) == file_name_spec(p@.subrange(0, len as int)),
        decreases len,
    {
        if len == 0 {
            return None;
        }
        let ghost q = p@.subrange(0, len as int);
        if p[len - 1] == '/' {
            assert(q.drop_last() =~= p@.subrange(0, len - 1));
            len = len - 1;
            continue;
        }
        let s = piece_start_of(&p, len);
        proof {
            lemma_piece_start(q);
        }
        let piece_len = len - s;
        let ghost piece = q.subrange(s as int, len as int);
        assert(piece =~= p@.subrange(s as int, len as int));
        if piece_len == 1 && p[s] == '.' {
            assert(piece =~= seq!['.']);
            assert(q.subrange(0, s as int) =~= p@.subrange(0, s as int));
            len = s;
            continue;
        }
        if piece_len == 2 && p[s] == '.' && p[s + 1] == '.' {
            assert(piece =~= seq!['.', '.']);
            return None;
        }
        assert(piece != seq!['.']) by {
            if piece_len == 1 {
                assert(piece[0] == p@[s as int]);
            } else {
                assert(piece.len() != 1);
            }
        }
        assert(piece != seq!['.', '.']) by {
            if piece_len == 2 {
                assert(piece[0] == p@[s as int] && piece[1] == p@[s + 1]);
            } else {
                assert(piece.len() != 2);
            }
        }
        return Some(string_of_chars(&p.as_slice()[s..len]));
    }
}

fn last_dot_of(name: &Vec<char>) -> (d: Option<usize>)
    ensures
        match d {
            Some(k) => last_dot(name@) == k,
            None => last_dot(name@) == -1,
        },
{
    let mut k = name.len();
    assert(name@.subrange(0, k as int) =~= name@);
    while k > 0 && name[k - 1] != '.'
        invariant
            k <= name@.len(),
            last_dot(name@) == last_dot(name@.subrange(0, k as int)),
        decreases k,
    {
        assert(name@.subrange(0, k as int).drop_last() =~= name@.subrange(0, k - 1));
        k = k - 1;
    }
    if k == 0 {
        None
    } else {
        Some(k - 1)
    }
}

/// The extension of a file name (see [`extension_spec`]).
pub fn extension_of(name: &str) -> (r: Option<String>)
    ensures
        match extension_spec(name@) {
            Some(e) => r matches Some(s) && s@ == e,
            None => r is None,
        },
{
    let v = chars_of(name);
    let n = v.len();
    match last_dot_of(&v) {
        Some(d) => {
            if d > 0 {
                proof {
                    lemma_last_dot(v@);
                }
                Some(string_of_chars(&v.as_slice()[d + 1..n]))
            } else {
                None
            }
        },
        None => None,
    }
}

/// The stem of a file name (see [`stem_spec`]).
pub fn stem_of(name: &str) -> (r: String)
    ensures
        r@ == stem_spec(name@),
{
    let v = chars_of(name);
    match last_dot_of(&v) {
        Some(d) => {
            if d > 0 {
                proof {
                    lemma_last_dot(v@);
                }
                string_of_chars(&v.as_slice()[0..d])
            } else {
                string_of_chars(v.as_slice())
            }
        },
        None => string_of_chars(v.as_slice()),
    }
}

/// `dir` joined with a relative component `name`, as `Path::join` does.
pub open spec fn join_spec(dir: Seq<char>, name: Seq<char>) -> Seq<char> {
    if dir.len() == 0 || dir.last() == '/' {
        dir + name
    } else {
        dir + seq!['/'] + name
    }
}

pub fn join(dir: &str, name: &str) -> (r: String)
    ensures
        r@ == join_spec(dir@, name@),
{
    let d = chars_of(dir);
    let mut r = string_of_chars(d.as_slice());
    if d.len() > 0 && d[d.len() - 1] != '/' {
        push_char(&mut r, '/');
    }
    push_str(&mut r, name);
    r
}


/// `dir` joined with `rel` as `Path::join` does: an absolute `rel` replaces
/// `dir`.
pub open spec fn resolve_spec(dir: Seq<char>, rel: Seq<char>) -> Seq<char> {
    if rel.len() > 0 && rel[0] == '/' {
        rel
    } else {
        join_spec(dir, rel)
    }
}

pub fn resolve(dir: &str, rel: &str) -> (r: String)
    ensures
        r@ == resolve_spec(dir@, rel@),
{
    let v = chars_of(rel);
    if v.len() > 0 && v[0] == '/' {
        string_of_chars(v.as_slice())
    } else {
        join(dir, rel)
    }
}

// ---------------------------------------------------------------------------
// Processing order
// ---------------------------------------------------------------------------

/// Characters compared with '/' below every other character, so that paths
/// sharing a prefix order component by component.
pub open spec fn path_key(c: char) -> int {
    if c == '/' {
        -1
    } else {
        (c as u32) as int
    }
}

/// Strict path order: lexicographic on [`path_key`].
pub open spec fn path_lt(a: Seq<char>, b: Seq<char>) -> bool
    decreases a.len(),
{
    if a.len() == 0 {
        b.len() > 0
    } else if b.len() == 0 {
        false
    } else if path_key(a[0]) != path_key(b[0]) {
        path_key(a[0]) < path_key(b[0])
    } else {
        path_lt(a.skip(1), b.skip(1))
    }
}

pub open spec fn str_views(v: Seq<String>) -> Seq<Seq<char>> {
    v.map_values(|s: String| s@)
}

/// Paths in non-decreasing order.
pub open spec fn sorted_paths(v: Seq<String>) -> bool {
    forall|i: int, j: int| 0 <= i < j < v.len() ==> !path_lt(v[j]@, v[i]@)
}

proof fn lemma_path_lt_irreflexive(a: Seq<char>)
    ensures
        !path_lt(a, a),
    decreases a.len(),
{
    if a.len() > 0 {
        lemma_path_lt_irreflexive(a.skip(1));
    }
}

proof fn lemma_path_lt_asymmetric(a: Seq<char>, b: Seq<char>)
    ensures
        !(path_lt(a, b) && path_lt(b, a)),
    decreases a.len(),
{
    if a.len() > 0 && b.len() > 0 && path_key(a[0]) == path_key(b[0]) {
        lemma_path_lt_asymmetric(a.skip(1), b.skip(1));
    }
}

proof fn lemma_path_lt_transitive(a: Seq<char>, b: Seq<char>, c: Seq<char>)
    requires
        path_lt(a, b),
        path_lt(b, c),
    ensures
        path_lt(a, c),
    decreases a.len(),
{
    if a.len() > 0 && b.len() > 0 && c.len() > 0 && path_key(a[0]) == path_key(b[0]) && path_key(b[0])
        == path_key(c[0]) {
        lemma_path_lt_transitive(a.skip(1), b.skip(1), c.skip(1));
    }
}

proof fn lemma_path_lt_total(a: Seq<char>, b: Seq<char>)
    ensures
        a == b || path_lt(a, b) || path_lt(b, a),
    decreases a.len(),
{
    if a.len() > 0 && b.len() > 0 && path_key(a[0]) == path_key(b[0]) {
        lemma_path_lt_total(a.skip(1), b.skip(1));
        vstd::utf8::char_u32_cast(a[0], a[0] as u32);
        vstd::utf8::char_u32_cast(b[0], b[0] as u32);
        assert(a[0] == b[0]);
        if a.skip(1) == b.skip(1) {
            assert(a =~= seq![a[0]] + a.skip(1));
            assert(b =~= seq![b[0]] + b.skip(1));
        }
    } else if a.len() == 0 && b.len() == 0 {
        assert(a =~= b);
    }
}

/// Whether path text `a` orders strictly before `b`.
pub fn path_less(a: &str, b: &str) -> (r: bool)
    ensures
        r == path_lt(a@, b@),
{
    let x = chars_of(a);
    let y = chars_of(b);
    let mut i: usize = 0;
    assert(x@.skip(0) =~= x@);
    assert(y@.skip(0) =~= y@);
    loop
        invariant
            x@ == a@,
            y@ == b@,
            i <= x@.len(),
            i <= y@.len(),
            path_lt(a@, b@) == path_lt(x@.skip(i as int), y@.skip(i as int)),
        decreases x@.len() - i,
    {
        let ghost xs = x@.skip(i as int);
        let ghost ys = y@.skip(i as int);
        if i == x.len() {
            return i < y.len();
        }
        if i == y.len() {
            return false;
        }
        let cx = x[i];
        let cy = y[i];
        assert(xs[0] == cx && ys[0] == cy);
        if cx != cy {
            assert((cx as u32) != (cy as u32)) by {
                vstd::utf8::char_u32_cast(cx, cx as u32);
                vstd::utf8::char_u32_cast(cy, cy as u32);
            }
            if cx == '/' {
                return true;
            }
            if cy == '/' {
                return false;
            }
            return (cx as u32) < (cy as u32);
        }
        assert(xs.skip(1) =~= x@.skip(i + 1));
        assert(ys.skip(1) =~= y@.skip(i + 1));
        i = i + 1;
    }
}

/// Sorts paths into [`path_lt`] order (the component-wise order of `Path`).
pub fn sort_paths(v: Vec<String>) -> (r: Vec<String>)
    ensures
        r@.to_multiset() == v@.to_multiset(),
        str_views(r@).to_multiset() == str_views(v@).to_multiset(),
        sorted_paths(r@),
{
    broadcast use vstd::multiset::group_multiset_axioms;
    let ghost orig = v@;
    let mut rest = v;
    let mut out: Vec<String> = Vec::new();
    assert(out@ =~= Seq::<String>::empty());
    proof {
        vstd::seq_lib::to_multiset_len(out@);
        vstd::multiset::lemma_multiset_empty_len(out@.to_multiset());
    }
    assert(out@.to_multiset() =~= vstd::multiset::Multiset::empty());
    assert(orig.to_multiset() =~= rest@.to_multiset().add(out@.to_multiset()));
    proof {
        vstd::seq_lib::to_multiset_len(str_views(out@));
        vstd::multiset::lemma_multiset_empty_len(str_views(out@).to_multiset());
    }
    assert(str_views(orig).to_multiset() =~= str_views(rest@).to_multiset().add(str_views(out@).to_multiset()));
    while rest.len() > 0
        invariant
            orig.to_multiset() == rest@.to_multiset().add(out@.to_multiset()),
            str_views(orig).to_multiset() == str_views(rest@).to_multiset().add(str_views(out@).to_multiset()),
            sorted_paths(out@),
        decreases rest@.len(),
    {
        let ghost before = rest@;
        let x = rest.pop().unwrap();
        assert(before =~= rest@.push(x));
        proof {
            vstd::seq_lib::to_multiset_build(rest@, x);
            assert(str_views(before) =~= str_views(rest@).push(x@));
            vstd::seq_lib::to_multiset_build(str_views(rest@), x@);
        }
        assert(before.to_multiset() =~= rest@.to_multiset().insert(x));
        let mut k: usize = 0;
        while k < out.len() && !path_less(x.as_str(), out[k].as_str())
            invariant
                k <= out@.len(),
                forall|i: int| 0 <= i < k ==> !path_lt(x@, out@[i]@),
            decreases out@.len() - k,
        {
            k = k + 1;
        }
        let ghost old_out = out@;
        out.insert(k, x);
        assert(out@ == old_out.insert(k as int, x));
        proof {
            vstd::seq_lib::to_multiset_insert(old_out, k as int, x);
            assert(str_views(out@) =~= str_views(old_out).insert(k as int, x@));
            vstd::seq_lib::to_multiset_insert(str_views(old_out), k as int, x@);
        }
        assert(out@.to_multiset() =~= old_out.to_multiset().insert(x));
        assert(orig.to_multiset() =~= rest@.to_multiset().add(out@.to_multiset()));
        assert(str_views(orig).to_multiset() =~= str_views(rest@).to_multiset().add(str_views(out@).to_multiset()));
        assert forall|i: int, j: int| 0 <= i < j < out@.len() implies !path_lt(out@[j]@, out@[i]@) by {
            if j < k {
                assert(out@[i] == old_out[i] && out@[j] == old_out[j]);
            } else if j == k {
                assert(out@[i] == old_out[i]);
            } else if i == k {
                assert(out@[j] == old_out[j - 1]);
                assert(path_lt(x@, old_out[k as int]@));
                if j - 1 > k {
                    lemma_path_lt_total(old_out[k as int]@, old_out[j - 1]@);
                    if path_lt(old_out[k as int]@, old_out[j - 1]@) {
                        lemma_path_lt_transitive(x@, old_out[k as int]@, old_out[j - 1]@);
                    }
                }
                lemma_path_lt_asymmetric(x@, old_out[j - 1]@);
            } else if i < k {
                assert(out@[i] == old_out[i] && out@[j] == old_out[j - 1]);
            } else {
                assert(out@[i] == old_out[i - 1] && out@[j] == old_out[j - 1]);
            }
        }
    }
    proof {
        vstd::seq_lib::to_multiset_len(rest@);
        vstd::multiset::lemma_multiset_empty_len(rest@.to_multiset());
    }
    assert(rest@.to_multiset() =~= vstd::multiset::Multiset::empty());
    assert(orig.to_multiset() =~= out@.to_multiset());
    proof {
        vstd::seq_lib::to_multiset_len(str_views(rest@));
        vstd::multiset::lemma_multiset_empty_len(str_views(rest@).to_multiset());
    }
    assert(str_views(orig).to_multiset() =~= str_views(out@).to_multiset());
    out
}

} // verus!
