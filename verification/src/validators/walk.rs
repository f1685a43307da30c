//! The shared directory walk, over a snapshot of the target tree.
//!
//! Symlinks are never followed, hidden directories (a UTF-8 name starting
//! with '.') are skipped, and a directory that the caller's rule claims is
//! reported and not descended into. A target that is a regular file yields
//! itself; a missing target yields nothing.
use vstd::prelude::*;
use crate::text::owned;
use crate::validators::paths::{join, join_spec, str_views as views};

verus! {

/// File names whose presence (as a regular file, links followed) can make a
/// directory a claimed root.
pub const MARKER_FILES: [&'static str; 3] = ["MANIFEST.yaml", "PLAN.md", "state.yaml"];

/// A snapshot of one filesystem node, as seen without following symlinks.
#[derive(Debug)]
pub enum Node {
    /// Nothing exists at the path (a dangling link included).
    Missing,
    /// The node's metadata could not be read.
    Unreadable(String),
    Symlink,
    File,
    /// Anything that is neither a file, a directory nor a symlink.
    Other,
    Dir {
        /// The names from [`MARKER_FILES`] that are regular files in this directory.
        markers: Vec<String>,
        /// Each entry as (name, whether the name is valid UTF-8, node), or the
        /// error met reading it; or the error met listing the directory.
        listing: Result<Vec<Result<(String, bool, Node), String>>, String>,
    },
}

/// Which directories a walk claims as roots.
#[derive(Debug, Clone, Copy, PartialEq, Eq, Structural)]
pub enum ClaimRule {
    /// Claims nothing: every file is visited.
    Nothing,
    /// A directory holding `MANIFEST.yaml`.
    Adapter,
    /// A directory holding both `PLAN.md` and `state.yaml`.
    Workflow,
}

pub open spec fn has_marker(markers: Seq<String>, name: Seq<char>) -> bool {
    exists|i: int| 0 <= i < markers.len() && markers[i]@ == name
}

pub open spec fn claims(rule: ClaimRule, markers: Seq<String>) -> bool {
    match rule {
        ClaimRule::Nothing => false,
        ClaimRule::Adapter => has_marker(markers, "MANIFEST.yaml"@),
        ClaimRule::Workflow => has_marker(markers, "PLAN.md"@) && has_marker(markers, "state.yaml"@),
    }
}

pub open spec fn is_hidden(name: Seq<char>, utf8: bool) -> bool {
    utf8 && name.len() > 0 && name[0] == '.'
}

/// Files visited and directories claimed, in walk order.
pub type Walked = (Seq<Seq<char>>, Seq<Seq<char>>);

pub open spec fn join_walked(a: Walked, r: Result<Walked, Seq<char>>) -> Result<Walked, Seq<char>> {
    match r {
        Ok(b) => Ok((a.0 + b.0, a.1 + b.1)),
        Err(e) => Err(e),
    }
}

/// Walking a directory that has been entered.
pub open spec fn walk_dir_spec(path: Seq<char>, n: Node, rule: ClaimRule) -> Result<Walked, Seq<char>>
    decreases n, 0int,
{
    match n {
        Node::Dir { markers, listing } => if claims(rule, markers@) {
            Ok((Seq::empty(), seq![path]))
        } else {
            match listing {
                Err(e) => Err(e@),
                Ok(es) => walk_entries(path, es@, 0, rule),
            }
        },
        _ => Ok((Seq::empty(), Seq::empty())),
    }
}

/// Walking the entries `es[i..]` of the directory at `path`.
pub open spec fn walk_entries(
    path: Seq<char>,
    es: Seq<Result<(String, bool, Node), String>>,
    i: int,
    rule: ClaimRule,
) -> Result<Walked, Seq<char>>
    decreases es, es.len() - i,
{
    if i < 0 || i >= es.len() {
        Ok((Seq::empty(), Seq::empty()))
    } else {
        match es[i] {
            Err(e) => Err(e@),
            Ok(entry) => {
                let p = join_spec(path, entry.0@);
                match entry.2 {
                    Node::Symlink => walk_entries(path, es, i + 1, rule),
                    Node::File => join_walked((seq![p], Seq::empty()), walk_entries(path, es, i + 1, rule)),
                    Node::Dir { .. } => if is_hidden(entry.0@, entry.1) {
                        walk_entries(path, es, i + 1, rule)
                    } else {
                        match walk_dir_spec(p, entry.2, rule) {
                            Err(e) => Err(e),
                            Ok(w) => join_walked(w, walk_entries(path, es, i + 1, rule)),
                        }
                    },
                    _ => walk_entries(path, es, i + 1, rule),
                }
            },
        }
    }
}

/// Walking from the target path.
pub open spec fn walk_spec(target: Seq<char>, n: Node, rule: ClaimRule) -> Result<Walked, Seq<char>> {
    match n {
        Node::Missing => Ok((Seq::empty(), Seq::empty())),
        Node::Unreadable(e) => Err(e@),
        Node::File => Ok((seq![target], Seq::empty())),
        Node::Dir { .. } => walk_dir_spec(target, n, rule),
        _ => Ok((Seq::empty(), Seq::empty())),
    }
}


/// A directory the rule claims is reported and nothing inside it is visited.
pub proof fn law_claimed_directory_is_not_entered(
    path: Seq<char>,
    markers: Vec<String>,
    listing: Result<Vec<Result<(String, bool, Node), String>>, String>,
    rule: ClaimRule,
)
    requires
        claims(rule, markers@),
    ensures
        walk_dir_spec(path, Node::Dir { markers, listing }, rule) == Ok::<Walked, Seq<char>>(
            (Seq::empty(), seq![path]),
        ),
{
}

/// A symlink entry, and a hidden directory entry, contribute nothing: the
/// walk of the entries from there on is that of the entries after it.
pub proof fn law_links_and_hidden_directories_are_skipped(
    path: Seq<char>,
    es: Seq<Result<(String, bool, Node), String>>,
    i: int,
    rule: ClaimRule,
)
    requires
        0 <= i < es.len(),
        es[i] matches Ok(e) && (e.2 is Symlink || (e.2 is Dir && is_hidden(e.0@, e.1))),
    ensures
        walk_entries(path, es, i, rule) == walk_entries(path, es, i + 1, rule),
{
}

/// A target that does not exist yields nothing; one that is a regular file
/// yields itself.
pub proof fn law_missing_or_file_target(target: Seq<char>, rule: ClaimRule)
    ensures
        walk_spec(target, Node::Missing, rule) == Ok::<Walked, Seq<char>>((Seq::empty(), Seq::empty())),
        walk_spec(target, Node::File, rule) == Ok::<Walked, Seq<char>>((seq![target], Seq::empty())),
{
}

fn has_marker_of(markers: &Vec<String>, name: &str) -> (r: bool)
    ensures
        r == has_marker(markers@, name@),
{
    let target = owned(name);
    let mut i: usize = 0;
    while i < markers.len()
        invariant
            i <= markers@.len(),
            target@ == name@,
            forall|k: int| 0 <= k < i ==> markers@[k]@ != name@,
        decreases markers@.len() - i,
    {
        if markers[i] == target {
            return true;
        }
        i = i + 1;
    }
    false
}

fn claims_dir(rule: ClaimRule, markers: &Vec<String>) -> (r: bool)
    ensures
        r == claims(rule, markers@),
{
    match rule {
        ClaimRule::Nothing => false,
        ClaimRule::Adapter => has_marker_of(markers, "MANIFEST.yaml"),
        ClaimRule::Workflow => has_marker_of(markers, "PLAN.md") && has_marker_of(markers, "state.yaml"),
    }
}

fn starts_with_dot(name: &str) -> (r: bool)
    ensures
        r == (name@.len() > 0 && name@[0] == '.'),
{
    let v = crate::text::chars_of(name);
    v.len() > 0 && v[0] == '.'
}

fn walk_dir_exec(path: &String, n: &Node, rule: ClaimRule, files: &mut Vec<String>, claimed: &mut Vec<String>) -> (r: Result<(), String>)
    ensures
        match walk_dir_spec(path@, *n, rule) {
            Ok(w) => r is Ok && views(final(files)@) == views(old(files)@) + w.0 && views(final(claimed)@) == views(old(claimed)@) + w.1,
            Err(e) => r matches Err(m) && m@ == e,
        },
    decreases n, 0int,
{
    match n {
        Node::Dir { markers, listing } => {
            if claims_dir(rule, markers) {
                claimed.push(path.clone());
                assert(views(claimed@) =~= views(old(claimed)@) + seq![path@]);
                assert(views(files@) =~= views(old(files)@) + Seq::<Seq<char>>::empty());
                return Ok(());
            }
            match listing {
                Err(e) => Err(e.clone()),
                Ok(es) => walk_entries_exec(path, es, rule, files, claimed),
            }
        },
        _ => {
            assert(views(files@) =~= views(old(files)@) + Seq::<Seq<char>>::empty());
            assert(views(claimed@) =~= views(old(claimed)@) + Seq::<Seq<char>>::empty());
            Ok(())
        },
    }
}

fn walk_entries_exec(
    path: &String,
    es: &Vec<Result<(String, bool, Node), String>>,
    rule: ClaimRule,
    files: &mut Vec<String>,
    claimed: &mut Vec<String>,
) -> (r: Result<(), String>)
    ensures
        match walk_entries(path@, es@, 0, rule) {
            Ok(w) => r is Ok && views(final(files)@) == views(old(files)@) + w.0 && views(final(claimed)@) == views(old(claimed)@) + w.1,
            Err(e) => r matches Err(m) && m@ == e,
        },
    decreases es@, es@.len(),
{
    let mut i: usize = 0;
    let ghost f0 = views(files@);
    let ghost c0 = views(claimed@);
    let ghost mut acc: Walked = (Seq::empty(), Seq::empty());
    assert(f0 =~= f0 + acc.0);
    assert(c0 =~= c0 + acc.1);
    assert(walk_entries(path@, es@, 0, rule) =~= join_walked(acc, walk_entries(path@, es@, 0, rule))) by {
        match walk_entries(path@, es@, 0, rule) {
            Ok(w) => {
                assert(acc.0 + w.0 =~= w.0);
                assert(acc.1 + w.1 =~= w.1);
            },
            Err(_) => {},
        }
    }
    while i < es.len()
        invariant
            i <= es@.len(),
            views(old(files)@) == f0,
            views(old(claimed)@) == c0,
            views(files@) == f0 + acc.0,
            views(claimed@) == c0 + acc.1,
            walk_entries(path@, es@, 0, rule) == join_walked(acc, walk_entries(path@, es@, i as int, rule)),
        decreases es@.len() - i,
    {
        let ghost rest = walk_entries(path@, es@, i as int + 1, rule);
        match &es[i] {
            Err(e) => {
                return Err(e.clone());
            },
            Ok(entry) => {
                let p = join(path.as_str(), entry.0.as_str());
                match &entry.2 {
                    Node::File => {
                        let ghost before = views(files@);
                        files.push(p);
                        proof {
                            assert(views(files@) =~= before.push(p@));
                            let step: Walked = (seq![p@], Seq::empty());
                            match rest {
                                Ok(b) => {
                                    assert(step.0 + b.0 =~= seq![p@] + b.0);
                                    assert(acc.0 + (step.0 + b.0) =~= (acc.0 + step.0) + b.0);
                                    assert(acc.1 + (step.1 + b.1) =~= (acc.1 + step.1) + b.1);
                                },
                                Err(_) => {},
                            }
                            acc = (acc.0 + step.0, acc.1 + step.1);
                            assert(views(files@) =~= f0 + acc.0);
                            assert(views(claimed@) =~= c0 + acc.1);
                        }
                    },
                    Node::Dir { .. } => {
                        if !(entry.1 && starts_with_dot(entry.0.as_str())) {
                            let ghost fb = views(files@);
                            let ghost cb = views(claimed@);
                            proof {
                                assert(decreases_to!(es@ => es@[i as int]));
                            }
                            match walk_dir_exec(&p, &entry.2, rule, files, claimed) {
                                Err(e) => {
                                    return Err(e);
                                },
                                Ok(()) => {},
                            }
                            proof {
                                let w = walk_dir_spec(p@, entry.2, rule)->Ok_0;
                                match rest {
                                    Ok(b) => {
                                        assert(acc.0 + (w.0 + b.0) =~= (acc.0 + w.0) + b.0);
                                        assert(acc.1 + (w.1 + b.1) =~= (acc.1 + w.1) + b.1);
                                    },
                                    Err(_) => {},
                                }
                                acc = (acc.0 + w.0, acc.1 + w.1);
                                assert(views(files@) =~= f0 + acc.0);
                                assert(views(claimed@) =~= c0 + acc.1);
                            }
                        }
                    },
                    _ => {},
                }
            },
        }
        i = i + 1;
    }
    proof {
        assert(acc.0 + Seq::<Seq<char>>::empty() =~= acc.0);
        assert(acc.1 + Seq::<Seq<char>>::empty() =~= acc.1);
    }
    Ok(())
}

/// Walks the snapshot `root` of the tree at `target` under `rule`.
pub fn walk(target: &str, root: &Node, rule: ClaimRule) -> (r: Result<(Vec<String>, Vec<String>), String>)
    ensures
        match walk_spec(target@, *root, rule) {
            Ok(w) => r matches Ok((f, c)) && views(f@) == w.0 && views(c@) == w.1,
            Err(e) => r matches Err(m) && m@ == e,
        },
{
    let mut files: Vec<String> = Vec::new();
    let mut claimed: Vec<String> = Vec::new();
    assert(views(files@) =~= Seq::<Seq<char>>::empty());
    match root {
        Node::Missing => Ok((files, claimed)),
        Node::Unreadable(e) => Err(e.clone()),
        Node::File => {
            files.push(owned(target));
            assert(views(files@) =~= seq![target@]);
            Ok((files, claimed))
        },
        Node::Dir { .. } => {
            let t = owned(target);
            match walk_dir_exec(&t, root, rule, &mut files, &mut claimed) {
                Ok(()) => {
                    assert(views(claimed@) =~= Seq::<Seq<char>>::empty() + views(claimed@));
                    assert(views(files@) =~= Seq::<Seq<char>>::empty() + views(files@));
                    Ok((files, claimed))
                },
                Err(e) => Err(e),
            }
        },
        _ => Ok((files, claimed)),
    }
}

} // verus!
