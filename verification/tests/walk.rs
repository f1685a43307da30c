use rhumb_validate::validators::paths::{file_name_of, join, resolve, sort_paths};
use rhumb_validate::validators::walk::{walk, ClaimRule, Node};

fn dir(markers: &[&str], entries: Vec<(&str, Node)>) -> Node {
    Node::Dir {
        markers: markers.iter().map(|m| m.to_string()).collect(),
        listing: Ok(entries.into_iter().map(|(n, node)| Ok((n.to_string(), true, node))).collect()),
    }
}

fn files_of(target: &str, root: &Node) -> Vec<String> {
    let (files, _) = walk(target, root, ClaimRule::Nothing).expect("walks");
    sort_paths(files)
}

#[test]
fn walk_returns_ok_for_nonexistent_target() {
    assert!(files_of("/this/path/should/not/exist/rhumb-walk-empty", &Node::Missing).is_empty());
}

#[test]
fn walk_visits_single_file_target() {
    assert_eq!(files_of("/tmp/only.txt", &Node::File), vec!["/tmp/only.txt".to_string()]);
}

#[test]
fn walk_recurses_into_subdirectories() {
    let tree = dir(&[], vec![("top.txt", Node::File), ("a", dir(&[], vec![("b", dir(&[], vec![("nested.txt", Node::File)]))]))]);
    assert_eq!(files_of("/r", &tree), vec!["/r/a/b/nested.txt".to_string(), "/r/top.txt".to_string()]);
}

#[test]
fn walk_skips_hidden_directories() {
    let tree = dir(&[], vec![(".cache", dir(&[], vec![("should-not-appear.txt", Node::File)])), ("visible.txt", Node::File)]);
    assert_eq!(files_of("/r", &tree), vec!["/r/visible.txt".to_string()]);
}

#[test]
fn walk_skips_symlinked_files_and_dirs() {
    let tree = dir(
        &[],
        vec![
            ("real", dir(&[], vec![("inner.txt", Node::File)])),
            ("real.txt", Node::File),
            ("link-file.txt", Node::Symlink),
            ("link-dir", Node::Symlink),
        ],
    );
    assert_eq!(files_of("/r", &tree), vec!["/r/real/inner.txt".to_string(), "/r/real.txt".to_string()]);
}

#[test]
fn walk_stops_descending_at_claimed_directories() {
    let claim = dir(&["PLAN.md", "state.yaml"], vec![("contents.txt", Node::File), ("inner", dir(&[], vec![("nested.txt", Node::File)]))]);
    let tree = dir(&[], vec![("root", claim)]);
    let (files, claimed) = walk("/r", &tree, ClaimRule::Workflow).expect("walks");
    assert_eq!(claimed, vec!["/r/root".to_string()]);
    assert!(files.is_empty(), "expected no files; got {files:?}");
}

#[test]
fn walk_reports_listing_errors() {
    let tree = Node::Dir { markers: Vec::new(), listing: Err("permission denied".to_string()) };
    assert_eq!(walk("/r", &tree, ClaimRule::Nothing), Err("permission denied".to_string()));
    assert_eq!(walk("/r", &Node::Unreadable("boom".to_string()), ClaimRule::Nothing), Err("boom".to_string()));
}

#[test]
fn walk_does_not_hide_non_utf8_dot_names() {
    let tree = Node::Dir {
        markers: Vec::new(),
        listing: Ok(vec![Ok((".odd".to_string(), false, dir(&[], vec![("f", Node::File)])))]),
    };
    assert_eq!(files_of("/r", &tree), vec!["/r/.odd/f".to_string()]);
}

#[test]
fn paths_join_and_file_names() {
    assert_eq!(join("/a", "b"), "/a/b");
    assert_eq!(join("/a/", "b"), "/a/b");
    assert_eq!(resolve("/a", "/abs"), "/abs");
    assert_eq!(file_name_of("/a/b.txt/"), Some("b.txt".to_string()));
    assert_eq!(file_name_of("/a/.."), None);
}

#[test]
fn sort_paths_orders_by_component() {
    let v = vec!["/r/a-b".to_string(), "/r/a/b".to_string(), "/r/A".to_string()];
    assert_eq!(sort_paths(v), vec!["/r/A".to_string(), "/r/a/b".to_string(), "/r/a-b".to_string()]);
}
