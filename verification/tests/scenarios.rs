use haske_router::compiler::compile_path;
use haske_router::error::CompileError;
use haske_router::matcher::{match_path, MatchResult};
use haske_router::tree::RouterTree;

fn tree_of(patterns: &[&str]) -> RouterTree {
    let mut tree = RouterTree::new();
    let mut id: u64 = 1;
    for pattern in patterns {
        let route = compile_path(pattern, id).unwrap();
        assert_eq!(tree.insert(route), Ok(()));
        id += 1;
    }
    tree
}

fn hit(route_id: u64, params: &[(&str, &str)]) -> Option<MatchResult> {
    let mut bound = Vec::new();
    for (name, value) in params {
        bound.push((name.as_bytes().to_vec(), value.as_bytes().to_vec()));
    }
    Some(MatchResult { route_id, params: bound })
}

#[test]
fn literal_wins_over_parameter_in_either_order() {
    let first = tree_of(&["/a/b", "/a/:x"]);
    assert_eq!(match_path(&first, "/a/b"), hit(1, &[]));
    assert_eq!(match_path(&first, "/a/c"), hit(2, &[("x", "c")]));
    let second = tree_of(&["/a/:x", "/a/b"]);
    assert_eq!(match_path(&second, "/a/b"), hit(2, &[]));
    assert_eq!(match_path(&second, "/a/c"), hit(1, &[("x", "c")]));
}

#[test]
fn wildcard_captures_the_rest() {
    let tree = tree_of(&["/files/*rest"]);
    assert_eq!(match_path(&tree, "/files/a/b/c"), hit(1, &[("rest", "a/b/c")]));
    assert_eq!(match_path(&tree, "/files/a"), hit(1, &[("rest", "a")]));
    assert_eq!(match_path(&tree, "/files"), None);
    assert_eq!(match_path(&tree, "/files/"), None);
}

#[test]
fn search_goes_back_from_a_dead_end() {
    let tree = tree_of(&["/a/:x/c", "/a/b/d"]);
    assert_eq!(match_path(&tree, "/a/b/c"), hit(1, &[("x", "b")]));
    assert_eq!(match_path(&tree, "/a/b/d"), hit(2, &[]));
    assert_eq!(match_path(&tree, "/a/b/e"), None);
    assert_eq!(match_path(&tree, "/a/b"), None);
}

#[test]
fn another_name_at_the_same_place_conflicts() {
    let mut tree = RouterTree::new();
    assert_eq!(tree.insert(compile_path("/a/:x", 1).unwrap()), Ok(()));
    assert_eq!(tree.insert(compile_path("/a/:y", 2).unwrap()), Err(CompileError::ConflictingRoute));
    assert_eq!(match_path(&tree, "/a/v"), hit(1, &[("x", "v")]));
}

#[test]
fn the_same_pattern_twice_is_a_duplicate() {
    let mut tree = RouterTree::new();
    assert_eq!(tree.insert(compile_path("/a/:x", 1).unwrap()), Ok(()));
    assert_eq!(tree.insert(compile_path("/a/:x", 2).unwrap()), Err(CompileError::DuplicateRoute));
    assert_eq!(match_path(&tree, "/a/v"), hit(1, &[("x", "v")]));
}

#[test]
fn root_path_matches_only_the_root_route() {
    let without = tree_of(&["/a", "/:x", "/*rest"]);
    assert_eq!(match_path(&without, "/"), None);
    assert_eq!(match_path(&without, ""), None);
    let with = tree_of(&["/a", "/"]);
    assert_eq!(match_path(&with, "/"), hit(2, &[]));
    assert_eq!(match_path(&with, ""), hit(2, &[]));
    assert_eq!(compile_path("/", 9).unwrap().segments().len(), 0);
}

#[test]
fn empty_segment_in_a_pattern_is_rejected() {
    assert_eq!(compile_path("//", 1).err(), Some(CompileError::InvalidSyntax));
    assert_eq!(compile_path("/a//b", 1).err(), Some(CompileError::InvalidSyntax));
    assert_eq!(compile_path("/a/", 1).err(), Some(CompileError::InvalidSyntax));
}
