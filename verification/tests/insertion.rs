use haske_router::compiler::compile_path;
use haske_router::error::CompileError;
use haske_router::matcher::{match_path, MatchResult};
use haske_router::segment::Constraint;
use haske_router::tree::RouterTree;

fn put(tree: &mut RouterTree, pattern: &str, id: u64) -> Result<(), CompileError> {
    tree.insert(compile_path(pattern, id).unwrap())
}

fn answer(route_id: u64, params: &[(&str, &str)]) -> Option<MatchResult> {
    let params = params
        .iter()
        .map(|(name, value)| (name.as_bytes().to_vec(), value.as_bytes().to_vec()))
        .collect();
    Some(MatchResult { route_id, params })
}

#[test]
fn different_parameter_names_at_one_place_conflict() {
    let mut tree = RouterTree::new();
    assert_eq!(put(&mut tree, "/a/:x/b", 1), Ok(()));
    assert_eq!(put(&mut tree, "/a/:y/c", 2), Err(CompileError::ConflictingRoute));
    assert_eq!(put(&mut tree, "/a/:y", 3), Err(CompileError::ConflictingRoute));
    assert_eq!(put(&mut tree, "/a/:x/c", 4), Ok(()));
    assert_eq!(put(&mut tree, "/a/:x", 5), Ok(()));
    assert_eq!(put(&mut tree, "/b/:y", 6), Ok(()));
    assert_eq!(match_path(&tree, "/a/v/c"), answer(4, &[("x", "v")]));
    assert_eq!(match_path(&tree, "/b/v"), answer(6, &[("y", "v")]));
}

#[test]
fn different_wildcard_names_at_one_place_conflict() {
    let mut tree = RouterTree::new();
    assert_eq!(put(&mut tree, "/f/*rest", 1), Ok(()));
    assert_eq!(put(&mut tree, "/f/*tail", 2), Err(CompileError::ConflictingRoute));
    assert_eq!(put(&mut tree, "/f/*rest", 3), Err(CompileError::DuplicateRoute));
    assert_eq!(put(&mut tree, "/g/*tail", 4), Ok(()));
    assert_eq!(match_path(&tree, "/f/x"), answer(1, &[("rest", "x")]));
}

#[test]
fn a_parameter_and_a_wildcard_share_a_place() {
    let mut tree = RouterTree::new();
    assert_eq!(put(&mut tree, "/f/:x", 1), Ok(()));
    assert_eq!(put(&mut tree, "/f/*x", 2), Ok(()));
    assert_eq!(put(&mut tree, "/f/x", 3), Ok(()));
    assert_eq!(match_path(&tree, "/f/x"), answer(3, &[]));
    assert_eq!(match_path(&tree, "/f/y"), answer(1, &[("x", "y")]));
    assert_eq!(match_path(&tree, "/f/y/z"), answer(2, &[("x", "y/z")]));
}

#[test]
fn another_constraint_at_one_place_conflicts() {
    let mut tree = RouterTree::new();
    let digits = compile_path("/u/:id", 1).unwrap().constrain(b"id", Constraint::Digits);
    assert_eq!(tree.insert(digits), Ok(()));
    assert_eq!(put(&mut tree, "/u/:id", 2), Err(CompileError::ConflictingRoute));
    let letters = compile_path("/u/:id/x", 3).unwrap().constrain(b"id", Constraint::Alpha);
    assert_eq!(tree.insert(letters), Err(CompileError::ConflictingRoute));
    let same = compile_path("/u/:id", 4).unwrap().constrain(b"id", Constraint::Digits);
    assert_eq!(tree.insert(same), Err(CompileError::DuplicateRoute));
    let deeper = compile_path("/u/:id/x", 5).unwrap().constrain(b"id", Constraint::Digits);
    assert_eq!(tree.insert(deeper), Ok(()));
    assert_eq!(match_path(&tree, "/u/7/x"), answer(5, &[("id", "7")]));
}

#[test]
fn the_same_pattern_is_a_duplicate_whatever_its_identifier() {
    let mut tree = RouterTree::new();
    assert_eq!(put(&mut tree, "/", 1), Ok(()));
    assert_eq!(put(&mut tree, "/", 1), Err(CompileError::DuplicateRoute));
    assert_eq!(put(&mut tree, "/a/b", 2), Ok(()));
    assert_eq!(put(&mut tree, "/a/b", 9), Err(CompileError::DuplicateRoute));
    assert_eq!(put(&mut tree, "/a", 3), Ok(()));
    assert_eq!(put(&mut tree, "/a", 3), Err(CompileError::DuplicateRoute));
    assert_eq!(match_path(&tree, "/a/b"), answer(2, &[]));
    assert_eq!(match_path(&tree, "/"), answer(1, &[]));
}

#[test]
fn a_conflict_is_reported_before_a_duplicate_further_down() {
    let mut tree = RouterTree::new();
    assert_eq!(put(&mut tree, "/:x/a", 1), Ok(()));
    assert_eq!(put(&mut tree, "/:y/a", 2), Err(CompileError::ConflictingRoute));
}

#[test]
fn a_refused_route_leaves_the_tree_as_it_was() {
    let mut tree = RouterTree::new();
    assert_eq!(put(&mut tree, "/a/:x", 1), Ok(()));
    assert_eq!(put(&mut tree, "/a/:y/deep/er", 2), Err(CompileError::ConflictingRoute));
    assert_eq!(put(&mut tree, "/a/b/:x", 3), Ok(()));
    assert_eq!(put(&mut tree, "/a/b/:z/deep", 4), Err(CompileError::ConflictingRoute));
    assert_eq!(match_path(&tree, "/a/q"), answer(1, &[("x", "q")]));
    assert_eq!(match_path(&tree, "/a/q/deep/er"), None);
    assert_eq!(match_path(&tree, "/a/b/q"), answer(3, &[("x", "q")]));
    assert_eq!(match_path(&tree, "/a/b/q/deep"), None);
    assert_eq!(match_path(&tree, "/a/b"), answer(1, &[("x", "b")]));
}

#[test]
fn routes_inserted_in_either_order_match_alike() {
    let patterns = ["/a/b", "/a/:x", "/a/*rest", "/:y/b", "/"];
    let mut forward = RouterTree::new();
    for (id, pattern) in patterns.iter().enumerate() {
        assert_eq!(put(&mut forward, pattern, id as u64), Ok(()));
    }
    let mut backward = RouterTree::new();
    for (id, pattern) in patterns.iter().enumerate().rev() {
        assert_eq!(put(&mut backward, pattern, id as u64), Ok(()));
    }
    for path in ["/a/b", "/a/c", "/a/c/d", "/q/b", "/q/c", "/", "/a", "/a/b/"] {
        assert_eq!(match_path(&forward, path), match_path(&backward, path));
    }
    assert_eq!(match_path(&forward, "/a/b"), answer(0, &[]));
    assert_eq!(match_path(&forward, "/q/b"), answer(3, &[("y", "q")]));
    assert_eq!(match_path(&forward, "/a"), None);
}

#[test]
fn a_long_pattern_is_inserted_and_found() {
    let mut pattern = String::new();
    let mut path = String::new();
    for i in 0..200 {
        pattern.push_str(&format!("/s{}/:p{}", i, i));
        path.push_str(&format!("/s{}/v{}", i, i));
    }
    let mut tree = RouterTree::new();
    assert_eq!(put(&mut tree, &pattern, 77), Ok(()));
    let result = match_path(&tree, &path).unwrap();
    assert_eq!(result.route_id, 77);
    assert_eq!(result.params.len(), 200);
    assert_eq!(result.params[0], (b"p0".to_vec(), b"v0".to_vec()));
    assert_eq!(result.params[199], (b"p199".to_vec(), b"v199".to_vec()));
}
