use haske_router::compiler::compile_path;
use haske_router::matcher::{match_bytes, match_path, MatchResult};
use haske_router::path::TrailingSlash;
use haske_router::segment::Constraint;
use haske_router::tree::RouterTree;

fn grown(tree: RouterTree, pattern: &str, id: u64) -> RouterTree {
    let mut tree = tree;
    assert_eq!(tree.insert(compile_path(pattern, id).unwrap()), Ok(()));
    tree
}

fn found(route_id: u64, params: &[(&str, &str)]) -> Option<MatchResult> {
    let params = params
        .iter()
        .map(|(name, value)| (name.as_bytes().to_vec(), value.as_bytes().to_vec()))
        .collect();
    Some(MatchResult { route_id, params })
}

#[test]
fn an_empty_tree_matches_nothing() {
    let tree = RouterTree::new();
    assert_eq!(match_path(&tree, "/"), None);
    assert_eq!(match_path(&tree, ""), None);
    assert_eq!(match_path(&tree, "/a"), None);
}

#[test]
fn literals_match_exactly() {
    let tree = grown(grown(RouterTree::new(), "/users", 1), "/users/all", 2);
    assert_eq!(match_path(&tree, "/users"), found(1, &[]));
    assert_eq!(match_path(&tree, "/users/all"), found(2, &[]));
    assert_eq!(match_path(&tree, "/user"), None);
    assert_eq!(match_path(&tree, "/users/al"), None);
    assert_eq!(match_path(&tree, "/users/all/x"), None);
    assert_eq!(match_path(&tree, "/Users"), None);
    assert_eq!(match_path(&tree, "users"), None);
}

#[test]
fn parameters_capture_in_the_order_of_the_pattern() {
    let tree = grown(RouterTree::new(), "/:b/x/:a", 7);
    assert_eq!(match_path(&tree, "/1/x/2"), found(7, &[("b", "1"), ("a", "2")]));
    assert_eq!(match_path(&tree, "/1/y/2"), None);
    assert_eq!(match_path(&tree, "/1/x"), None);
}

#[test]
fn captured_values_are_decoded() {
    let tree = grown(grown(RouterTree::new(), "/f/:name", 1), "/w/*rest", 2);
    assert_eq!(match_path(&tree, "/f/a%20b"), found(1, &[("name", "a b")]));
    assert_eq!(match_path(&tree, "/f/a%2Fb"), found(1, &[("name", "a/b")]));
    assert_eq!(match_path(&tree, "/%66/x"), found(1, &[("name", "x")]));
    assert_eq!(match_path(&tree, "/w/a%2Fb/c%25"), found(2, &[("rest", "a/b/c%")]));
    assert_eq!(
        match_bytes(&tree, b"/f/%ff%00"),
        Some(MatchResult { route_id: 1, params: vec![(b"name".to_vec(), vec![0xff, 0x00])] })
    );
}

#[test]
fn a_malformed_escape_matches_nothing() {
    let tree = grown(grown(RouterTree::new(), "/f/:name", 1), "/*rest", 2);
    assert_eq!(match_path(&tree, "/f/%zz"), None);
    assert_eq!(match_path(&tree, "/f/%"), None);
    assert_eq!(match_path(&tree, "/x/y/%4"), None);
}

#[test]
fn a_literal_with_a_percent_sign_is_met_by_its_escape() {
    let tree = grown(RouterTree::new(), "/100%", 1);
    assert_eq!(match_path(&tree, "/100%25"), found(1, &[]));
    assert_eq!(match_path(&tree, "/100%"), None);
}

#[test]
fn the_trailing_slash_is_ignored_by_default() {
    let tree = grown(grown(RouterTree::new(), "/a/:x", 1), "/", 2);
    assert_eq!(match_path(&tree, "/a/b/"), found(1, &[("x", "b")]));
    assert_eq!(match_path(&tree, "/a/b"), found(1, &[("x", "b")]));
    assert_eq!(match_path(&tree, "/a/"), None);
    assert_eq!(match_path(&tree, "/a/b//"), None);
    assert_eq!(match_path(&tree, "//"), None);
    assert_eq!(match_path(&tree, "/"), found(2, &[]));
}

#[test]
fn a_strict_tree_refuses_the_trailing_slash() {
    let tree = grown(
        grown(RouterTree::with_policy(TrailingSlash::Strict), "/a/:x", 1),
        "/w/*rest",
        2,
    );
    assert_eq!(tree.policy(), TrailingSlash::Strict);
    assert_eq!(RouterTree::new().policy(), TrailingSlash::Ignore);
    assert_eq!(match_path(&tree, "/a/b"), found(1, &[("x", "b")]));
    assert_eq!(match_path(&tree, "/a/b/"), None);
    assert_eq!(match_path(&tree, "/w/x/y/"), None);
    assert_eq!(match_path(&tree, "/w/x/y"), found(2, &[("rest", "x/y")]));
}

#[test]
fn empty_segments_match_nothing() {
    let tree = grown(grown(RouterTree::new(), "/a/:x/b", 1), "/w/*rest", 2);
    assert_eq!(match_path(&tree, "/a//b"), None);
    assert_eq!(match_path(&tree, "/w//x"), None);
    assert_eq!(match_path(&tree, "//w/x"), None);
}

#[test]
fn the_order_of_preference_holds_at_every_node() {
    let mut tree = RouterTree::new();
    for (id, pattern) in ["/*all", "/:a", "/x", "/:a/*rest", "/:a/:b", "/:a/y", "/x/*rest", "/x/:b", "/x/y"]
        .iter()
        .enumerate()
    {
        assert_eq!(tree.insert(compile_path(pattern, id as u64).unwrap()), Ok(()));
    }
    assert_eq!(match_path(&tree, "/x"), found(2, &[]));
    assert_eq!(match_path(&tree, "/q"), found(1, &[("a", "q")]));
    assert_eq!(match_path(&tree, "/x/y"), found(8, &[]));
    assert_eq!(match_path(&tree, "/x/q"), found(7, &[("b", "q")]));
    assert_eq!(match_path(&tree, "/x/q/r"), found(6, &[("rest", "q/r")]));
    assert_eq!(match_path(&tree, "/q/y"), found(5, &[("a", "q")]));
    assert_eq!(match_path(&tree, "/q/r"), found(4, &[("a", "q"), ("b", "r")]));
    assert_eq!(match_path(&tree, "/q/r/s"), found(3, &[("a", "q"), ("rest", "r/s")]));
    assert_eq!(match_path(&tree, "/x/y/z"), found(6, &[("rest", "y/z")]));
}

#[test]
fn the_search_falls_back_to_the_wildcard_at_the_root() {
    let mut tree = RouterTree::new();
    for (id, pattern) in ["/*all", "/x/y/z", "/x/:b/w"].iter().enumerate() {
        assert_eq!(tree.insert(compile_path(pattern, id as u64).unwrap()), Ok(()));
    }
    assert_eq!(match_path(&tree, "/x/y/z"), found(1, &[]));
    assert_eq!(match_path(&tree, "/x/y/w"), found(2, &[("b", "y")]));
    assert_eq!(match_path(&tree, "/x/y/q"), found(0, &[("all", "x/y/q")]));
    assert_eq!(match_path(&tree, "/x/y"), found(0, &[("all", "x/y")]));
    assert_eq!(match_path(&tree, "/x"), found(0, &[("all", "x")]));
    assert_eq!(match_path(&tree, "/"), None);
}

#[test]
fn a_constraint_limits_what_a_parameter_takes() {
    let mut tree = RouterTree::new();
    let by_id = compile_path("/users/:id", 1).unwrap().constrain(b"id", Constraint::Digits);
    assert_eq!(tree.insert(by_id), Ok(()));
    assert_eq!(tree.insert(compile_path("/users/*rest", 2).unwrap()), Ok(()));
    let tagged = compile_path("/tags/:tag", 3).unwrap().constrain(b"tag", Constraint::Alpha);
    assert_eq!(tree.insert(tagged), Ok(()));
    let coded = compile_path("/codes/:code", 4).unwrap().constrain(b"code", Constraint::Alnum);
    assert_eq!(tree.insert(coded), Ok(()));
    assert_eq!(match_path(&tree, "/users/123"), found(1, &[("id", "123")]));
    assert_eq!(match_path(&tree, "/users/12a"), found(2, &[("rest", "12a")]));
    assert_eq!(match_path(&tree, "/users/%31%32"), found(1, &[("id", "12")]));
    assert_eq!(match_path(&tree, "/tags/rust"), found(3, &[("tag", "rust")]));
    assert_eq!(match_path(&tree, "/tags/rust1"), None);
    assert_eq!(match_path(&tree, "/codes/a1B2"), found(4, &[("code", "a1B2")]));
    assert_eq!(match_path(&tree, "/codes/a-1"), None);
}

#[test]
fn a_value_is_found_by_its_name() {
    let tree = grown(RouterTree::new(), "/:a/:b/*c", 1);
    let result = match_path(&tree, "/1/2/3/4").unwrap();
    assert_eq!(result.route_id, 1);
    assert_eq!(result.get(b"a"), Some(&b"1".to_vec()));
    assert_eq!(result.get(b"b"), Some(&b"2".to_vec()));
    assert_eq!(result.get(b"c"), Some(&b"3/4".to_vec()));
    assert_eq!(result.get(b"d"), None);
    assert_eq!(result.get(b""), None);
    let twice = MatchResult {
        route_id: 0,
        params: vec![(b"k".to_vec(), b"first".to_vec()), (b"k".to_vec(), b"second".to_vec())],
    };
    assert_eq!(twice.get(b"k"), Some(&b"first".to_vec()));
}

#[test]
fn matching_again_gives_the_same_answer() {
    let tree = grown(grown(RouterTree::new(), "/a/:x", 1), "/a/*rest", 2);
    for path in ["/a/b", "/a/b/c", "/a", "/", "/a/%zz", "/a/b/"] {
        let first = match_path(&tree, path);
        let second = match_path(&tree, path);
        assert_eq!(first, second);
        assert_eq!(match_bytes(&tree, path.as_bytes()), first);
    }
}

#[test]
fn decoded_segments_are_matched_as_they_are() {
    let tree = grown(RouterTree::new(), "/a/:x", 3);
    let segs = vec![b"a".to_vec(), b"%41".to_vec()];
    assert_eq!(tree.match_decoded(&segs), found(3, &[("x", "%41")]));
    assert_eq!(tree.match_decoded(&vec![b"a".to_vec(), Vec::new()]), None);
    assert_eq!(tree.match_decoded(&Vec::new()), None);
}

fn shareable<T: Send + Sync>(_value: &T) -> bool {
    true
}

#[test]
fn a_tree_can_be_shared_between_threads() {
    let tree = grown(RouterTree::new(), "/a/:x", 1);
    assert!(shareable(&tree));
    let result = match_path(&tree, "/a/b");
    assert!(shareable(&result));
    let first = &tree;
    let second = &tree;
    assert_eq!(match_path(first, "/a/b"), match_path(second, "/a/b"));
}
