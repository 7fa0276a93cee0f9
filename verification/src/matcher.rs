//! The match engine: from a request path to the route that it belongs to and
//! the values that the route captures.

use vstd::prelude::*;
use vstd::string::StringSliceAdditionalSpecFns;
use crate::bytes::bytes_eq;
use crate::path::{normalize, normalize_path, TrailingSlash};
use crate::pattern::{match_segments, some_route_matches, MatchOutcome};
use crate::segment::Segment;
use crate::tree::RouterTree;

verus! {

/// The bindings held by a vector of pairs of a name and a value.
pub open spec fn pairs(v: Seq<(Vec<u8>, Vec<u8>)>) -> Seq<(Seq<u8>, Seq<u8>)> {
    Seq::new(v.len(), |i: int| (v[i].0@, v[i].1@))
}

/// The value of the first binding of `name`, if there is one.
pub open spec fn first_binding(params: Seq<(Seq<u8>, Seq<u8>)>, name: Seq<u8>) -> Option<Seq<u8>>
    decreases params.len(),
{
    if params.len() == 0 {
        None
    } else if params[0].0 == name {
        Some(params[0].1)
    } else {
        first_binding(params.skip(1), name)
    }
}

/// A match: the identifier of the route, and the name and the captured value
/// of each parameter and wildcard of the route, in the order of the pattern.
#[derive(Debug, PartialEq, Eq)]
pub struct MatchResult {
    pub route_id: u64,
    pub params: Vec<(Vec<u8>, Vec<u8>)>,
}

impl View for MatchResult {
    type V = MatchOutcome;

    open spec fn view(&self) -> MatchOutcome {
        MatchOutcome { route_id: self.route_id, params: pairs(self.params@) }
    }
}

impl MatchResult {
    /// The value captured under `name`, if the route binds that name.
    pub fn get(&self, name: &[u8]) -> (value: Option<&Vec<u8>>)
        ensures
            match first_binding(self@.params, name@) {
                Some(bytes) => value is Some && value.unwrap()@ == bytes,
                None => value is None,
            },
    {
        let ghost all = self@.params;
        let mut i: usize = 0;
        assert(all.skip(0) == all);
        while i < self.params.len()
            invariant
                i <= self.params@.len(),
                all == pairs(self.params@),
                first_binding(all, name@) == first_binding(all.skip(i as int), name@),
            decreases self.params@.len() - i,
        {
            assert(all.skip(i as int)[0] == all[i as int]);
            assert(all.skip(i as int).skip(1) == all.skip(i + 1));
            if bytes_eq(self.params[i].0.as_slice(), name) {
                return Some(&self.params[i].1);
            }
            i += 1;
        }
        None
    }
}

/// The outcome of a match, if there is one.
pub open spec fn outcome_of(out: Option<MatchResult>) -> Option<MatchOutcome> {
    match out {
        Some(found) => Some(found@),
        None => None,
    }
}

/// The outcome of matching a path against a set of routes: the path is cut
/// into its decoded segments, and the route that is best for them gives its
/// identifier and its captures. A path that cannot be cut or decoded, or that
/// no route matches, has no outcome.
pub open spec fn match_spec(
    routes: Map<Seq<Segment>, u64>,
    path: Seq<u8>,
    policy: TrailingSlash,
) -> Option<MatchOutcome> {
    match normalize(path, policy) {
        Some(segs) => match_segments(routes, segs),
        None => None,
    }
}

/// Whether the path can be cut and decoded into segments that some route
/// matches.
pub open spec fn matchable(routes: Map<Seq<Segment>, u64>, path: Seq<u8>, policy: TrailingSlash) -> bool {
    match normalize(path, policy) {
        Some(segs) => some_route_matches(routes, segs),
        None => false,
    }
}

/// Matches the path against the routes of the tree. There is a match just
/// when the path can be read and some route matches it; the match is then
/// that of the best route.
pub fn match_bytes(tree: &RouterTree, path: &[u8]) -> (out: Option<MatchResult>)
    ensures
        outcome_of(out) == match_spec(tree@, path@, tree.trailing_slash()),
        out is Some <==> matchable(tree@, path@, tree.trailing_slash()),
{
    match normalize_path(path, tree.policy()) {
        Some(segs) => tree.match_decoded(&segs),
        None => None,
    }
}

/// Matches the path against the routes of the tree. The path is read as its
/// UTF-8 bytes.
pub fn match_path(tree: &RouterTree, path: &str) -> (out: Option<MatchResult>)
    ensures
        outcome_of(out) == match_spec(tree@, path.spec_bytes(), tree.trailing_slash()),
        out is Some <==> matchable(tree@, path.spec_bytes(), tree.trailing_slash()),
{
    match_bytes(tree, path.as_bytes())
}

} // verus!
