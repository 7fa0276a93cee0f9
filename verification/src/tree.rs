//! The router tree: the routes that were inserted, indexed by their segments.

use vstd::prelude::*;
use crate::compiler::CompiledRoute;
use crate::bytes::views;
use crate::error::CompileError;
use crate::matcher::{outcome_of, MatchResult};
use crate::node::{
    lemma_blocked_is_absent, lemma_conflict_found, lemma_conflict_witness, RouterNode,
};
use crate::path::TrailingSlash;
use crate::pattern::{
    all_well_formed, conflicting, conflicts_with, consistent, is_best, lemma_best_is_chosen,
    lemma_no_match, match_segments, some_route_matches, well_formed,
};
use crate::segment::Segment;

verus! {

/// A tree of routes. Its view is the map from the pattern of each route that
/// was inserted to the identifier of that route.
pub struct RouterTree {
    root: RouterNode,
    policy: TrailingSlash,
}

impl View for RouterTree {
    type V = Map<Seq<Segment>, u64>;

    closed spec fn view(&self) -> Map<Seq<Segment>, u64> {
        Map::new(
            |p: Seq<Segment>| self.root.lookup(p) is Some,
            |p: Seq<Segment>| self.root.lookup(p).unwrap(),
        )
    }
}

/// What an insertion of the pattern `p` into the routes `routes` answers:
/// `ConflictingRoute` where the pattern conflicts with a route, else
/// `DuplicateRoute` where the pattern is among the routes, else success.
pub open spec fn insertion_result(routes: Map<Seq<Segment>, u64>, p: Seq<Segment>) -> Result<
    (),
    CompileError,
> {
    if conflicting(routes, p) {
        Err(CompileError::ConflictingRoute)
    } else if routes.contains_key(p) {
        Err(CompileError::DuplicateRoute)
    } else {
        Ok(())
    }
}

impl RouterTree {
    #[verifier::type_invariant]
    closed spec fn valid(&self) -> bool {
        &&& self.root.wf()
        &&& forall|p: Seq<Segment>| (#[trigger] self.root.lookup(p)) is Some ==> well_formed(p)
    }

    /// The routes of a tree do not conflict with one another.
    pub proof fn lemma_routes_consistent(&self)
        ensures
            consistent(self@),
    {
        assert forall|p: Seq<Segment>, q: Seq<Segment>|
            #[trigger] self@.contains_key(p) && #[trigger] self@.contains_key(
                q,
            ) implies !conflicts_with(p, q) by {
            if conflicts_with(p, q) {
                let i = choose|i: int|
                    0 <= i < p.len() && i < q.len() && #[trigger] p.take(i) == q.take(i)
                        && crate::pattern::clash(p[i], q[i]);
                lemma_conflict_found(self.root, p, q, i);
                lemma_blocked_is_absent(self.root, p);
            }
        }
    }

    /// Where some route of a tree matches a path, one of them is the best:
    /// the routes of a tree never leave a match undecided.
    pub proof fn lemma_match_is_total(&self, segs: Seq<Seq<u8>>)
        ensures
            match_segments(self@, segs) is Some <==> some_route_matches(self@, segs),
    {
        crate::search::lemma_search(self.root, segs);
        match self.root.search(segs) {
            Some(p) => {
                assert(self@.contains_key(p));
                assert(is_best(self@, p, segs)) by {
                    assert forall|q: Seq<Segment>|
                        #[trigger] self@.contains_key(q) && crate::pattern::pattern_matches(q, segs)
                            && q != p implies crate::pattern::prefers(p, q) by {
                        assert(self.root.lookup(q) is Some);
                    }
                }
                lemma_best_is_chosen(self@, p, segs);
            },
            None => {
                assert forall|q: Seq<Segment>| #[trigger]
                    self@.contains_key(q) implies !crate::pattern::pattern_matches(q, segs) by {
                    assert(self.root.lookup(q) is Some);
                }
                lemma_no_match(self@, segs);
            },
        }
    }

    /// The policy of the tree on a `/` at the end of a path.
    pub closed spec fn trailing_slash(&self) -> TrailingSlash {
        self.policy
    }

    /// A tree without routes that ignores a `/` at the end of a path.
    pub fn new() -> (tree: RouterTree)
        ensures
            tree@ == Map::<Seq<Segment>, u64>::empty(),
            tree.trailing_slash() == TrailingSlash::Ignore,
    {
        RouterTree::with_policy(TrailingSlash::Ignore)
    }

    /// A tree without routes with the given policy on a `/` at the end of a
    /// path.
    pub fn with_policy(policy: TrailingSlash) -> (tree: RouterTree)
        ensures
            tree@ == Map::<Seq<Segment>, u64>::empty(),
            tree.trailing_slash() == policy,
    {
        let tree = RouterTree { root: RouterNode::empty(), policy };
        assert(tree@ =~= Map::<Seq<Segment>, u64>::empty());
        tree
    }

    /// Adds the route to the tree. Where the pattern of the route conflicts
    /// with a route of the tree, or is the pattern of one, the tree stays as
    /// it is and the error says which.
    pub fn insert(&mut self, route: CompiledRoute) -> (out: Result<(), CompileError>)
        ensures
            out == insertion_result(old(self)@, route@.segments),
            final(self)@ == (match out {
                Ok(_) => old(self)@.insert(route@.segments, route@.route_id),
                Err(_) => old(self)@,
            }),
            final(self).trailing_slash() == old(self).trailing_slash(),
            all_well_formed(final(self)@),
            consistent(final(self)@),
    {
        proof {
            use_type_invariant(&*self);
            assert(all_well_formed(self@));
        }
        let ghost before = *self;
        let ghost p = route@.segments;
        let route_id = route.route_id();
        let segments = route.segments();
        assert(segments@.len() == p.len());
        assert(crate::segment::segments_of(segments@).skip(0) == p);
        // The root is taken out while it is changed, so that the tree is
        // valid at every step.
        let mut root = RouterNode::empty();
        std::mem::swap(&mut self.root, &mut root);
        let out = root.insert(segments, 0, route_id);
        self.root = root;
        proof {
            if before.root.conflicts(p) {
                let q = lemma_conflict_witness(before.root, p);
                assert(before@.contains_key(q));
            }
            if conflicting(before@, p) {
                let q = choose|q: Seq<Segment>| #[trigger]
                    before@.contains_key(q) && conflicts_with(p, q);
                let i = choose|i: int|
                    0 <= i < p.len() && i < q.len() && #[trigger] p.take(i) == q.take(i)
                        && crate::pattern::clash(p[i], q[i]);
                lemma_conflict_found(before.root, p, q, i);
            }
            if out is Ok {
                assert(self@ =~= before@.insert(p, route_id));
            } else {
                assert(self@ =~= before@);
            }
            assert(all_well_formed(self@));
            self.lemma_routes_consistent();
        }
        out
    }

    /// The policy of the tree on a `/` at the end of a path.
    pub fn policy(&self) -> (policy: TrailingSlash)
        ensures
            policy == self.trailing_slash(),
    {
        self.policy
    }

    /// The best route for the path with the decoded segments `segs`, and what
    /// it captures.
    pub fn match_decoded(&self, segs: &Vec<Vec<u8>>) -> (out: Option<MatchResult>)
        ensures
            outcome_of(out) == match_segments(self@, views(segs@)),
            out is Some <==> some_route_matches(self@, views(segs@)),
    {
        proof {
            use_type_invariant(self);
        }
        let ghost s = views(segs@);
        assert(s.skip(0) == s);
        proof {
            crate::search::lemma_search(self.root, s);
        }
        match self.root.find(segs, 0) {
            Some((route_id, params, p)) => {
                proof {
                    assert(is_best(self@, p@, s)) by {
                        assert forall|q: Seq<Segment>|
                            #[trigger] self@.contains_key(q) && crate::pattern::pattern_matches(q, s)
                                && q != p@ implies crate::pattern::prefers(p@, q) by {
                            assert(self.root.lookup(q) is Some);
                        }
                    }
                    lemma_best_is_chosen(self@, p@, s);
                    assert(self@.contains_key(p@));
                }
                Some(MatchResult { route_id, params })
            },
            None => {
                proof {
                    assert forall|q: Seq<Segment>| #[trigger]
                        self@.contains_key(q) implies !crate::pattern::pattern_matches(q, s) by {
                        assert(self.root.lookup(q) is Some);
                    }
                    lemma_no_match(self@, s);
                }
                None
            },
        }
    }
}

} // verus!
