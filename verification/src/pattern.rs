//! Patterns as sequences of segments: which paths a pattern matches, what it
//! captures, and which of several matching patterns is preferred.

use vstd::prelude::*;
use crate::bytes::{join, SLASH};
use crate::segment::Segment;

verus! {

/// The names that the pattern binds, in the order of their segments.
pub open spec fn bound_names(p: Seq<Segment>) -> Seq<Seq<u8>>
    decreases p.len(),
{
    if p.len() == 0 {
        Seq::empty()
    } else {
        let init = bound_names(p.drop_last());
        match p.last().bound_name() {
            Some(name) => init.push(name),
            None => init,
        }
    }
}

/// Whether no two entries of `names` are equal.
pub open spec fn distinct(names: Seq<Seq<u8>>) -> bool {
    forall|i: int, j: int| 0 <= i < j < names.len() ==> names[i] != names[j]
}

/// Whether `p` is a pattern that can be compiled from text: every segment is
/// well formed, a wildcard stands only at the end, and no name is bound twice.
pub open spec fn well_formed(p: Seq<Segment>) -> bool {
    &&& forall|i: int| 0 <= i < p.len() ==> (#[trigger] p[i]).well_formed()
    &&& forall|i: int| 0 <= i < p.len() - 1 ==> !((#[trigger] p[i]) is Wildcard)
    &&& distinct(bound_names(p))
}

/// Whether the pattern matches the path with the segments `segs`. Without a
/// wildcard, the pattern has one segment for each segment of the path, and
/// each takes its own. With a wildcard at the end, the segments before it take
/// their own and at least one segment of the path remains for the wildcard.
pub open spec fn pattern_matches(p: Seq<Segment>, segs: Seq<Seq<u8>>) -> bool {
    if p.len() > 0 && p.last() is Wildcard {
        &&& segs.len() >= p.len()
        &&& forall|i: int| 0 <= i < p.len() - 1 ==> (#[trigger] p[i]).takes(segs[i])
    } else {
        &&& segs.len() == p.len()
        &&& forall|i: int| 0 <= i < p.len() ==> (#[trigger] p[i]).takes(segs[i])
    }
}

/// The bindings that the pattern makes on the path, in the order of the
/// pattern's segments: a parameter binds its name to the segment at its place,
/// a wildcard binds its name to the remaining segments joined with `/`.
pub open spec fn captures(p: Seq<Segment>, segs: Seq<Seq<u8>>) -> Seq<(Seq<u8>, Seq<u8>)>
    decreases p.len(),
{
    if p.len() == 0 || segs.len() == 0 {
        Seq::empty()
    } else {
        match p[0] {
            Segment::Literal(_) => captures(p.skip(1), segs.skip(1)),
            Segment::Param(name, _) => seq![(name, segs[0])] + captures(p.skip(1), segs.skip(1)),
            Segment::Wildcard(name) => seq![(name, join(segs, SLASH))],
        }
    }
}

/// Whether `p` is preferred to `q`: where the two first differ, the segment
/// of `p` is of a kind that comes first.
pub open spec fn prefers(p: Seq<Segment>, q: Seq<Segment>) -> bool {
    exists|i: int|
        0 <= i < p.len() && i < q.len() && #[trigger] p.take(i) == q.take(i) && p[i].rank()
            < q[i].rank()
}

/// Whether `p` is a route of `routes` that matches the path and is preferred
/// to every other route of `routes` that matches it.
pub open spec fn is_best(
    routes: Map<Seq<Segment>, u64>,
    p: Seq<Segment>,
    segs: Seq<Seq<u8>>,
) -> bool {
    &&& routes.contains_key(p)
    &&& pattern_matches(p, segs)
    &&& forall|q: Seq<Segment>|
        #[trigger] routes.contains_key(q) && pattern_matches(q, segs) && q != p ==> prefers(
            p,
            q,
        )
}

/// The route of `routes` that wins on the path with the segments `segs`, if
/// any matches.
pub open spec fn best_route(routes: Map<Seq<Segment>, u64>, segs: Seq<Seq<u8>>) -> Option<
    Seq<Segment>,
> {
    if exists|p: Seq<Segment>| is_best(routes, p, segs) {
        Some(choose|p: Seq<Segment>| is_best(routes, p, segs))
    } else {
        None
    }
}

/// What a match yields: the identifier of the route and the bindings.
pub struct MatchOutcome {
    pub route_id: u64,
    pub params: Seq<(Seq<u8>, Seq<u8>)>,
}

/// The outcome of matching the segments of a path against a set of routes.
pub open spec fn match_segments(routes: Map<Seq<Segment>, u64>, segs: Seq<Seq<u8>>) -> Option<
    MatchOutcome,
> {
    match best_route(routes, segs) {
        Some(p) => Some(MatchOutcome { route_id: routes[p], params: captures(p, segs) }),
        None => None,
    }
}

/// Whether two segments cannot leave the same node of a tree: both are
/// parameters, or both are wildcards, and they differ.
pub open spec fn clash(a: Segment, b: Segment) -> bool {
    a != b && ((a is Param && b is Param) || (a is Wildcard && b is Wildcard))
}

/// Whether `p` and `q` agree up to a place at which their segments clash.
pub open spec fn conflicts_with(p: Seq<Segment>, q: Seq<Segment>) -> bool {
    exists|i: int|
        0 <= i < p.len() && i < q.len() && #[trigger] p.take(i) == q.take(i) && clash(p[i], q[i])
}

/// Whether `p` conflicts with a route of `routes`.
pub open spec fn conflicting(routes: Map<Seq<Segment>, u64>, p: Seq<Segment>) -> bool {
    exists|q: Seq<Segment>| #[trigger] routes.contains_key(q) && conflicts_with(p, q)
}

/// The names of a pattern are the name of its first segment, if it binds one,
/// and then the names of the rest.
pub proof fn lemma_bound_names_front(p: Seq<Segment>)
    requires
        p.len() > 0,
    ensures
        bound_names(p) == (match p[0].bound_name() {
            Some(name) => seq![name],
            None => Seq::empty(),
        }) + bound_names(p.skip(1)),
    decreases p.len(),
{
    let first = match p[0].bound_name() {
        Some(name) => seq![name],
        None => Seq::<Seq<u8>>::empty(),
    };
    if p.len() == 1 {
        assert(p.drop_last().len() == 0);
        assert(p.skip(1).len() == 0);
        assert(p.last() == p[0]);
        assert(bound_names(p.drop_last()) == Seq::<Seq<u8>>::empty());
        assert(bound_names(p.skip(1)) == Seq::<Seq<u8>>::empty());
        assert(bound_names(p) =~= first + bound_names(p.skip(1)));
    } else {
        let init = p.drop_last();
        lemma_bound_names_front(init);
        assert(init[0] == p[0]);
        assert(init.skip(1) == p.skip(1).drop_last());
        assert(p.skip(1).last() == p.last());
        assert(bound_names(p) =~= first + bound_names(p.skip(1)));
    }
}

/// Whether some route of `routes` matches the path.
pub open spec fn some_route_matches(routes: Map<Seq<Segment>, u64>, segs: Seq<Seq<u8>>) -> bool {
    exists|q: Seq<Segment>| #[trigger] routes.contains_key(q) && pattern_matches(q, segs)
}

/// Whether no two routes conflict: where two routes agree up to a place, they
/// do not bind different parameters there, nor different wildcards.
pub open spec fn consistent(routes: Map<Seq<Segment>, u64>) -> bool {
    forall|p: Seq<Segment>, q: Seq<Segment>|
        #[trigger] routes.contains_key(p) && #[trigger] routes.contains_key(q) ==> !conflicts_with(
            p,
            q,
        )
}

/// Whether every route is a well-formed pattern.
pub open spec fn all_well_formed(routes: Map<Seq<Segment>, u64>) -> bool {
    forall|p: Seq<Segment>| #[trigger] routes.contains_key(p) ==> well_formed(p)
}

/// Only the empty pattern matches the path without segments, and the empty
/// pattern matches no other path.
pub proof fn lemma_matches_empty(p: Seq<Segment>, segs: Seq<Seq<u8>>)
    ensures
        segs.len() == 0 ==> (pattern_matches(p, segs) <==> p.len() == 0),
        p.len() == 0 ==> (pattern_matches(p, segs) <==> segs.len() == 0),
{
}

/// A pattern matches a path that has a first segment just when it is a lone
/// wildcard, or its first segment takes the first segment of the path and the
/// rest of the pattern matches the rest of the path.
pub proof fn lemma_matches_step(p: Seq<Segment>, segs: Seq<Seq<u8>>)
    requires
        p.len() > 0,
        segs.len() > 0,
    ensures
        pattern_matches(p, segs) <==> ((p.len() == 1 && p[0] is Wildcard) || (p[0].takes(segs[0])
            && pattern_matches(p.skip(1), segs.skip(1)))),
{
    let pt = p.skip(1);
    let st = segs.skip(1);
    if p.len() == 1 {
        assert(pt.len() == 0);
        if !(p[0] is Wildcard) {
            if pattern_matches(p, segs) {
                assert(p[0].takes(segs[0]));
            }
        }
    } else {
        assert(pt.last() == p.last());
        if pattern_matches(p, segs) {
            assert(p[0].takes(segs[0]));
            if p.last() is Wildcard {
                assert forall|i: int| 0 <= i < pt.len() - 1 implies (#[trigger] pt[i]).takes(
                    st[i],
                ) by {
                    assert(p[i + 1].takes(segs[i + 1]));
                }
            } else {
                assert forall|i: int| 0 <= i < pt.len() implies (#[trigger] pt[i]).takes(
                    st[i],
                ) by {
                    assert(p[i + 1].takes(segs[i + 1]));
                }
            }
        }
        if p[0].takes(segs[0]) && pattern_matches(pt, st) {
            if p.last() is Wildcard {
                assert forall|i: int| 0 <= i < p.len() - 1 implies (#[trigger] p[i]).takes(
                    segs[i],
                ) by {
                    if i > 0 {
                        assert(pt[i - 1].takes(st[i - 1]));
                    }
                }
            } else {
                assert forall|i: int| 0 <= i < p.len() implies (#[trigger] p[i]).takes(
                    segs[i],
                ) by {
                    if i > 0 {
                        assert(pt[i - 1].takes(st[i - 1]));
                    }
                }
            }
        }
    }
}

/// Of two patterns, at most one is preferred to the other.
pub proof fn lemma_prefers_one_way(p: Seq<Segment>, q: Seq<Segment>)
    ensures
        !(prefers(p, q) && prefers(q, p)),
{
    if prefers(p, q) && prefers(q, p) {
        let i = choose|i: int|
            0 <= i < p.len() && i < q.len() && #[trigger] p.take(i) == q.take(i) && p[i].rank()
                < q[i].rank();
        let j = choose|j: int|
            0 <= j < q.len() && j < p.len() && #[trigger] q.take(j) == p.take(j) && q[j].rank()
                < p[j].rank();
        if i < j {
            assert(q.take(j)[i] == p.take(j)[i]);
        } else if j < i {
            assert(p.take(i)[j] == q.take(i)[j]);
        }
    }
}

/// At most one route is the best for a path.
pub proof fn lemma_best_unique(
    routes: Map<Seq<Segment>, u64>,
    p: Seq<Segment>,
    q: Seq<Segment>,
    segs: Seq<Seq<u8>>,
)
    requires
        is_best(routes, p, segs),
        is_best(routes, q, segs),
    ensures
        p == q,
{
    if p != q {
        assert(routes.contains_key(q));
        assert(routes.contains_key(p));
        lemma_prefers_one_way(p, q);
    }
}

/// The route that is best for a path is the one that `best_route` names, and
/// its outcome is the one that `match_segments` gives.
pub proof fn lemma_best_is_chosen(
    routes: Map<Seq<Segment>, u64>,
    p: Seq<Segment>,
    segs: Seq<Seq<u8>>,
)
    requires
        is_best(routes, p, segs),
    ensures
        best_route(routes, segs) == Some(p),
        match_segments(routes, segs) == Some(
            MatchOutcome { route_id: routes[p], params: captures(p, segs) },
        ),
{
    let chosen = choose|c: Seq<Segment>| is_best(routes, c, segs);
    lemma_best_unique(routes, p, chosen, segs);
}

/// Where no route matches a path, there is no best route and no outcome.
pub proof fn lemma_no_match(routes: Map<Seq<Segment>, u64>, segs: Seq<Seq<u8>>)
    requires
        forall|q: Seq<Segment>| #[trigger] routes.contains_key(q) ==> !pattern_matches(q, segs),
    ensures
        best_route(routes, segs) is None,
        match_segments(routes, segs) is None,
{
    if exists|p: Seq<Segment>| is_best(routes, p, segs) {
        let p = choose|p: Seq<Segment>| is_best(routes, p, segs);
        assert(routes.contains_key(p));
    }
}

} // verus!
