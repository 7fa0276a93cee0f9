//! The search below a node: literal edge first, then the parameter edge, then
//! the wildcard edge, going back where a branch leads to no route.

use vstd::prelude::*;
use crate::bytes::{copy_bytes, join, join_from, views, SLASH};
use crate::matcher::pairs;
use crate::node::{lemma_lookup_prepend, prepend, RouterNode};
use crate::pattern::{captures, lemma_matches_empty, lemma_matches_step, pattern_matches, prefers};
use crate::segment::{Constraint, Segment};

verus! {

/// Whether `p` is a route below the node that matches the path and is
/// preferred to every other route below the node that matches it.
pub(crate) open spec fn node_best(node: RouterNode, p: Seq<Segment>, s: Seq<Seq<u8>>) -> bool {
    &&& node.lookup(p) is Some
    &&& pattern_matches(p, s)
    &&& forall|q: Seq<Segment>|
        (#[trigger] node.lookup(q)) is Some && pattern_matches(q, s) && q != p ==> prefers(p, q)
}

/// Whether no route below the node matches the path.
pub(crate) open spec fn no_match(node: RouterNode, s: Seq<Seq<u8>>) -> bool {
    forall|q: Seq<Segment>| (#[trigger] node.lookup(q)) is Some ==> !pattern_matches(q, s)
}

/// Whether no route below the node that starts with a segment of the given
/// rank matches the path.
pub(crate) open spec fn no_match_headed(node: RouterNode, s: Seq<Seq<u8>>, rank: int) -> bool {
    forall|q: Seq<Segment>|
        (#[trigger] node.lookup(q)) is Some && q.len() > 0 && q[0].rank() == rank
            ==> !pattern_matches(q, s)
}

/// What the search below a node found: the route that the search ends at,
/// with its identifier and its captures.
pub(crate) open spec fn found(
    node: RouterNode,
    s: Seq<Seq<u8>>,
    out: Option<(u64, Vec<(Vec<u8>, Vec<u8>)>, Ghost<Seq<Segment>>)>,
) -> bool {
    match out {
        Some((id, params, p)) => {
            &&& node.search(s) == Some(p@)
            &&& node.lookup(p@) == Some(id)
            &&& pairs(params@) == captures(p@, s)
        },
        None => node.search(s) is None,
    }
}

/// Where the first segment of the path takes no edge of a rank, or the child
/// below that edge holds no match for the rest, no route that starts with a
/// segment of that rank matches.
pub(crate) proof fn lemma_rank_fails(node: RouterNode, s: Seq<Seq<u8>>, head: Segment)
    requires
        s.len() > 0,
        head is Literal ==> head == Segment::Literal(s[0]),
        head is Param ==> node.param_child is Some ==> head == crate::node::param_segment(
            *node.param_child.unwrap(),
        ),
        head is Wildcard ==> node.wildcard_child is Some ==> head == crate::node::wildcard_segment(
            *node.wildcard_child.unwrap(),
        ),
        match node.step(head) {
            Some(child) => if head is Wildcard {
                child.terminal is None
            } else {
                !head.takes(s[0]) || no_match(child, s.skip(1))
            },
            None => true,
        },
    ensures
        no_match_headed(node, s, head.rank()),
{
    assert forall|q: Seq<Segment>|
        (#[trigger] node.lookup(q)) is Some && q.len() > 0 && q[0].rank() == head.rank()
            && pattern_matches(q, s) implies false by {
        lemma_matches_step(q, s);
        assert(node.step(q[0]) is Some);
        let child = node.step(q[0]).unwrap();
        assert(child.lookup(q.skip(1)) is Some);
        if q[0] is Wildcard {
            assert(q.len() == 1);
            assert(q.skip(1).len() == 0);
            assert(q[0] == head);
        } else {
            assert(q[0].takes(s[0]));
            assert(q[0] == head);
        }
    }
}

/// The best route below the child for the first segment, with that segment
/// before it, is the best route below the node, where no route that starts
/// with a segment of a lower rank matches.
pub(crate) proof fn lemma_best_below(
    node: RouterNode,
    s: Seq<Seq<u8>>,
    head: Segment,
    child: RouterNode,
    tail: Seq<Segment>,
)
    requires
        s.len() > 0,
        !(head is Wildcard),
        node.step(head) == Some(child),
        head.takes(s[0]),
        node_best(child, tail, s.skip(1)),
        forall|rank: int| 0 <= rank < head.rank() ==> no_match_headed(node, s, rank),
    ensures
        node_best(node, prepend(head, tail), s),
        node.lookup(prepend(head, tail)) == child.lookup(tail),
        captures(prepend(head, tail), s) == match head {
            Segment::Param(name, _) => seq![(name, s[0])] + captures(tail, s.skip(1)),
            _ => captures(tail, s.skip(1)),
        },
{
    let p = prepend(head, tail);
    lemma_lookup_prepend(node, head, tail);
    lemma_matches_step(p, s);
    assert forall|q: Seq<Segment>|
        (#[trigger] node.lookup(q)) is Some && pattern_matches(q, s) && q != p implies prefers(
        p,
        q,
    ) by {
        lemma_matches_empty(q, s);
        assert(q.len() > 0);
        lemma_matches_step(q, s);
        assert(node.step(q[0]) is Some);
        if q[0].rank() < head.rank() {
            assert(no_match_headed(node, s, q[0].rank()));
        } else if q[0].rank() > head.rank() {
            assert(p.take(0) == q.take(0));
        } else {
            assert(q[0] == head);
            crate::node::lemma_same_pattern(p, q);
            let qt = q.skip(1);
            assert(child.lookup(qt) is Some);
            assert(prefers(tail, qt));
            let i = choose|i: int|
                0 <= i < tail.len() && i < qt.len() && #[trigger] tail.take(i) == qt.take(i)
                    && tail[i].rank() < qt[i].rank();
            let ph = p.take(i + 1);
            let qh = q.take(i + 1);
            assert(ph == qh) by {
                assert forall|k: int| 0 <= k < i + 1 implies #[trigger] ph[k] == qh[k] by {
                    if k > 0 {
                        assert(tail.take(i)[k - 1] == tail[k - 1]);
                        assert(qt.take(i)[k - 1] == qt[k - 1]);
                    }
                }
            }
            assert(p[i + 1] == tail[i]);
            assert(q[i + 1] == qt[i]);
        }
    }
}

/// A wildcard edge that leads to a route gives the best route below the node,
/// where no route that starts with a literal or a parameter matches.
pub(crate) proof fn lemma_best_wildcard(
    node: RouterNode,
    s: Seq<Seq<u8>>,
    name: Seq<u8>,
    child: RouterNode,
)
    requires
        s.len() > 0,
        node.step(Segment::Wildcard(name)) == Some(child),
        child.terminal is Some,
        no_match_headed(node, s, 0),
        no_match_headed(node, s, 1),
    ensures
        node_best(node, seq![Segment::Wildcard(name)], s),
        node.lookup(seq![Segment::Wildcard(name)]) == child.terminal,
        captures(seq![Segment::Wildcard(name)], s) == seq![(name, join(s, SLASH))],
{
    let p = seq![Segment::Wildcard(name)];
    assert(p.skip(1).len() == 0);
    assert(node.lookup(p) == child.lookup(p.skip(1)));
    assert forall|q: Seq<Segment>|
        (#[trigger] node.lookup(q)) is Some && pattern_matches(q, s) && q != p implies prefers(
        p,
        q,
    ) by {
        lemma_matches_empty(q, s);
        lemma_matches_step(q, s);
        assert(node.step(q[0]) is Some);
        if q[0] is Wildcard {
            assert(q =~= p);
        }
    }
}

impl RouterNode {
    /// The route that the search below this node ends at, if it ends at one:
    /// the literal edge for the first segment comes first, then the parameter
    /// edge, then the wildcard edge.
    pub(crate) open spec fn search(self, s: Seq<Seq<u8>>) -> Option<Seq<Segment>>
        decreases s.len(),
    {
        if s.len() == 0 {
            if self.terminal is Some {
                Some(Seq::empty())
            } else {
                None
            }
        } else {
            let literal = Segment::Literal(s[0]);
            let by_literal = match self.step(literal) {
                Some(child) => child.search(s.skip(1)),
                None => None,
            };
            let by_param = match self.param_child {
                Some(edge) => if crate::node::param_segment(*edge).takes(s[0]) {
                    edge.child.search(s.skip(1))
                } else {
                    None
                },
                None => None,
            };
            if by_literal is Some {
                Some(prepend(literal, by_literal.unwrap()))
            } else if by_param is Some {
                Some(prepend(crate::node::param_segment(*self.param_child.unwrap()), by_param.unwrap()))
            } else {
                match self.wildcard_child {
                    Some(edge) => if edge.child.terminal is Some {
                        Some(seq![crate::node::wildcard_segment(*edge)])
                    } else {
                        None
                    },
                    None => None,
                }
            }
        }
    }
}

/// The search below a node ends at the best route below the node, or at none
/// where no route below the node matches.
pub(crate) proof fn lemma_search(node: RouterNode, s: Seq<Seq<u8>>)
    ensures
        match node.search(s) {
            Some(p) => node_best(node, p, s),
            None => no_match(node, s),
        },
    decreases s.len(),
{
    if s.len() == 0 {
        assert forall|q: Seq<Segment>| pattern_matches(q, s) implies q
            =~= Seq::<Segment>::empty() by {
            lemma_matches_empty(q, s);
        }
    } else {
        let rest = s.skip(1);
        let literal = Segment::Literal(s[0]);
        let by_literal = match node.step(literal) {
            Some(child) => child.search(rest),
            None => None,
        };
        let by_param = match node.param_child {
            Some(edge) => if crate::node::param_segment(*edge).takes(s[0]) {
                edge.child.search(rest)
            } else {
                None
            },
            None => None,
        };
        if let Some(child) = node.step(literal) {
            lemma_search(child, rest);
        }
        if by_literal is Some {
            lemma_best_below(node, s, literal, node.step(literal).unwrap(), by_literal.unwrap());
        } else {
            lemma_rank_fails(node, s, literal);
            let head = match node.param_child {
                Some(edge) => crate::node::param_segment(*edge),
                None => Segment::Param(Seq::empty(), None),
            };
            if let Some(edge) = node.param_child {
                assert(node.step(head) == Some(edge.child));
                lemma_search(edge.child, rest);
            }
            if by_param is Some {
                lemma_best_below(node, s, head, node.param_child.unwrap().child, by_param.unwrap());
            } else {
                lemma_rank_fails(node, s, head);
                let last = match node.wildcard_child {
                    Some(edge) => crate::node::wildcard_segment(*edge),
                    None => Segment::Wildcard(Seq::empty()),
                };
                if node.wildcard_child is Some && node.wildcard_child.unwrap().child.terminal is Some {
                    let edge = node.wildcard_child.unwrap();
                    assert(node.step(last) == Some(edge.child));
                    lemma_best_wildcard(node, s, edge.name@, edge.child);
                } else {
                    lemma_rank_fails(node, s, last);
                    assert forall|q: Seq<Segment>|
                        (#[trigger] node.lookup(q)) is Some implies !pattern_matches(q, s) by {
                        lemma_matches_empty(q, s);
                        if q.len() > 0 {
                            assert(0 <= q[0].rank() <= 2);
                        }
                    }
                }
            }
        }
    }
}

/// Whether the value satisfies the constraint, if there is one.
pub(crate) fn check_constraint(constraint: &Option<Constraint>, value: &[u8]) -> (ok: bool)
    ensures
        ok == crate::segment::constraint_holds(*constraint, value@),
{
    match constraint {
        Some(c) => c.check(value),
        None => true,
    }
}

impl RouterNode {
    /// Searches the tree below this node for the best route that matches the
    /// segments from index `at` on. At each node the literal edge is tried
    /// first, then the parameter edge, then the wildcard edge; a branch that
    /// leads to no route is left again. The search descends one edge for each
    /// segment, so it goes no deeper than the tree.
    pub(crate) fn find(&self, segs: &Vec<Vec<u8>>, at: usize) -> (out: Option<
        (u64, Vec<(Vec<u8>, Vec<u8>)>, Ghost<Seq<Segment>>),
    >)
        requires
            self.wf(),
            at <= segs.len(),
        ensures
            found(*self, views(segs@).skip(at as int), out),
        decreases segs.len() - at,
    {
        let ghost s = views(segs@).skip(at as int);
        if at == segs.len() {
            return match self.terminal {
                Some(id) => {
                    let params: Vec<(Vec<u8>, Vec<u8>)> = Vec::new();
                    assert(pairs(params@) == captures(Seq::<Segment>::empty(), s));
                    Some((id, params, Ghost(Seq::empty())))
                },
                None => None,
            };
        }
        let seg = &segs[at];
        let ghost rest = views(segs@).skip(at + 1);
        assert(s.skip(1) == rest);
        assert(s[0] == seg@);
        // The literal edge.
        let ghost literal = Segment::Literal(seg@);
        match self.find_literal(seg.as_slice()) {
            Some(k) => {
                let child = &self.literal_children[k].child;
                match child.find(segs, at + 1) {
                    Some((id, params, tail)) => {
                        proof {
                            lemma_lookup_prepend(*self, literal, tail@);
                        }
                        return Some((id, params, Ghost(prepend(literal, tail@))));
                    },
                    None => {},
                }
            },
            None => {},
        }
        // The parameter edge.
        match &self.param_child {
            Some(edge) => {
                if seg.len() > 0 && check_constraint(&edge.constraint, seg.as_slice()) {
                    match edge.child.find(segs, at + 1) {
                        Some((id, mut params, tail)) => {
                            let ghost below = params@;
                            let ghost head = crate::node::param_segment(**edge);
                            params.insert(
                                0,
                                (copy_bytes(edge.name.as_slice()), copy_bytes(seg.as_slice())),
                            );
                            proof {
                                lemma_lookup_prepend(*self, head, tail@);
                                assert(pairs(params@) == seq![(edge.name@, s[0])] + pairs(below));
                            }
                            return Some((id, params, Ghost(prepend(head, tail@))));
                        },
                        None => {},
                    }
                }
            },
            None => {},
        }
        // The wildcard edge.
        match &self.wildcard_child {
            Some(edge) => {
                match edge.child.terminal {
                    Some(id) => {
                        let mut params: Vec<(Vec<u8>, Vec<u8>)> = Vec::new();
                        params.push((copy_bytes(edge.name.as_slice()), join_from(segs, at, SLASH)));
                        let ghost lone = seq![crate::node::wildcard_segment(**edge)];
                        proof {
                            assert(lone.skip(1).len() == 0);
                            assert(self.lookup(lone) == edge.child.lookup(lone.skip(1)));
                            assert(pairs(params@) == seq![(edge.name@, join(s, SLASH))]);
                        }
                        Some((id, params, Ghost(lone)))
                    },
                    None => None,
                }
            },
            None => None,
        }
    }
}

} // verus!
