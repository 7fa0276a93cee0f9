//! The nodes of a router tree and the edges between them.

use vstd::prelude::*;
use crate::bytes::{bytes_eq, copy_bytes};
use crate::error::CompileError;
use crate::segment::{same_constraint, segments_of, Constraint, Segment, SegmentDescriptor};

verus! {

/// An edge that is taken by the segment with exactly the bytes of `label`.
pub(crate) struct LiteralEdge {
    pub(crate) label: Vec<u8>,
    pub(crate) child: RouterNode,
}

/// The edge that is taken by any one segment that satisfies the constraint.
pub(crate) struct ParamEdge {
    pub(crate) name: Vec<u8>,
    pub(crate) constraint: Option<Constraint>,
    pub(crate) child: RouterNode,
}

/// The edge that is taken by all the segments that remain.
pub(crate) struct WildcardEdge {
    pub(crate) name: Vec<u8>,
    pub(crate) child: RouterNode,
}

/// A node of the tree. It owns its edges and, through them, its children.
pub(crate) struct RouterNode {
    pub(crate) literal_children: Vec<LiteralEdge>,
    pub(crate) param_child: Option<Box<ParamEdge>>,
    pub(crate) wildcard_child: Option<Box<WildcardEdge>>,
    pub(crate) terminal: Option<u64>,
}

/// The index of the edge with the label `label`, if there is one.
pub(crate) open spec fn edge_index(edges: Seq<LiteralEdge>, label: Seq<u8>) -> Option<int> {
    if exists|i: int| 0 <= i < edges.len() && (#[trigger] edges[i]).label@ == label {
        Some(choose|i: int| 0 <= i < edges.len() && (#[trigger] edges[i]).label@ == label)
    } else {
        None
    }
}

/// Whether no two edges have the same label.
pub(crate) open spec fn distinct_labels(edges: Seq<LiteralEdge>) -> bool {
    forall|i: int, j: int|
        0 <= i < j < edges.len() ==> (#[trigger] edges[i]).label@ != (#[trigger] edges[j]).label@
}

/// Among edges with distinct labels, the edge with a given label is found at
/// its index.
pub(crate) proof fn lemma_edge_index(edges: Seq<LiteralEdge>, i: int)
    requires
        distinct_labels(edges),
        0 <= i < edges.len(),
    ensures
        edge_index(edges, edges[i].label@) == Some(i),
{
    let label = edges[i].label@;
    let j = choose|j: int| 0 <= j < edges.len() && (#[trigger] edges[j]).label@ == label;
    if j < i {
        assert(edges[j].label@ != edges[i].label@);
    } else if i < j {
        assert(edges[i].label@ != edges[j].label@);
    }
}

/// Two non-empty patterns are equal just when their first segments and their
/// rests are.
pub(crate) proof fn lemma_same_pattern(p: Seq<Segment>, q: Seq<Segment>)
    requires
        p.len() > 0,
        q.len() > 0,
    ensures
        p == q <==> (p[0] == q[0] && p.skip(1) == q.skip(1)),
{
    if p[0] == q[0] && p.skip(1) == q.skip(1) {
        assert(p.len() == q.len()) by {
            assert(p.skip(1).len() == q.skip(1).len());
        }
        assert forall|i: int| 0 <= i < p.len() implies p[i] == q[i] by {
            if i > 0 {
                assert(p.skip(1)[i - 1] == q.skip(1)[i - 1]);
            }
        }
        assert(p =~= q);
    }
}

impl RouterNode {
    /// The child that the edge for `segment` leads to, if the node has that
    /// edge.
    pub(crate) open spec fn step(self, segment: Segment) -> Option<RouterNode> {
        match segment {
            Segment::Literal(label) => match edge_index(self.literal_children@, label) {
                Some(i) => Some(self.literal_children@[i].child),
                None => None,
            },
            Segment::Param(name, constraint) => match self.param_child {
                Some(edge) => if edge.name@ == name && edge.constraint == constraint {
                    Some(edge.child)
                } else {
                    None
                },
                None => None,
            },
            Segment::Wildcard(name) => match self.wildcard_child {
                Some(edge) => if edge.name@ == name {
                    Some(edge.child)
                } else {
                    None
                },
                None => None,
            },
        }
    }

    /// The identifier of the route that ends at the node reached along `p`,
    /// if the tree below this node holds that route.
    pub(crate) open spec fn lookup(self, p: Seq<Segment>) -> Option<u64>
        decreases p.len(),
    {
        if p.len() == 0 {
            self.terminal
        } else {
            match self.step(p[0]) {
                Some(child) => child.lookup(p.skip(1)),
                None => None,
            }
        }
    }

    /// Whether the tree below this node holds a route.
    pub(crate) open spec fn inhabited(self) -> bool {
        exists|p: Seq<Segment>| (#[trigger] self.lookup(p)) is Some
    }

    /// Whether the node already has an edge of the kind of `segment` that
    /// binds another name or carries another constraint.
    pub(crate) open spec fn blocks(self, segment: Segment) -> bool {
        match segment {
            Segment::Literal(_) => false,
            Segment::Param(name, constraint) => match self.param_child {
                Some(edge) => !(edge.name@ == name && edge.constraint == constraint),
                None => false,
            },
            Segment::Wildcard(name) => match self.wildcard_child {
                Some(edge) => edge.name@ != name,
                None => false,
            },
        }
    }

    /// Whether a node on the way along `p` blocks the segment that comes next.
    pub(crate) open spec fn conflicts(self, p: Seq<Segment>) -> bool
        decreases p.len(),
    {
        if p.len() == 0 {
            false
        } else if self.blocks(p[0]) {
            true
        } else {
            match self.step(p[0]) {
                Some(child) => child.conflicts(p.skip(1)),
                None => false,
            }
        }
    }

    /// The invariant of a subtree: the labels of a node's literal edges are
    /// distinct, and below every edge there is a route.
    pub(crate) open spec fn wf(self) -> bool
        decreases self,
    {
        &&& distinct_labels(self.literal_children@)
        &&& forall|i: int|
            0 <= i < self.literal_children@.len() ==> {
                &&& (#[trigger] self.literal_children@[i]).child.wf()
                &&& self.literal_children@[i].child.inhabited()
            }
        &&& match self.param_child {
            Some(edge) => edge.child.wf() && edge.child.inhabited(),
            None => true,
        }
        &&& match self.wildcard_child {
            Some(edge) => edge.child.wf() && edge.child.inhabited(),
            None => true,
        }
    }

    /// A node without edges and without a route.
    pub(crate) fn empty() -> (node: RouterNode)
        ensures
            node.wf(),
            forall|q: Seq<Segment>| (#[trigger] node.lookup(q)) is None,
            forall|q: Seq<Segment>| !(#[trigger] node.conflicts(q)),
    {
        let node = RouterNode {
            literal_children: Vec::new(),
            param_child: None,
            wildcard_child: None,
            terminal: None,
        };
        assert forall|q: Seq<Segment>| (#[trigger] node.lookup(q)) is None by {
            if q.len() > 0 {
                assert(node.step(q[0]) is None);
            }
        }
        assert forall|q: Seq<Segment>| !(#[trigger] node.conflicts(q)) by {
            if q.len() > 0 {
                assert(node.step(q[0]) is None);
            }
        }
        node
    }

    /// The index of the literal edge with the label `label`, if there is one.
    pub(crate) fn find_literal(&self, label: &[u8]) -> (found: Option<usize>)
        requires
            distinct_labels(self.literal_children@),
        ensures
            match found {
                Some(i) => edge_index(self.literal_children@, label@) == Some(i as int) && i
                    < self.literal_children@.len(),
                None => edge_index(self.literal_children@, label@) is None,
            },
    {
        let mut i: usize = 0;
        while i < self.literal_children.len()
            invariant
                i <= self.literal_children@.len(),
                distinct_labels(self.literal_children@),
                forall|j: int| 0 <= j < i ==> (#[trigger] self.literal_children@[j]).label@ != label@,
            decreases self.literal_children@.len() - i,
        {
            if bytes_eq(self.literal_children[i].label.as_slice(), label) {
                proof {
                    lemma_edge_index(self.literal_children@, i as int);
                }
                return Some(i);
            }
            i += 1;
        }
        None
    }

    /// The chain of nodes for the segments from index `at` on, with the route
    /// at its end.
    pub(crate) fn chain(segs: &Vec<SegmentDescriptor>, at: usize, route_id: u64) -> (node:
        RouterNode)
        requires
            at <= segs.len(),
        ensures
            node.wf(),
            node.inhabited(),
            forall|q: Seq<Segment>| #[trigger]
                node.lookup(q) == if q == segments_of(segs@).skip(at as int) {
                    Some(route_id)
                } else {
                    None
                },
        decreases segs.len() - at,
    {
        let ghost p = segments_of(segs@).skip(at as int);
        if at == segs.len() {
            let node = RouterNode {
                literal_children: Vec::new(),
                param_child: None,
                wildcard_child: None,
                terminal: Some(route_id),
            };
            assert forall|q: Seq<Segment>| #[trigger]
                node.lookup(q) == if q == p {
                    Some(route_id)
                } else {
                    None::<u64>
                } by {
                if q.len() > 0 {
                    assert(node.step(q[0]) is None);
                } else {
                    assert(q =~= p);
                }
            }
            assert(node.lookup(p) is Some);
            return node;
        }
        let child = RouterNode::chain(segs, at + 1, route_id);
        let ghost rest = segments_of(segs@).skip(at + 1);
        assert(p.skip(1) == rest);
        assert(p[0] == segs@[at as int]@);
        let node = match &segs[at] {
            SegmentDescriptor::Literal(label) => {
                let mut edges: Vec<LiteralEdge> = Vec::new();
                edges.push(LiteralEdge { label: copy_bytes(label.as_slice()), child });
                proof {
                    lemma_edge_index(edges@, 0);
                }
                RouterNode {
                    literal_children: edges,
                    param_child: None,
                    wildcard_child: None,
                    terminal: None,
                }
            },
            SegmentDescriptor::Param(name, constraint) => RouterNode {
                literal_children: Vec::new(),
                param_child: Some(
                    Box::new(
                        ParamEdge {
                            name: copy_bytes(name.as_slice()),
                            constraint: *constraint,
                            child,
                        },
                    ),
                ),
                wildcard_child: None,
                terminal: None,
            },
            SegmentDescriptor::Wildcard(name) => RouterNode {
                literal_children: Vec::new(),
                param_child: None,
                wildcard_child: Some(
                    Box::new(WildcardEdge { name: copy_bytes(name.as_slice()), child }),
                ),
                terminal: None,
            },
        };
        assert forall|segment: Segment| #[trigger]
            node.step(segment) == if segment == p[0] {
                Some(child)
            } else {
                None::<RouterNode>
            } by {
            if p[0] is Literal {
                let edges = node.literal_children@;
                assert(edges.len() == 1);
                lemma_edge_index(edges, 0);
                if segment is Literal && segment != p[0] {
                    assert(edge_index(edges, segment->Literal_0) is None);
                }
            }
        }
        assert forall|q: Seq<Segment>| #[trigger]
            node.lookup(q) == if q == p {
                Some(route_id)
            } else {
                None::<u64>
            } by {
            assert(p.len() > 0);
            if q.len() > 0 {
                lemma_same_pattern(p, q);
                assert(node.step(q[0]) == if q[0] == p[0] {
                    Some(child)
                } else {
                    None::<RouterNode>
                });
                if q[0] == p[0] {
                    assert(node.lookup(q) == child.lookup(q.skip(1)));
                } else {
                    assert(node.lookup(q) is None);
                }
            } else {
                assert(node.terminal is None);
                assert(node.lookup(q) is None);
            }
        }
        assert(node.lookup(p) is Some);
        node
    }

    /// Adds the route with the segments from index `at` on to the tree below
    /// this node, unless the tree holds it already or blocks it.
    pub(crate) fn insert(&mut self, segs: &Vec<SegmentDescriptor>, at: usize, route_id: u64) -> (out:
        Result<(), CompileError>)
        requires
            old(self).wf(),
            at <= segs.len(),
        ensures
            final(self).wf(),
            inserted(
                *old(self),
                *final(self),
                segments_of(segs@).skip(at as int),
                route_id,
                out,
            ),
        decreases segs.len() - at,
    {
        let ghost p = segments_of(segs@).skip(at as int);
        let ghost before = *self;
        if at == segs.len() {
            assert(p.len() == 0);
            if self.terminal.is_some() {
                return Err(CompileError::DuplicateRoute);
            }
            self.terminal = Some(route_id);
            proof {
                let after = *self;
                assert forall|q: Seq<Segment>| #[trigger]
                    after.lookup(q) == if q == p {
                        Some(route_id)
                    } else {
                        before.lookup(q)
                    } by {
                    if q.len() > 0 {
                        assert(after.step(q[0]) == before.step(q[0]));
                    } else {
                        assert(q =~= p);
                    }
                }
            }
            return Ok(());
        }
        let ghost rest = segments_of(segs@).skip(at + 1);
        assert(p.skip(1) == rest);
        assert(p[0] == segs@[at as int]@);
        match &segs[at] {
            SegmentDescriptor::Literal(label) => {
                match self.find_literal(label.as_slice()) {
                    Some(k) => {
                        let ghost old_child = self.literal_children@[k as int].child;
                        let out = self.literal_children[k].child.insert(segs, at + 1, route_id);
                        proof {
                            let after = *self;
                            let new_child = after.literal_children@[k as int].child;
                            assert(after.literal_children@.len() == before.literal_children@.len());
                            assert forall|i: int|
                                0 <= i < after.literal_children@.len() implies (
                            #[trigger] after.literal_children@[i]).label@
                                == before.literal_children@[i].label@ by {}
                            assert(new_child.inhabited()) by {
                                if out is Ok {
                                    assert(new_child.lookup(rest) is Some);
                                } else {
                                    let w = choose|w: Seq<Segment>|
                                        (#[trigger] old_child.lookup(w)) is Some;
                                    assert(new_child.lookup(w) is Some);
                                }
                            }
                            assert(after.wf());
                            lemma_edge_index(before.literal_children@, k as int);
                            assert forall|segment: Segment| #[trigger]
                                after.step(segment) == if segment == p[0] {
                                    Some(new_child)
                                } else {
                                    before.step(segment)
                                } by {
                                if let Segment::Literal(b) = segment {
                                    lemma_same_edges(
                                        before.literal_children@,
                                        after.literal_children@,
                                        b,
                                    );
                                    lemma_edge_index(after.literal_children@, k as int);
                                }
                            }
                            lemma_inserted_below(before, after, p, route_id, out, old_child, new_child);
                        }
                        out
                    },
                    None => {
                        let child = RouterNode::chain(segs, at + 1, route_id);
                        self.literal_children.push(
                            LiteralEdge { label: copy_bytes(label.as_slice()), child },
                        );
                        proof {
                            let after = *self;
                            let n = before.literal_children@.len() as int;
                            assert(after.literal_children@.len() == n + 1);
                            assert forall|i: int| 0 <= i < n implies (
                            #[trigger] after.literal_children@[i])
                                == before.literal_children@[i] by {}
                            assert(distinct_labels(after.literal_children@)) by {
                                assert forall|i: int, j: int|
                                    0 <= i < j < after.literal_children@.len() implies (
                                #[trigger] after.literal_children@[i]).label@ != (
                                #[trigger] after.literal_children@[j]).label@ by {
                                    if j == n {
                                        assert(before.literal_children@[i].label@ != label@);
                                    } else {
                                        assert(before.literal_children@[i].label@
                                            != before.literal_children@[j].label@);
                                    }
                                }
                            }
                            assert(after.wf());
                            lemma_edge_index(after.literal_children@, n);
                            assert forall|segment: Segment| #[trigger]
                                after.step(segment) == if segment == p[0] {
                                    Some(child)
                                } else {
                                    before.step(segment)
                                } by {
                                if let Segment::Literal(b) = segment {
                                    if b != label@ {
                                        lemma_grown_edges(
                                            before.literal_children@,
                                            after.literal_children@,
                                            b,
                                        );
                                    }
                                }
                            }
                            assert(before.step(p[0]) is None);
                            lemma_inserted_fresh(before, after, p, route_id, child);
                        }
                        Ok(())
                    },
                }
            },
            SegmentDescriptor::Param(name, constraint) => {
                match &mut self.param_child {
                    Some(edge) => {
                        if bytes_eq(edge.name.as_slice(), name.as_slice()) && same_constraint(
                            &edge.constraint,
                            constraint,
                        ) {
                            let ghost old_child = edge.child;
                            let out = edge.child.insert(segs, at + 1, route_id);
                            proof {
                                let after = *self;
                                let new_child = after.param_child.unwrap().child;
                                assert(new_child.inhabited()) by {
                                    if out is Ok {
                                        assert(new_child.lookup(rest) is Some);
                                    } else {
                                        let w = choose|w: Seq<Segment>|
                                            (#[trigger] old_child.lookup(w)) is Some;
                                        assert(new_child.lookup(w) is Some);
                                    }
                                }
                                assert(after.wf());
                                assert forall|segment: Segment| #[trigger]
                                    after.step(segment) == if segment == p[0] {
                                        Some(new_child)
                                    } else {
                                        before.step(segment)
                                    } by {}
                                lemma_inserted_below(
                                    before,
                                    after,
                                    p,
                                    route_id,
                                    out,
                                    old_child,
                                    new_child,
                                );
                            }
                            out
                        } else {
                            assert(before.blocks(p[0]));
                            assert forall|q: Seq<Segment>| #[trigger]
                                self.lookup(q) == before.lookup(q) by {}
                            Err(CompileError::ConflictingRoute)
                        }
                    },
                    None => {
                        let child = RouterNode::chain(segs, at + 1, route_id);
                        self.param_child = Some(
                            Box::new(
                                ParamEdge {
                                    name: copy_bytes(name.as_slice()),
                                    constraint: *constraint,
                                    child,
                                },
                            ),
                        );
                        proof {
                            let after = *self;
                            assert(after.wf());
                            assert forall|segment: Segment| #[trigger]
                                after.step(segment) == if segment == p[0] {
                                    Some(child)
                                } else {
                                    before.step(segment)
                                } by {}
                            lemma_inserted_fresh(before, after, p, route_id, child);
                        }
                        Ok(())
                    },
                }
            },
            SegmentDescriptor::Wildcard(name) => {
                match &mut self.wildcard_child {
                    Some(edge) => {
                        if bytes_eq(edge.name.as_slice(), name.as_slice()) {
                            let ghost old_child = edge.child;
                            let out = edge.child.insert(segs, at + 1, route_id);
                            proof {
                                let after = *self;
                                let new_child = after.wildcard_child.unwrap().child;
                                assert(new_child.inhabited()) by {
                                    if out is Ok {
                                        assert(new_child.lookup(rest) is Some);
                                    } else {
                                        let w = choose|w: Seq<Segment>|
                                            (#[trigger] old_child.lookup(w)) is Some;
                                        assert(new_child.lookup(w) is Some);
                                    }
                                }
                                assert(after.wf());
                                assert forall|segment: Segment| #[trigger]
                                    after.step(segment) == if segment == p[0] {
                                        Some(new_child)
                                    } else {
                                        before.step(segment)
                                    } by {}
                                lemma_inserted_below(
                                    before,
                                    after,
                                    p,
                                    route_id,
                                    out,
                                    old_child,
                                    new_child,
                                );
                            }
                            out
                        } else {
                            assert(before.blocks(p[0]));
                            assert forall|q: Seq<Segment>| #[trigger]
                                self.lookup(q) == before.lookup(q) by {}
                            Err(CompileError::ConflictingRoute)
                        }
                    },
                    None => {
                        let child = RouterNode::chain(segs, at + 1, route_id);
                        self.wildcard_child = Some(
                            Box::new(WildcardEdge { name: copy_bytes(name.as_slice()), child }),
                        );
                        proof {
                            let after = *self;
                            assert(after.wf());
                            assert forall|segment: Segment| #[trigger]
                                after.step(segment) == if segment == p[0] {
                                    Some(child)
                                } else {
                                    before.step(segment)
                                } by {}
                            lemma_inserted_fresh(before, after, p, route_id, child);
                        }
                        Ok(())
                    },
                }
            },
        }
    }
}

/// What an insertion of the pattern `p` below a node does: where the tree
/// blocks the pattern or holds it already, the error says so and the routes
/// stay; otherwise the pattern is added with its identifier.
pub(crate) open spec fn inserted(
    before: RouterNode,
    after: RouterNode,
    p: Seq<Segment>,
    route_id: u64,
    out: Result<(), CompileError>,
) -> bool {
    if before.conflicts(p) {
        &&& out == Err::<(), CompileError>(CompileError::ConflictingRoute)
        &&& forall|q: Seq<Segment>| #[trigger] after.lookup(q) == before.lookup(q)
    } else if before.lookup(p) is Some {
        &&& out == Err::<(), CompileError>(CompileError::DuplicateRoute)
        &&& forall|q: Seq<Segment>| #[trigger] after.lookup(q) == before.lookup(q)
    } else {
        &&& out == Ok::<(), CompileError>(())
        &&& forall|q: Seq<Segment>| #[trigger]
            after.lookup(q) == if q == p {
                Some(route_id)
            } else {
                before.lookup(q)
            }
    }
}

/// Edges with the same labels at the same places lead to the same index.
pub(crate) proof fn lemma_same_edges(a: Seq<LiteralEdge>, b: Seq<LiteralEdge>, label: Seq<u8>)
    requires
        distinct_labels(a),
        distinct_labels(b),
        a.len() == b.len(),
        forall|i: int| 0 <= i < a.len() ==> (#[trigger] a[i]).label@ == b[i].label@,
    ensures
        edge_index(a, label) == edge_index(b, label),
{
    if edge_index(a, label) is Some {
        let i = edge_index(a, label).unwrap();
        assert(a[i].label@ == b[i].label@);
        lemma_edge_index(b, i);
    } else if edge_index(b, label) is Some {
        let i = edge_index(b, label).unwrap();
        assert(a[i].label@ == b[i].label@);
        lemma_edge_index(a, i);
    }
}

/// An edge pushed at the end leaves the index of every other label as it was.
pub(crate) proof fn lemma_grown_edges(a: Seq<LiteralEdge>, b: Seq<LiteralEdge>, label: Seq<u8>)
    requires
        distinct_labels(a),
        distinct_labels(b),
        b.len() == a.len() + 1,
        forall|i: int| 0 <= i < a.len() ==> (#[trigger] b[i]) == a[i],
        b[a.len() as int].label@ != label,
    ensures
        edge_index(b, label) == edge_index(a, label),
        edge_index(a, label) is Some ==> b[edge_index(a, label).unwrap()] == a[edge_index(
            a,
            label,
        ).unwrap()],
{
    if edge_index(a, label) is Some {
        let i = edge_index(a, label).unwrap();
        assert(b[i] == a[i]);
        lemma_edge_index(b, i);
    } else if edge_index(b, label) is Some {
        let i = edge_index(b, label).unwrap();
        assert(b[i] == a[i]);
        lemma_edge_index(a, i);
    }
}

/// An insertion below the child for the first segment of `p` is an insertion
/// below the node.
pub(crate) proof fn lemma_inserted_below(
    before: RouterNode,
    after: RouterNode,
    p: Seq<Segment>,
    route_id: u64,
    out: Result<(), CompileError>,
    old_child: RouterNode,
    new_child: RouterNode,
)
    requires
        p.len() > 0,
        !before.blocks(p[0]),
        before.step(p[0]) == Some(old_child),
        after.terminal == before.terminal,
        forall|segment: Segment| #[trigger]
            after.step(segment) == if segment == p[0] {
                Some(new_child)
            } else {
                before.step(segment)
            },
        inserted(old_child, new_child, p.skip(1), route_id, out),
    ensures
        inserted(before, after, p, route_id, out),
{
    assert(before.conflicts(p) == old_child.conflicts(p.skip(1)));
    assert(before.lookup(p) == old_child.lookup(p.skip(1)));
    assert forall|q: Seq<Segment>|
        after.lookup(q) == if q == p && out is Ok {
            Some(route_id)
        } else {
            #[trigger] before.lookup(q)
        } by {
        if q.len() > 0 {
            lemma_same_pattern(p, q);
            if q[0] == p[0] {
                assert(after.lookup(q) == new_child.lookup(q.skip(1)));
                assert(before.lookup(q) == old_child.lookup(q.skip(1)));
            } else {
                assert(after.step(q[0]) == before.step(q[0]));
            }
        }
    }
}

/// A fresh chain hung below a node for the first segment of `p` adds the
/// pattern to the routes of the node.
pub(crate) proof fn lemma_inserted_fresh(
    before: RouterNode,
    after: RouterNode,
    p: Seq<Segment>,
    route_id: u64,
    child: RouterNode,
)
    requires
        p.len() > 0,
        !before.blocks(p[0]),
        before.step(p[0]) is None,
        after.terminal == before.terminal,
        forall|segment: Segment| #[trigger]
            after.step(segment) == if segment == p[0] {
                Some(child)
            } else {
                before.step(segment)
            },
        forall|q: Seq<Segment>| #[trigger]
            child.lookup(q) == if q == p.skip(1) {
                Some(route_id)
            } else {
                None
            },
    ensures
        inserted(before, after, p, route_id, Ok(())),
{
    assert(!before.conflicts(p));
    assert(before.lookup(p) is None);
    assert forall|q: Seq<Segment>| #[trigger]
        after.lookup(q) == if q == p {
            Some(route_id)
        } else {
            before.lookup(q)
        } by {
        if q.len() > 0 {
            lemma_same_pattern(p, q);
            if q[0] == p[0] {
                assert(after.lookup(q) == child.lookup(q.skip(1)));
                assert(before.lookup(q) is None);
            } else {
                assert(after.step(q[0]) == before.step(q[0]));
            }
        }
    }
}

/// The segment that a parameter edge stands for.
pub(crate) open spec fn param_segment(edge: ParamEdge) -> Segment {
    Segment::Param(edge.name@, edge.constraint)
}

/// The segment that a wildcard edge stands for.
pub(crate) open spec fn wildcard_segment(edge: WildcardEdge) -> Segment {
    Segment::Wildcard(edge.name@)
}

/// The child below an edge of a well-formed node is well formed and holds a
/// route.
pub(crate) proof fn lemma_step_wf(node: RouterNode, segment: Segment)
    requires
        node.wf(),
        node.step(segment) is Some,
    ensures
        node.step(segment).unwrap().wf(),
        node.step(segment).unwrap().inhabited(),
{
    if let Segment::Literal(label) = segment {
        let i = edge_index(node.literal_children@, label).unwrap();
        assert(node.literal_children@[i].child.wf());
    }
}

/// The pattern with `head` before the segments of `tail`.
pub(crate) open spec fn prepend(head: Segment, tail: Seq<Segment>) -> Seq<Segment> {
    seq![head] + tail
}

/// A route below the child for a segment is, with that segment before it, a
/// route below the node.
pub(crate) proof fn lemma_lookup_prepend(node: RouterNode, head: Segment, tail: Seq<Segment>)
    ensures
        prepend(head, tail).len() == tail.len() + 1,
        prepend(head, tail)[0] == head,
        prepend(head, tail).skip(1) == tail,
        node.lookup(prepend(head, tail)) == match node.step(head) {
            Some(child) => child.lookup(tail),
            None => None,
        },
{
    assert(prepend(head, tail).skip(1) =~= tail);
}

/// Where the tree below a well-formed node blocks a pattern, it holds a route
/// that the pattern conflicts with.
pub(crate) proof fn lemma_conflict_witness(node: RouterNode, p: Seq<Segment>) -> (q: Seq<Segment>)
    requires
        node.wf(),
        node.conflicts(p),
    ensures
        node.lookup(q) is Some,
        crate::pattern::conflicts_with(p, q),
    decreases p.len(),
{
    if node.blocks(p[0]) {
        let (head, child) = match p[0] {
            Segment::Param(_, _) => (
                param_segment(*node.param_child.unwrap()),
                node.param_child.unwrap().child,
            ),
            _ => (wildcard_segment(*node.wildcard_child.unwrap()), node.wildcard_child.unwrap().child),
        };
        assert(node.step(head) == Some(child));
        let w = choose|w: Seq<Segment>| (#[trigger] child.lookup(w)) is Some;
        let q = prepend(head, w);
        lemma_lookup_prepend(node, head, w);
        assert(p.take(0) == q.take(0));
        assert(crate::pattern::clash(p[0], q[0]));
        q
    } else {
        let child = node.step(p[0]).unwrap();
        lemma_step_wf(node, p[0]);
        let w = lemma_conflict_witness(child, p.skip(1));
        let q = prepend(p[0], w);
        lemma_lookup_prepend(node, p[0], w);
        let i = choose|i: int|
            0 <= i < p.skip(1).len() && i < w.len() && #[trigger] p.skip(1).take(i) == w.take(i)
                && crate::pattern::clash(p.skip(1)[i], w[i]);
        let pt = p.take(i + 1);
        let qt = q.take(i + 1);
        assert(pt == qt) by {
            assert forall|k: int| 0 <= k < i + 1 implies #[trigger] pt[k] == qt[k] by {
                if k > 0 {
                    assert(p.skip(1).take(i)[k - 1] == w.take(i)[k - 1]);
                }
            }
        }
        assert(p[i + 1] == p.skip(1)[i]);
        assert(q[i + 1] == w[i]);
        q
    }
}

/// Where the tree below a node holds a route that a pattern conflicts with,
/// it blocks the pattern.
pub(crate) proof fn lemma_conflict_found(node: RouterNode, p: Seq<Segment>, q: Seq<Segment>, i: int)
    requires
        node.lookup(q) is Some,
        0 <= i < p.len(),
        i < q.len(),
        p.take(i) == q.take(i),
        crate::pattern::clash(p[i], q[i]),
    ensures
        node.conflicts(p),
    decreases i,
{
    assert(node.step(q[0]) is Some);
    if i > 0 {
        let ph = p.take(i);
        let qh = q.take(i);
        assert(p[0] == q[0]) by {
            assert(ph[0] == p[0]);
            assert(qh[0] == q[0]);
        }
        if !node.blocks(p[0]) {
            let child = node.step(p[0]).unwrap();
            let pt = p.skip(1).take(i - 1);
            let qt = q.skip(1).take(i - 1);
            assert(pt == qt) by {
                assert forall|k: int| 0 <= k < i - 1 implies #[trigger] pt[k] == qt[k] by {
                    assert(ph[k + 1] == p[k + 1]);
                    assert(qh[k + 1] == q[k + 1]);
                    assert(pt[k] == p[k + 1]);
                    assert(qt[k] == q[k + 1]);
                }
            }
            lemma_conflict_found(child, p.skip(1), q.skip(1), i - 1);
        }
    }
}


/// The tree below a node holds no route that it blocks.
pub(crate) proof fn lemma_blocked_is_absent(node: RouterNode, p: Seq<Segment>)
    requires
        node.conflicts(p),
    ensures
        node.lookup(p) is None,
    decreases p.len(),
{
    if !node.blocks(p[0]) {
        lemma_blocked_is_absent(node.step(p[0]).unwrap(), p.skip(1));
    }
}

} // verus!
