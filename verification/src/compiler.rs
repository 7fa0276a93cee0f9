//! The pattern compiler: from the text of a route pattern to its segments.

use vstd::prelude::*;
use vstd::slice::slice_subrange;
use vstd::string::StringSliceAdditionalSpecFns;
use crate::bytes::{
    bytes_eq, copy_bytes, lemma_split_pieces_lack_sep, split, split_bytes, views, SLASH,
};
use crate::error::CompileError;
use crate::pattern::{bound_names, distinct, well_formed};
use crate::segment::{
    check_identifier, contains_name, is_identifier, segments_of, Constraint, Segment,
    SegmentDescriptor,
};

verus! {

/// The byte `:`, which opens a named parameter.
pub const PARAM_MARK: u8 = 58;

/// The byte `*`, which opens a wildcard.
pub const WILDCARD_MARK: u8 = 42;

/// The segment that a token of a pattern stands for. An empty token stands for
/// none, nor does a mark that is not followed by an identifier.
pub open spec fn classify(token: Seq<u8>) -> Option<Segment> {
    if token.len() == 0 {
        None
    } else if token[0] == PARAM_MARK {
        if is_identifier(token.skip(1)) {
            Some(Segment::Param(token.skip(1), None))
        } else {
            None
        }
    } else if token[0] == WILDCARD_MARK {
        if is_identifier(token.skip(1)) {
            Some(Segment::Wildcard(token.skip(1)))
        } else {
            None
        }
    } else {
        Some(Segment::Literal(token))
    }
}

/// The segments that a sequence of tokens compiles to, or the error of the
/// first token, from the left, that cannot be accepted. A token that stands
/// for no segment is `InvalidSyntax`; else, one that follows a wildcard is
/// `WildcardNotLast`; else, one that binds a name bound before it is
/// `DuplicateParam`.
pub open spec fn compile_tokens(tokens: Seq<Seq<u8>>) -> Result<Seq<Segment>, CompileError>
    decreases tokens.len(),
{
    if tokens.len() == 0 {
        Ok(Seq::empty())
    } else {
        match compile_tokens(tokens.drop_last()) {
            Err(e) => Err(e),
            Ok(before) => match classify(tokens.last()) {
                None => Err(CompileError::InvalidSyntax),
                Some(segment) => if before.len() > 0 && before.last() is Wildcard {
                    Err(CompileError::WildcardNotLast)
                } else if segment.bound_name() is Some && bound_names(before).contains(
                    segment.bound_name().unwrap(),
                ) {
                    Err(CompileError::DuplicateParam)
                } else {
                    Ok(before.push(segment))
                },
            },
        }
    }
}

/// The segments that the text of a pattern compiles to, or the error. A
/// pattern starts with `/`; the pattern `/` has no segments; any other is cut
/// at each `/` after the first byte into its tokens.
pub open spec fn compile_spec(pattern: Seq<u8>) -> Result<Seq<Segment>, CompileError> {
    if pattern.len() == 0 || pattern[0] != SLASH {
        Err(CompileError::InvalidSyntax)
    } else if pattern.len() == 1 {
        Ok(Seq::empty())
    } else {
        compile_tokens(split(pattern.skip(1), SLASH))
    }
}

/// An error among the first tokens is the error of the whole sequence.
pub proof fn lemma_compile_error_stays(tokens: Seq<Seq<u8>>, k: int)
    requires
        0 <= k <= tokens.len(),
        compile_tokens(tokens.take(k)) is Err,
    ensures
        compile_tokens(tokens) == compile_tokens(tokens.take(k)),
    decreases tokens.len() - k,
{
    if k == tokens.len() {
        assert(tokens.take(k) == tokens);
    } else {
        assert(tokens.take(k + 1).drop_last() == tokens.take(k));
        lemma_compile_error_stays(tokens, k + 1);
    }
}

/// What compiles from tokens without `/` is a well-formed pattern.
pub proof fn lemma_compiled_well_formed(tokens: Seq<Seq<u8>>)
    requires
        forall|k: int, j: int|
            0 <= k < tokens.len() && 0 <= j < tokens[k].len() ==> tokens[k][j] != SLASH,
        compile_tokens(tokens) is Ok,
    ensures
        well_formed(compile_tokens(tokens).unwrap()),
        compile_tokens(tokens).unwrap().len() == tokens.len(),
    decreases tokens.len(),
{
    if tokens.len() > 0 {
        let init = tokens.drop_last();
        lemma_compiled_well_formed(init);
        let before = compile_tokens(init).unwrap();
        let segment = classify(tokens.last()).unwrap();
        let after = before.push(segment);
        assert(after.drop_last() == before);
        assert forall|i: int| 0 <= i < after.len() implies (#[trigger] after[i]).well_formed() by {
            if i < before.len() {
                assert(before[i].well_formed());
            } else {
                let token = tokens.last();
                assert(token == tokens[tokens.len() - 1]);
                if segment is Literal {
                    assert forall|j: int| 0 <= j < token.len() implies #[trigger] token[j]
                        != 47 by {}
                }
            }
        }
        assert forall|i: int| 0 <= i < after.len() - 1 implies !((#[trigger] after[i])
            is Wildcard) by {
            if i < before.len() - 1 {
                assert(!(before[i] is Wildcard));
            }
        }
    }
}

/// The segments that the tokens stand for, one for each token.
pub open spec fn token_segments(tokens: Seq<Seq<u8>>) -> Seq<Segment> {
    Seq::new(tokens.len(), |k: int| classify(tokens[k]).unwrap())
}

/// Whether the tokens are those of a pattern: each stands for a segment, a
/// wildcard stands only at the end, and no name is bound twice.
pub open spec fn valid_tokens(tokens: Seq<Seq<u8>>) -> bool {
    &&& forall|k: int| 0 <= k < tokens.len() ==> classify(#[trigger] tokens[k]) is Some
    &&& forall|k: int|
        0 <= k < tokens.len() - 1 ==> !(classify(#[trigger] tokens[k]).unwrap() is Wildcard)
    &&& distinct(bound_names(token_segments(tokens)))
}

/// Whether the text is that of a pattern: it starts with `/`, and it is `/`
/// alone or what follows the first `/` is cut by `/` into valid tokens.
pub open spec fn syntactically_valid(pattern: Seq<u8>) -> bool {
    &&& pattern.len() > 0
    &&& pattern[0] == SLASH
    &&& pattern.len() > 1 ==> valid_tokens(split(pattern.skip(1), SLASH))
}

/// Tokens compile just when they are valid, and then to the segments they
/// stand for.
pub proof fn lemma_valid_tokens_compile(tokens: Seq<Seq<u8>>)
    ensures
        compile_tokens(tokens) is Ok <==> valid_tokens(tokens),
        compile_tokens(tokens) is Ok ==> compile_tokens(tokens).unwrap() == token_segments(tokens),
    decreases tokens.len(),
{
    if tokens.len() == 0 {
        assert(token_segments(tokens) =~= Seq::<Segment>::empty());
        assert(bound_names(token_segments(tokens)) =~= Seq::<Seq<u8>>::empty());
    } else {
        let init = tokens.drop_last();
        let last = tokens.last();
        lemma_valid_tokens_compile(init);
        let before = token_segments(init);
        let all = token_segments(tokens);
        assert(all.drop_last() =~= before);
        if classify(last) is Some {
            let segment = classify(last).unwrap();
            assert(all.last() == segment);
            assert(all =~= before.push(segment));
            let names = bound_names(before);
            if init.len() > 0 {
                assert(before.last() == classify(init.last()).unwrap());
                assert(init.last() == tokens[tokens.len() - 2]);
            }
            if valid_tokens(tokens) {
                assert forall|k: int| 0 <= k < init.len() implies classify(
                    #[trigger] init[k],
                ) is Some by {
                    assert(init[k] == tokens[k]);
                }
                assert forall|k: int| 0 <= k < init.len() - 1 implies !(classify(
                    #[trigger] init[k],
                ).unwrap() is Wildcard) by {
                    assert(init[k] == tokens[k]);
                }
                if segment.bound_name() is Some {
                    let name = segment.bound_name().unwrap();
                    let grown = names.push(name);
                    assert(distinct(names)) by {
                        assert forall|i: int, j: int| 0 <= i < j < names.len() implies names[i]
                            != names[j] by {
                            assert(grown[i] != grown[j]);
                        }
                    }
                    if names.contains(name) {
                        let i = choose|i: int| 0 <= i < names.len() && names[i] == name;
                        assert(grown[i] != grown[names.len() as int]);
                    }
                }
                assert(valid_tokens(init));
            }
            if compile_tokens(tokens) is Ok {
                assert forall|k: int| 0 <= k < tokens.len() implies classify(
                    #[trigger] tokens[k],
                ) is Some by {
                    if k < init.len() {
                        assert(tokens[k] == init[k]);
                    }
                }
                assert forall|k: int| 0 <= k < tokens.len() - 1 implies !(classify(
                    #[trigger] tokens[k],
                ).unwrap() is Wildcard) by {
                    if k < init.len() - 1 {
                        assert(tokens[k] == init[k]);
                    }
                }
                if segment.bound_name() is Some {
                    let name = segment.bound_name().unwrap();
                    let grown = names.push(name);
                    assert forall|i: int, j: int| 0 <= i < j < grown.len() implies grown[i]
                        != grown[j] by {
                        if j == names.len() {
                            assert(names[i] != name);
                        } else {
                            assert(names[i] != names[j]);
                        }
                    }
                }
                assert(valid_tokens(tokens));
            }
        } else {
            if valid_tokens(tokens) {
                assert(classify(tokens[tokens.len() - 1]) is Some);
            }
        }
    }
}

/// The pattern in which every parameter with the name `name` is limited to the
/// class `constraint`.
pub open spec fn constrained(p: Seq<Segment>, name: Seq<u8>, constraint: Constraint) -> Seq<
    Segment,
> {
    Seq::new(
        p.len(),
        |i: int|
            match p[i] {
                Segment::Param(n, c) => if n == name {
                    Segment::Param(n, Some(constraint))
                } else {
                    p[i]
                },
                _ => p[i],
            },
    )
}

/// A constraint leaves the names of a pattern, and its being well formed, as
/// they were.
pub proof fn lemma_constrained_well_formed(p: Seq<Segment>, name: Seq<u8>, constraint: Constraint)
    ensures
        bound_names(constrained(p, name, constraint)) == bound_names(p),
        well_formed(p) ==> well_formed(constrained(p, name, constraint)),
    decreases p.len(),
{
    let c = constrained(p, name, constraint);
    if p.len() > 0 {
        lemma_constrained_well_formed(p.drop_last(), name, constraint);
        assert(c.drop_last() =~= constrained(p.drop_last(), name, constraint));
        assert(c.last().bound_name() == p.last().bound_name());
    }
    if well_formed(p) {
        assert forall|i: int| 0 <= i < c.len() implies (#[trigger] c[i]).well_formed() by {
            assert(p[i].well_formed());
        }
        assert forall|i: int| 0 <= i < c.len() - 1 implies !((#[trigger] c[i]) is Wildcard) by {
            assert(!(p[i] is Wildcard));
        }
    }
}

/// A compiled route, as a mathematical value.
pub struct Route {
    pub route_id: u64,
    pub segments: Seq<Segment>,
}

/// A compiled route: its identifier, its segments, and the names it binds in
/// the order of their segments. It is made by the compiler and not changed
/// afterwards.
#[derive(Debug)]
pub struct CompiledRoute {
    route_id: u64,
    segments: Vec<SegmentDescriptor>,
    param_names: Vec<Vec<u8>>,
}

impl View for CompiledRoute {
    type V = Route;

    closed spec fn view(&self) -> Route {
        Route { route_id: self.route_id, segments: segments_of(self.segments@) }
    }
}

impl CompiledRoute {
    #[verifier::type_invariant]
    closed spec fn valid(&self) -> bool {
        &&& well_formed(segments_of(self.segments@))
        &&& views(self.param_names@) == bound_names(segments_of(self.segments@))
    }

    /// The identifier of the route.
    pub fn route_id(&self) -> (id: u64)
        ensures
            id == self@.route_id,
    {
        self.route_id
    }

    /// The segments of the pattern. They form a well-formed pattern.
    pub fn segments(&self) -> (segments: &Vec<SegmentDescriptor>)
        ensures
            segments_of(segments@) == self@.segments,
            well_formed(self@.segments),
    {
        proof {
            use_type_invariant(self);
        }
        &self.segments
    }

    /// The names that the pattern binds, in the order of their segments.
    pub fn param_names(&self) -> (names: &Vec<Vec<u8>>)
        ensures
            views(names@) == bound_names(self@.segments),
            distinct(views(names@)),
    {
        proof {
            use_type_invariant(self);
        }
        &self.param_names
    }

    /// The route with every parameter named `name` limited to the class
    /// `constraint`. A route that has no parameter of that name comes back as
    /// it is.
    pub fn constrain(self, name: &[u8], constraint: Constraint) -> (out: CompiledRoute)
        ensures
            out@ == (Route {
                route_id: self@.route_id,
                segments: constrained(self@.segments, name@, constraint),
            }),
            well_formed(out@.segments),
    {
        proof {
            use_type_invariant(&self);
        }
        let ghost p = self@.segments;
        let ghost goal = constrained(p, name@, constraint);
        let CompiledRoute { route_id, segments, param_names } = self;
        let mut limited: Vec<SegmentDescriptor> = Vec::new();
        let mut i: usize = 0;
        while i < segments.len()
            invariant
                i <= segments.len(),
                p == segments_of(segments@),
                goal == constrained(p, name@, constraint),
                limited@.len() == i,
                forall|j: int| 0 <= j < i ==> (#[trigger] limited@[j])@ == goal[j],
            decreases segments.len() - i,
        {
            let next = match &segments[i] {
                SegmentDescriptor::Param(n, _) => {
                    if bytes_eq(n.as_slice(), name) {
                        SegmentDescriptor::Param(copy_bytes(n.as_slice()), Some(constraint))
                    } else {
                        segments[i].duplicate()
                    }
                },
                _ => segments[i].duplicate(),
            };
            assert(next@ == goal[i as int]);
            limited.push(next);
            i += 1;
        }
        proof {
            assert(segments_of(limited@) =~= goal);
            lemma_constrained_well_formed(p, name@, constraint);
        }
        CompiledRoute { route_id, segments: limited, param_names }
    }
}

/// The segment that a token stands for, if it stands for one.
pub fn classify_token(token: &[u8]) -> (out: Option<SegmentDescriptor>)
    ensures
        match classify(token@) {
            Some(segment) => out is Some && out.unwrap()@ == segment,
            None => out is None,
        },
{
    if token.len() == 0 {
        return None;
    }
    let first: u8 = token[0];
    if first == PARAM_MARK || first == WILDCARD_MARK {
        let name = copy_bytes(slice_subrange(token, 1, token.len()));
        assert(token@.subrange(1, token@.len() as int) == token@.skip(1));
        if !check_identifier(name.as_slice()) {
            return None;
        }
        if first == PARAM_MARK {
            Some(SegmentDescriptor::Param(name, None))
        } else {
            Some(SegmentDescriptor::Wildcard(name))
        }
    } else {
        Some(SegmentDescriptor::Literal(copy_bytes(token)))
    }
}

/// Compiles the pattern `pattern` into a route with the identifier
/// `route_id`.
pub fn compile_bytes(pattern: &[u8], route_id: u64) -> (out: Result<CompiledRoute, CompileError>)
    ensures
        match compile_spec(pattern@) {
            Ok(segments) => out is Ok && out.unwrap()@ == (Route { route_id, segments }),
            Err(e) => out is Err && out.unwrap_err() == e,
        },
        out is Ok ==> well_formed(out.unwrap()@.segments),
{
    if pattern.len() == 0 || pattern[0] != SLASH {
        return Err(CompileError::InvalidSyntax);
    }
    let mut segments: Vec<SegmentDescriptor> = Vec::new();
    let mut names: Vec<Vec<u8>> = Vec::new();
    if pattern.len() == 1 {
        assert(segments_of(segments@) == Seq::<Segment>::empty());
        assert(views(names@) == Seq::<Seq<u8>>::empty());
        return Ok(CompiledRoute { route_id, segments, param_names: names });
    }
    let body = slice_subrange(pattern, 1, pattern.len());
    assert(pattern@.subrange(1, pattern@.len() as int) == pattern@.skip(1));
    let tokens = split_bytes(body, SLASH);
    let ghost all = views(tokens@);
    proof {
        lemma_split_pieces_lack_sep(pattern@.skip(1), SLASH);
    }
    let mut closed_by_wildcard = false;
    let mut i: usize = 0;
    proof {
        assert(all.take(0) == Seq::<Seq<u8>>::empty());
        assert(segments_of(segments@) == Seq::<Segment>::empty());
        assert(views(names@) == Seq::<Seq<u8>>::empty());
    }
    while i < tokens.len()
        invariant
            i <= tokens.len(),
            all == views(tokens@),
            pattern@.len() > 1,
            pattern@[0] == SLASH,
            all == split(pattern@.skip(1), SLASH),
            forall|k: int, j: int|
                0 <= k < all.len() && 0 <= j < all[k].len() ==> all[k][j] != SLASH,
            compile_tokens(all.take(i as int)) == Ok::<Seq<Segment>, CompileError>(
                segments_of(segments@),
            ),
            views(names@) == bound_names(segments_of(segments@)),
            closed_by_wildcard == (segments@.len() > 0 && segments@.last()@ is Wildcard),
        decreases tokens.len() - i,
    {
        let ghost before = segments_of(segments@);
        proof {
            assert(all.take(i + 1).drop_last() == all.take(i as int));
            assert(all.take(i + 1).last() == tokens@[i as int]@);
            if segments@.len() > 0 {
                assert(before.last() == segments@.last()@);
            }
        }
        let found = classify_token(tokens[i].as_slice());
        match found {
            None => {
                proof {
                    lemma_compile_error_stays(all, i + 1);
                }
                return Err(CompileError::InvalidSyntax);
            },
            Some(segment) => {
                if closed_by_wildcard {
                    proof {
                        lemma_compile_error_stays(all, i + 1);
                    }
                    return Err(CompileError::WildcardNotLast);
                }
                let ghost names_before = names@;
                match segment.name() {
                    Some(name) => {
                        if contains_name(&names, name.as_slice()) {
                            proof {
                                let k = choose|k: int|
                                    0 <= k < names@.len() && (#[trigger] names@[k])@ == name@;
                                assert(views(names@)[k] == name@);
                                lemma_compile_error_stays(all, i + 1);
                            }
                            return Err(CompileError::DuplicateParam);
                        }
                        names.push(copy_bytes(name.as_slice()));
                    },
                    None => {},
                }
                proof {
                    if segment@.bound_name() is Some {
                        let name = segment@.bound_name().unwrap();
                        if bound_names(before).contains(name) {
                            let k = choose|k: int|
                                0 <= k < bound_names(before).len() && bound_names(before)[k]
                                    == name;
                            assert(views(names_before)[k] == names_before[k]@);
                        }
                    }
                }
                closed_by_wildcard = segment.is_wildcard();
                segments.push(segment);
                proof {
                    let after = segments_of(segments@);
                    assert(after == before.push(segment@));
                    assert(after.drop_last() == before);
                    assert(views(names@) == bound_names(after)) by {
                        if segment@.bound_name() is Some {
                            assert(names@ == names_before.push(names@.last()));
                            assert(views(names@) == bound_names(before).push(
                                segment@.bound_name().unwrap(),
                            ));
                        }
                    }
                }
            },
        }
        i += 1;
    }
    proof {
        assert(all.take(tokens.len() as int) == all);
        lemma_compiled_well_formed(all);
    }
    Ok(CompiledRoute { route_id, segments, param_names: names })
}

/// Compiles the pattern `pattern` into a route with the identifier
/// `route_id`. The pattern is read as its UTF-8 bytes.
pub fn compile_path(pattern: &str, route_id: u64) -> (out: Result<CompiledRoute, CompileError>)
    ensures
        match compile_spec(pattern.spec_bytes()) {
            Ok(segments) => out is Ok && out.unwrap()@ == (Route { route_id, segments }),
            Err(e) => out is Err && out.unwrap_err() == e,
        },
        out is Ok ==> well_formed(out.unwrap()@.segments),
{
    compile_bytes(pattern.as_bytes(), route_id)
}

} // verus!
