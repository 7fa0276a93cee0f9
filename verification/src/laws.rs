//! Laws of the compiler, the tree and the match engine, proved from their
//! contracts.

use vstd::prelude::*;
use crate::bytes::{
    join, lemma_join_end, lemma_join_split, lemma_split_adjacent, lemma_split_concat,
    lemma_split_join, lemma_split_keeps_out, lemma_split_leading, lemma_split_len,
    lemma_split_pieces_lack_sep, lemma_split_trailing, split, SLASH,
};
use crate::compiler::{
    compile_spec, compile_tokens, lemma_compiled_well_formed, lemma_valid_tokens_compile,
    syntactically_valid, token_segments,
};
use crate::error::CompileError;
use crate::matcher::{match_spec, outcome_of, pairs, MatchResult};
use crate::path::{
    all_decodable, decode_all, lemma_decode_plain, normalize, percent_decode, raw_segments,
    TrailingSlash, PERCENT,
};
use crate::pattern::{
    best_route, bound_names, captures, clash, conflicting, conflicts_with, is_best,
    lemma_best_is_chosen, lemma_prefers_one_way, prefers,
    lemma_bound_names_front, lemma_matches_empty, lemma_matches_step, lemma_no_match,
    pattern_matches, well_formed,
    MatchOutcome,
};
use crate::segment::{constraint_holds, Segment};
use crate::tree::insertion_result;

verus! {

/// Whether the byte `b` does not occur in `s`.
pub open spec fn lacks(s: Seq<u8>, b: u8) -> bool {
    forall|j: int| 0 <= j < s.len() ==> s[j] != b
}

/// What stands in the place of a segment when a path is written from a
/// pattern: the bytes of a literal, or the value that `env` gives to the name.
pub open spec fn piece(segment: Segment, env: Map<Seq<u8>, Seq<u8>>) -> Seq<u8> {
    match segment {
        Segment::Literal(bytes) => bytes,
        Segment::Param(name, _) => env[name],
        Segment::Wildcard(name) => env[name],
    }
}

/// What stands in the place of each segment of the pattern.
pub open spec fn pieces(p: Seq<Segment>, env: Map<Seq<u8>, Seq<u8>>) -> Seq<Seq<u8>> {
    Seq::new(p.len(), |i: int| piece(p[i], env))
}

/// The path written from the pattern: a `/`, and then the literals and the
/// values with `/` between them.
pub open spec fn instance(p: Seq<Segment>, env: Map<Seq<u8>, Seq<u8>>) -> Seq<u8> {
    seq![SLASH] + join(pieces(p, env), SLASH)
}

/// The names of the pattern, each with the value that `env` gives to it.
pub open spec fn bindings(p: Seq<Segment>, env: Map<Seq<u8>, Seq<u8>>) -> Seq<(Seq<u8>, Seq<u8>)> {
    Seq::new(bound_names(p).len(), |k: int| (bound_names(p)[k], env[bound_names(p)[k]]))
}

/// Whether a path written with `env` reads back as it was written. A literal
/// holds no `%`. The value of a parameter is not empty, holds no `/` and no
/// `%`, and satisfies the constraint. The value of a wildcard holds no `%`,
/// and no piece of it between two `/` is empty.
pub open spec fn fits_segment(segment: Segment, env: Map<Seq<u8>, Seq<u8>>) -> bool {
    match segment {
        Segment::Literal(bytes) => lacks(bytes, PERCENT),
        Segment::Param(name, constraint) => {
            &&& env.contains_key(name)
            &&& env[name].len() > 0
            &&& lacks(env[name], SLASH)
            &&& lacks(env[name], PERCENT)
            &&& constraint_holds(constraint, env[name])
        },
        Segment::Wildcard(name) => {
            &&& env.contains_key(name)
            &&& lacks(env[name], PERCENT)
            &&& forall|k: int|
                0 <= k < split(env[name], SLASH).len() ==> (#[trigger] split(
                    env[name],
                    SLASH,
                )[k]).len() > 0
        },
    }
}

/// Whether every segment of the pattern fits `env`.
pub open spec fn fits(p: Seq<Segment>, env: Map<Seq<u8>, Seq<u8>>) -> bool {
    forall|i: int| 0 <= i < p.len() ==> fits_segment(#[trigger] p[i], env)
}

/// The segments of the path written from the pattern: what stands in the
/// place of each segment, the value of a wildcard cut at each `/`.
pub open spec fn instance_segments(p: Seq<Segment>, env: Map<Seq<u8>, Seq<u8>>) -> Seq<Seq<u8>> {
    if p.len() > 0 && p.last() is Wildcard {
        pieces(p.drop_last(), env) + split(piece(p.last(), env), SLASH)
    } else {
        pieces(p, env)
    }
}

/// What stands in the place of a segment that fits is not empty, holds no `%`
/// and, unless the segment is a wildcard, no `/`.
proof fn lemma_piece_shape(p: Seq<Segment>, env: Map<Seq<u8>, Seq<u8>>, i: int)
    requires
        well_formed(p),
        fits(p, env),
        0 <= i < p.len(),
    ensures
        piece(p[i], env).len() > 0,
        lacks(piece(p[i], env), PERCENT),
        !(p[i] is Wildcard) ==> lacks(piece(p[i], env), SLASH),
        p[i] is Wildcard ==> piece(p[i], env).last() != SLASH,
{
    assert(p[i].well_formed());
    assert(fits_segment(p[i], env));
    match p[i] {
        Segment::Literal(bytes) => {
            assert forall|j: int| 0 <= j < bytes.len() implies bytes[j] != SLASH by {
                assert(bytes[j] != 47);
            }
        },
        Segment::Param(_, _) => {},
        Segment::Wildcard(name) => {
            let v = env[name];
            lemma_split_len(v, SLASH);
            assert(split(v, SLASH)[0].len() > 0);
            if v.len() > 0 && v.last() == SLASH {
                lemma_split_trailing(v, SLASH);
                assert(split(v, SLASH)[split(v, SLASH).len() - 1].len() > 0);
            }
        },
    }
}

/// The path written from a pattern is cut and decoded into the segments it was
/// written from.
pub proof fn lemma_instance_reads_back(
    p: Seq<Segment>,
    env: Map<Seq<u8>, Seq<u8>>,
    policy: TrailingSlash,
)
    requires
        well_formed(p),
        fits(p, env),
    ensures
        normalize(instance(p, env), policy) == Some(instance_segments(p, env)),
{
    let ps = pieces(p, env);
    let path = instance(p, env);
    let segs = instance_segments(p, env);
    let n = p.len() as int;
    if n == 0 {
        assert(join(ps, SLASH).len() == 0);
        assert(path.len() == 1);
        assert(segs =~= Seq::<Seq<u8>>::empty());
        assert(decode_all(Seq::<Seq<u8>>::empty()) == Some(Seq::<Seq<u8>>::empty()));
    } else {
        lemma_piece_shape(p, env, n - 1);
        assert(ps.last() == piece(p.last(), env));
        lemma_join_end(ps, SLASH);
        let body = path.skip(1);
        assert(body == join(ps, SLASH));
        assert(path[0] == SLASH);
        assert(body.last() != SLASH) by {
            if !(p.last() is Wildcard) {
                assert(ps.last()[ps.last().len() - 1] != SLASH);
            }
        }
        assert(raw_segments(path, policy) == Some(split(body, SLASH)));
        // The body is cut into the segments.
        if p.last() is Wildcard {
            let init = ps.drop_last();
            assert(init == pieces(p.drop_last(), env));
            let v = ps.last();
            if n == 1 {
                assert(init + split(v, SLASH) == split(v, SLASH));
            } else {
                assert forall|k: int, j: int|
                    0 <= k < init.len() && 0 <= j < init[k].len() implies init[k][j] != SLASH by {
                    lemma_piece_shape(p, env, k);
                    assert(!(p[k] is Wildcard));
                }
                lemma_split_join(init, SLASH);
                lemma_split_concat(join(init, SLASH), v, SLASH);
            }
        } else {
            assert forall|k: int, j: int|
                0 <= k < ps.len() && 0 <= j < ps[k].len() implies ps[k][j] != SLASH by {
                lemma_piece_shape(p, env, k);
                if k < n - 1 {
                    assert(!(p[k] is Wildcard));
                }
            }
            lemma_split_join(ps, SLASH);
        }
        assert(split(body, SLASH) == segs);
        // Every segment decodes to itself.
        assert forall|k: int| 0 <= k < segs.len() implies (#[trigger] segs[k]).len() > 0
            && percent_decode(segs[k]) == Some(segs[k]) by {
            if p.last() is Wildcard && k >= n - 1 {
                let v = piece(p.last(), env);
                let parts = split(v, SLASH);
                assert(segs[k] == parts[k - (n - 1)]);
                assert(fits_segment(p[n - 1], env));
                lemma_split_keeps_out(v, SLASH, PERCENT);
                assert(parts[k - (n - 1)].len() > 0);
                lemma_decode_plain(segs[k]);
            } else {
                lemma_piece_shape(p, env, k);
                assert(segs[k] == piece(p[k], env));
                lemma_decode_plain(segs[k]);
            }
        }
        assert(all_decodable(segs));
        assert(decode_all(segs).unwrap() =~= segs);
    }
}

/// A pattern matches the segments of a path written from it.
pub proof fn lemma_instance_matches(p: Seq<Segment>, env: Map<Seq<u8>, Seq<u8>>)
    requires
        well_formed(p),
        fits(p, env),
    ensures
        pattern_matches(p, instance_segments(p, env)),
        instance_segments(p, env).len() >= p.len(),
{
    let segs = instance_segments(p, env);
    let n = p.len() as int;
    if n > 0 && p.last() is Wildcard {
        lemma_split_len(piece(p.last(), env), SLASH);
        assert forall|i: int| 0 <= i < n - 1 implies (#[trigger] p[i]).takes(segs[i]) by {
            assert(!(p[i] is Wildcard));
            assert(fits_segment(p[i], env));
            assert(segs[i] == piece(p[i], env));
        }
    } else {
        assert forall|i: int| 0 <= i < n implies (#[trigger] p[i]).takes(segs[i]) by {
            if i < n - 1 {
                assert(!(p[i] is Wildcard));
            }
            assert(fits_segment(p[i], env));
            assert(segs[i] == piece(p[i], env));
        }
    }
}

/// From any place on, a pattern captures from a path written from it the
/// values that the path was written with.
proof fn lemma_instance_captures(p: Seq<Segment>, env: Map<Seq<u8>, Seq<u8>>, k: int)
    requires
        well_formed(p),
        fits(p, env),
        0 <= k <= p.len(),
    ensures
        captures(p.skip(k), instance_segments(p, env).skip(k)) == bindings(p.skip(k), env),
    decreases p.len() - k,
{
    let segs = instance_segments(p, env);
    let n = p.len() as int;
    let pk = p.skip(k);
    let sk = segs.skip(k);
    lemma_instance_matches(p, env);
    if k == n {
        assert(pk.len() == 0);
        assert(bound_names(pk) == Seq::<Seq<u8>>::empty());
        assert(bindings(pk, env) =~= Seq::<(Seq<u8>, Seq<u8>)>::empty());
    } else {
        lemma_instance_captures(p, env, k + 1);
        lemma_bound_names_front(pk);
        assert(pk[0] == p[k]);
        assert(pk.skip(1) == p.skip(k + 1));
        assert(sk.skip(1) == segs.skip(k + 1));
        assert(sk[0] == segs[k]);
        let rest = bindings(p.skip(k + 1), env);
        match p[k] {
            Segment::Literal(_) => {
                assert(bindings(pk, env) =~= rest);
            },
            Segment::Param(name, _) => {
                assert(segs[k] == piece(p[k], env));
                assert(bindings(pk, env) =~= seq![(name, env[name])] + rest);
            },
            Segment::Wildcard(name) => {
                assert(k == n - 1);
                let v = env[name];
                assert(sk == split(v, SLASH));
                lemma_join_split(v, SLASH);
                assert(bound_names(p.skip(k + 1)) == Seq::<Seq<u8>>::empty());
                assert(bindings(pk, env) =~= seq![(name, v)]);
            },
        }
    }
}

/// What compiles from the text of a pattern is a well-formed pattern.
pub proof fn lemma_compiled_pattern_well_formed(pattern: Seq<u8>)
    requires
        compile_spec(pattern) is Ok,
    ensures
        well_formed(compile_spec(pattern).unwrap()),
{
    if pattern.len() > 1 {
        lemma_split_pieces_lack_sep(pattern.skip(1), SLASH);
        lemma_compiled_well_formed(split(pattern.skip(1), SLASH));
    } else {
        assert(bound_names(Seq::<Segment>::empty()) == Seq::<Seq<u8>>::empty());
    }
}

/// A route matches the paths written from its own pattern. Let `env` give
/// each name of a well-formed pattern a value that fits. A tree that was empty
/// takes the route, and then the path written from the pattern with these
/// values matches the route and captures, under each name, the value that was
/// written in its place.
pub proof fn law_route_matches_its_instances(
    p: Seq<Segment>,
    route_id: u64,
    env: Map<Seq<u8>, Seq<u8>>,
    policy: TrailingSlash,
)
    requires
        well_formed(p),
        fits(p, env),
    ensures
        insertion_result(Map::<Seq<Segment>, u64>::empty(), p) is Ok,
        match_spec(
            Map::<Seq<Segment>, u64>::empty().insert(p, route_id),
            instance(p, env),
            policy,
        ) == Some(MatchOutcome { route_id, params: bindings(p, env) }),
{
    let routes = Map::<Seq<Segment>, u64>::empty().insert(p, route_id);
    lemma_instance_reads_back(p, env, policy);
    lemma_instance_matches(p, env);
    lemma_instance_captures(p, env, 0);
    let segs = instance_segments(p, env);
    assert(p.skip(0) == p);
    assert(segs.skip(0) == segs);
    assert(is_best(routes, p, segs));
    lemma_best_is_chosen(routes, p, segs);
}

/// A pattern that compiles gives a route that matches the paths written from
/// it: the law above holds of the segments that the text of any pattern
/// compiles to.
pub proof fn law_compiled_route_matches_its_instances(
    pattern: Seq<u8>,
    route_id: u64,
    env: Map<Seq<u8>, Seq<u8>>,
    policy: TrailingSlash,
)
    requires
        compile_spec(pattern) is Ok,
        fits(compile_spec(pattern).unwrap(), env),
    ensures
        insertion_result(Map::<Seq<Segment>, u64>::empty(), compile_spec(pattern).unwrap()) is Ok,
        match_spec(
            Map::<Seq<Segment>, u64>::empty().insert(compile_spec(pattern).unwrap(), route_id),
            instance(compile_spec(pattern).unwrap(), env),
            policy,
        ) == Some(
            MatchOutcome { route_id, params: bindings(compile_spec(pattern).unwrap(), env) },
        ),
{
    lemma_compiled_pattern_well_formed(pattern);
    law_route_matches_its_instances(compile_spec(pattern).unwrap(), route_id, env, policy);
}

/// A pattern compiles just when its text is syntactically valid.
pub proof fn law_valid_patterns_compile(pattern: Seq<u8>)
    ensures
        compile_spec(pattern) is Ok <==> syntactically_valid(pattern),
        compile_spec(pattern) is Ok && pattern.len() > 1 ==> compile_spec(pattern).unwrap()
            == token_segments(split(pattern.skip(1), SLASH)),
{
    if pattern.len() > 1 {
        lemma_valid_tokens_compile(split(pattern.skip(1), SLASH));
    }
}

/// A route that is preferred to another never loses to it: where both match a
/// path, the other is not the best route.
pub proof fn law_preferred_route_wins(
    routes: Map<Seq<Segment>, u64>,
    segs: Seq<Seq<u8>>,
    p: Seq<Segment>,
    q: Seq<Segment>,
)
    requires
        routes.contains_key(p),
        pattern_matches(p, segs),
        prefers(p, q),
    ensures
        best_route(routes, segs) != Some(q),
{
    if best_route(routes, segs) == Some(q) {
        assert(is_best(routes, q, segs));
        lemma_prefers_one_way(p, q);
        assert(p != q);
        assert(routes.contains_key(p));
    }
}

/// The first place at or after `k` where two different patterns part: they
/// agree before it, and there one of them ends or their segments differ.
proof fn lemma_parting(p: Seq<Segment>, q: Seq<Segment>, k: int) -> (i: int)
    requires
        p != q,
        0 <= k <= p.len(),
        k <= q.len(),
        p.take(k) == q.take(k),
    ensures
        k <= i <= p.len(),
        i <= q.len(),
        p.take(i) == q.take(i),
        i < p.len() || i < q.len(),
        i < p.len() && i < q.len() ==> p[i] != q[i],
    decreases p.len() - k,
{
    if k == p.len() || k == q.len() {
        if k == p.len() && k == q.len() {
            assert(p.take(k) == p);
            assert(q.take(k) == q);
        }
        k
    } else if p[k] != q[k] {
        k
    } else {
        let ph = p.take(k + 1);
        let qh = q.take(k + 1);
        assert(ph == qh) by {
            assert forall|j: int| 0 <= j < k + 1 implies #[trigger] ph[j] == qh[j] by {
                if j < k {
                    assert(p.take(k)[j] == p[j]);
                    assert(q.take(k)[j] == q[j]);
                }
            }
        }
        lemma_parting(p, q, k + 1)
    }
}

/// A pattern that matches a path is not the beginning of a longer pattern
/// that matches it.
proof fn lemma_no_match_goes_on(p: Seq<Segment>, q: Seq<Segment>, segs: Seq<Seq<u8>>)
    requires
        p.len() < q.len(),
        q.take(p.len() as int) == p,
        pattern_matches(p, segs),
    ensures
        !pattern_matches(q, segs),
{
    if pattern_matches(q, segs) {
        let n = p.len() as int;
        if n > 0 && p.last() is Wildcard {
            assert(q.take(n)[n - 1] == q[n - 1]);
            assert(q[n - 1].takes(segs[n - 1]));
        }
    }
}

/// The order of preference is total: of two different routes that match the
/// same path and do not conflict, one is preferred to the other.
pub proof fn law_preference_is_total(p: Seq<Segment>, q: Seq<Segment>, segs: Seq<Seq<u8>>)
    requires
        p != q,
        pattern_matches(p, segs),
        pattern_matches(q, segs),
        !conflicts_with(p, q),
    ensures
        prefers(p, q) || prefers(q, p),
{
    assert(p.take(0) =~= q.take(0));
    let i = lemma_parting(p, q, 0);
    if i == p.len() {
        assert(p.take(i) =~= p);
        lemma_no_match_goes_on(p, q, segs);
    } else if i == q.len() {
        assert(q.take(i) =~= q);
        lemma_no_match_goes_on(q, p, segs);
    } else {
        if p[i].rank() == q[i].rank() {
            if p[i] is Literal {
                assert(p[i].takes(segs[i]));
                assert(q[i].takes(segs[i]));
            } else {
                assert(clash(p[i], q[i]));
            }
        } else if p[i].rank() > q[i].rank() {
            assert(q.take(i) == p.take(i));
        }
    }
}

/// The bindings of a match follow the names of the pattern: a well-formed
/// pattern that matches a path captures one value for each name it binds, in
/// the order of the names.
pub proof fn law_captures_follow_names(p: Seq<Segment>, segs: Seq<Seq<u8>>)
    requires
        well_formed(p),
        pattern_matches(p, segs),
    ensures
        captures(p, segs).len() == bound_names(p).len(),
        forall|k: int|
            0 <= k < bound_names(p).len() ==> (#[trigger] captures(p, segs)[k]).0 == bound_names(
                p,
            )[k],
    decreases p.len(),
{
    if p.len() == 0 {
        assert(bound_names(p) == Seq::<Seq<u8>>::empty());
    } else {
        lemma_matches_empty(p, segs);
        lemma_matches_step(p, segs);
        lemma_bound_names_front(p);
        let rest = p.skip(1);
        if p[0] is Wildcard {
            assert(rest.len() == 0);
            assert(bound_names(rest) == Seq::<Seq<u8>>::empty());
        } else {
            assert(well_formed(rest)) by {
                assert forall|i: int| 0 <= i < rest.len() implies (
                #[trigger] rest[i]).well_formed() by {
                    assert(p[i + 1].well_formed());
                }
                assert forall|i: int| 0 <= i < rest.len() - 1 implies !((#[trigger] rest[i])
                    is Wildcard) by {
                    assert(!(p[i + 1] is Wildcard));
                }
                let names = bound_names(p);
                let tail = bound_names(rest);
                let shift = names.len() - tail.len();
                assert forall|i: int, j: int| 0 <= i < j < tail.len() implies tail[i]
                    != tail[j] by {
                    assert(names[i + shift] == tail[i]);
                    assert(names[j + shift] == tail[j]);
                }
            }
            law_captures_follow_names(rest, segs.skip(1));
            let below = captures(rest, segs.skip(1));
            assert forall|k: int| 0 <= k < bound_names(p).len() implies (#[trigger] captures(
                p,
                segs,
            )[k]).0 == bound_names(p)[k] by {
                if p[0] is Param {
                    if k > 0 {
                        assert(captures(p, segs)[k] == below[k - 1]);
                    }
                } else {
                    assert(captures(p, segs)[k] == below[k]);
                }
            }
        }
    }
}

/// Matching is a function of the routes, the path and the policy: two answers
/// to the same question name the same route and hold the same bindings, byte
/// for byte.
pub proof fn law_match_repeats(
    routes: Map<Seq<Segment>, u64>,
    path: Seq<u8>,
    policy: TrailingSlash,
    first: Option<MatchResult>,
    second: Option<MatchResult>,
)
    requires
        outcome_of(first) == match_spec(routes, path, policy),
        outcome_of(second) == match_spec(routes, path, policy),
    ensures
        first is Some <==> second is Some,
        first is Some ==> {
            &&& first.unwrap().route_id == second.unwrap().route_id
            &&& first.unwrap().params@.len() == second.unwrap().params@.len()
            &&& forall|i: int|
                0 <= i < first.unwrap().params@.len() ==> {
                    &&& (#[trigger] first.unwrap().params@[i]).0@ == second.unwrap().params@[i].0@
                    &&& first.unwrap().params@[i].1@ == second.unwrap().params@[i].1@
                }
        },
{
    if first is Some {
        let a = first.unwrap();
        let b = second.unwrap();
        assert(a@ == b@);
        assert(pairs(a.params@).len() == pairs(b.params@).len());
        assert forall|i: int| 0 <= i < a.params@.len() implies {
            &&& (#[trigger] a.params@[i]).0@ == b.params@[i].0@
            &&& a.params@[i].1@ == b.params@[i].1@
        } by {
            assert(pairs(a.params@)[i] == pairs(b.params@)[i]);
        }
    }
}

/// A `/` at the end of a path is of no account where the policy is to ignore
/// it: a path that is not the path `/` and does not end with `/` is matched
/// alike with and without a `/` after it.
pub proof fn law_trailing_slash_is_ignored(routes: Map<Seq<Segment>, u64>, path: Seq<u8>)
    requires
        path.len() == 0 || (path.len() > 1 && path.last() != SLASH),
    ensures
        match_spec(routes, path.push(SLASH), TrailingSlash::Ignore) == match_spec(
            routes,
            path,
            TrailingSlash::Ignore,
        ),
{
    let longer = path.push(SLASH);
    if path.len() == 0 {
        assert(longer.len() == 1);
    } else {
        assert(longer[0] == path[0]);
        if path[0] == SLASH {
            let body = path.skip(1);
            assert(longer.skip(1) == body.push(SLASH));
            assert(body.push(SLASH).drop_last() == body);
            assert(body.last() == path.last());
        }
    }
}

/// Where the policy is strict, a path that ends with `/` and is not the path
/// `/` matches nothing.
pub proof fn law_strict_refuses_trailing_slash(routes: Map<Seq<Segment>, u64>, path: Seq<u8>)
    requires
        path.len() > 1,
        path.last() == SLASH,
    ensures
        match_spec(routes, path, TrailingSlash::Strict) is None,
{
    if path[0] == SLASH {
        let body = path.skip(1);
        assert(body.last() == path.last());
        lemma_split_trailing(body, SLASH);
        lemma_split_len(body, SLASH);
        let raw = split(body, SLASH);
        assert(raw[raw.len() - 1].len() == 0);
        assert(!all_decodable(raw));
    }
}

/// The path `/` and the empty path belong to the route without segments, and
/// to no other: they match just when the routes hold that route, and then
/// with its identifier and no bindings.
pub proof fn law_root_path(routes: Map<Seq<Segment>, u64>, policy: TrailingSlash)
    ensures
        match_spec(routes, seq![SLASH], policy) == match_spec(routes, Seq::empty(), policy),
        match_spec(routes, seq![SLASH], policy) == (if routes.contains_key(Seq::empty()) {
            Some(MatchOutcome { route_id: routes[Seq::empty()], params: Seq::empty() })
        } else {
            None
        }),
{
    let none = Seq::<Seq<u8>>::empty();
    let root = Seq::<Segment>::empty();
    assert(decode_all(none) == Some(none));
    assert(normalize(seq![SLASH], policy) == Some(none));
    assert(normalize(Seq::<u8>::empty(), policy) == Some(none));
    assert forall|q: Seq<Segment>| pattern_matches(q, none) implies q == root by {
        lemma_matches_empty(q, none);
        assert(q =~= root);
    }
    if routes.contains_key(root) {
        assert(is_best(routes, root, none));
        lemma_best_is_chosen(routes, root, none);
    } else {
        lemma_no_match(routes, none);
    }
}

/// Only the pattern `/` compiles to the route without segments.
pub proof fn law_root_pattern(pattern: Seq<u8>)
    ensures
        compile_spec(pattern) == Ok::<Seq<Segment>, CompileError>(Seq::empty()) <==> pattern
            == seq![SLASH],
{
    if pattern == seq![SLASH] {
        assert(pattern.len() == 1);
    }
    if compile_spec(pattern) == Ok::<Seq<Segment>, CompileError>(Seq::empty()) {
        if pattern.len() > 1 {
            lemma_split_pieces_lack_sep(pattern.skip(1), SLASH);
            lemma_compiled_well_formed(split(pattern.skip(1), SLASH));
            lemma_split_len(pattern.skip(1), SLASH);
        }
        assert(pattern =~= seq![SLASH]);
    }
}

/// Tokens of which one is empty do not compile.
pub proof fn lemma_empty_token_fails(tokens: Seq<Seq<u8>>, k: int)
    requires
        0 <= k < tokens.len(),
        tokens[k].len() == 0,
    ensures
        compile_tokens(tokens) is Err,
    decreases tokens.len(),
{
    if k < tokens.len() - 1 {
        lemma_empty_token_fails(tokens.drop_last(), k);
    }
}

/// A pattern with an empty segment is rejected: where a token of the pattern
/// is empty, the pattern does not compile.
pub proof fn law_empty_segment_is_rejected(pattern: Seq<u8>, k: int)
    requires
        pattern.len() > 1,
        0 <= k < split(pattern.skip(1), SLASH).len(),
        split(pattern.skip(1), SLASH)[k].len() == 0,
    ensures
        compile_spec(pattern) is Err,
{
    lemma_empty_token_fails(split(pattern.skip(1), SLASH), k);
}

/// A pattern in which two `/` touch is rejected.
pub proof fn law_double_slash_is_rejected(pattern: Seq<u8>, i: int)
    requires
        0 <= i,
        i + 1 < pattern.len(),
        pattern[i] == SLASH,
        pattern[i + 1] == SLASH,
    ensures
        compile_spec(pattern) is Err,
{
    if pattern[0] == SLASH {
        let body = pattern.skip(1);
        if i == 0 {
            lemma_split_leading(body, SLASH);
            law_empty_segment_is_rejected(pattern, 0);
        } else {
            let k = lemma_split_adjacent(body, SLASH, i - 1);
            law_empty_segment_is_rejected(pattern, k);
        }
    }
}

/// To conflict is mutual.
pub proof fn lemma_conflict_is_mutual(p: Seq<Segment>, q: Seq<Segment>)
    ensures
        conflicts_with(p, q) == conflicts_with(q, p),
{
    if conflicts_with(p, q) {
        let i = choose|i: int|
            0 <= i < p.len() && i < q.len() && #[trigger] p.take(i) == q.take(i) && clash(
                p[i],
                q[i],
            );
        assert(q.take(i) == p.take(i) && clash(q[i], p[i]));
    }
    if conflicts_with(q, p) {
        let i = choose|i: int|
            0 <= i < q.len() && i < p.len() && #[trigger] q.take(i) == p.take(i) && clash(
                q[i],
                p[i],
            );
        assert(p.take(i) == q.take(i) && clash(p[i], q[i]));
    }
}

/// A pattern conflicts with routes to which one was added just when it
/// conflicts with the routes or with the one added.
pub proof fn lemma_conflicting_after_insert(
    routes: Map<Seq<Segment>, u64>,
    added: Seq<Segment>,
    id: u64,
    p: Seq<Segment>,
)
    ensures
        conflicting(routes.insert(added, id), p) == (conflicting(routes, p) || conflicts_with(
            p,
            added,
        )),
{
    let grown = routes.insert(added, id);
    if conflicting(grown, p) {
        let q = choose|q: Seq<Segment>| #[trigger] grown.contains_key(q) && conflicts_with(p, q);
        if q != added {
            assert(routes.contains_key(q));
        }
    }
    if conflicting(routes, p) {
        let q = choose|q: Seq<Segment>| #[trigger] routes.contains_key(q) && conflicts_with(p, q);
        assert(grown.contains_key(q));
    }
    if conflicts_with(p, added) {
        assert(grown.contains_key(added));
    }
}

/// The order of two insertions does not matter: two different patterns are
/// both accepted in one order just when they are in the other, and the routes
/// are then the same, so that every path is matched alike.
pub proof fn law_insertion_order(
    routes: Map<Seq<Segment>, u64>,
    p: Seq<Segment>,
    p_id: u64,
    q: Seq<Segment>,
    q_id: u64,
)
    requires
        p != q,
    ensures
        (insertion_result(routes, p) is Ok && insertion_result(routes.insert(p, p_id), q) is Ok)
            <==> (insertion_result(routes, q) is Ok && insertion_result(
            routes.insert(q, q_id),
            p,
        ) is Ok),
        routes.insert(p, p_id).insert(q, q_id) == routes.insert(q, q_id).insert(p, p_id),
{
    lemma_conflict_is_mutual(p, q);
    lemma_conflicting_after_insert(routes, p, p_id, q);
    lemma_conflicting_after_insert(routes, q, q_id, p);
    assert(routes.insert(p, p_id).insert(q, q_id) =~= routes.insert(q, q_id).insert(p, p_id));
}

} // verus!
