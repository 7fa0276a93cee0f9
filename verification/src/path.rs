//! Request paths: cutting a path into segments and percent-decoding them.

use vstd::prelude::*;
use vstd::slice::slice_subrange;
use crate::bytes::{split, split_bytes, views, SLASH};

verus! {

/// The byte `%`, which opens an escape of two hexadecimal digits.
pub const PERCENT: u8 = 37;

/// What to make of a `/` at the end of a path that is not the path `/`.
#[derive(Clone, Copy, Debug, PartialEq, Eq, Structural)]
pub enum TrailingSlash {
    /// One `/` at the end is dropped before the path is cut into segments.
    Ignore,
    /// A `/` at the end is followed by an empty segment, so the path matches
    /// nothing.
    Strict,
}

/// The value of a hexadecimal digit.
pub open spec fn hex_value(b: u8) -> Option<u8> {
    if 48 <= b <= 57 {
        Some((b - 48) as u8)
    } else if 65 <= b <= 70 {
        Some((b - 55) as u8)
    } else if 97 <= b <= 102 {
        Some((b - 87) as u8)
    } else {
        None
    }
}

/// The decoding of `s` from index `i` on: a `%` and two hexadecimal digits
/// stand for the byte with that value, any other byte for itself. A `%` that
/// is not followed by two hexadecimal digits has no decoding.
pub open spec fn decode_from(s: Seq<u8>, i: int) -> Option<Seq<u8>>
    decreases s.len() - i,
{
    if i < 0 || i >= s.len() {
        Some(Seq::empty())
    } else if s[i] != PERCENT {
        match decode_from(s, i + 1) {
            Some(rest) => Some(seq![s[i]] + rest),
            None => None,
        }
    } else if i + 2 < s.len() && hex_value(s[i + 1]) is Some && hex_value(s[i + 2]) is Some {
        match decode_from(s, i + 3) {
            Some(rest) => Some(
                seq![(16 * hex_value(s[i + 1]).unwrap() + hex_value(s[i + 2]).unwrap()) as u8]
                    + rest,
            ),
            None => None,
        }
    } else {
        None
    }
}

/// The percent-decoding of `s`, if every `%` in it opens a well-formed escape.
pub open spec fn percent_decode(s: Seq<u8>) -> Option<Seq<u8>> {
    decode_from(s, 0)
}

/// The segments of a path as they are written, before decoding. The empty path
/// and the path `/` have none. Any other path starts with `/` and is cut at
/// each `/` after the first byte, once a `/` at its end has been dropped where
/// the policy says so.
pub open spec fn raw_segments(path: Seq<u8>, policy: TrailingSlash) -> Option<Seq<Seq<u8>>> {
    if path.len() == 0 {
        Some(Seq::empty())
    } else if path[0] != SLASH {
        None
    } else if path.len() == 1 {
        Some(Seq::empty())
    } else {
        let body = path.skip(1);
        if policy == TrailingSlash::Ignore && body.last() == SLASH {
            Some(split(body.drop_last(), SLASH))
        } else {
            Some(split(body, SLASH))
        }
    }
}

/// Whether every raw segment is non-empty and can be decoded.
pub open spec fn all_decodable(raw: Seq<Seq<u8>>) -> bool {
    forall|i: int|
        0 <= i < raw.len() ==> (#[trigger] raw[i]).len() > 0 && percent_decode(raw[i]) is Some
}

/// The decoded segments, if every raw segment is non-empty and can be decoded.
pub open spec fn decode_all(raw: Seq<Seq<u8>>) -> Option<Seq<Seq<u8>>> {
    if all_decodable(raw) {
        Some(Seq::new(raw.len(), |i: int| percent_decode(raw[i]).unwrap()))
    } else {
        None
    }
}

/// The decoded segments of a path, or `None` where the path does not start
/// with `/`, holds an empty segment, or holds a malformed escape.
pub open spec fn normalize(path: Seq<u8>, policy: TrailingSlash) -> Option<Seq<Seq<u8>>> {
    match raw_segments(path, policy) {
        Some(raw) => decode_all(raw),
        None => None,
    }
}

/// A byte string without `%` decodes to itself.
pub proof fn lemma_decode_plain(s: Seq<u8>)
    requires
        forall|j: int| 0 <= j < s.len() ==> s[j] != PERCENT,
    ensures
        percent_decode(s) == Some(s),
{
    lemma_decode_plain_from(s, 0);
    assert(s.skip(0) == s);
}

/// A byte string without `%` decodes, from any index on, to what it holds
/// from there on.
pub proof fn lemma_decode_plain_from(s: Seq<u8>, i: int)
    requires
        0 <= i <= s.len(),
        forall|j: int| 0 <= j < s.len() ==> s[j] != PERCENT,
    ensures
        decode_from(s, i) == Some(s.skip(i)),
    decreases s.len() - i,
{
    if i < s.len() {
        lemma_decode_plain_from(s, i + 1);
        assert(seq![s[i]] + s.skip(i + 1) == s.skip(i));
    } else {
        assert(s.skip(i) == Seq::<u8>::empty());
    }
}

/// The value of a hexadecimal digit.
pub fn hex_digit(b: u8) -> (out: Option<u8>)
    ensures
        out == hex_value(b),
{
    if 48 <= b && b <= 57 {
        Some(b - 48)
    } else if 65 <= b && b <= 70 {
        Some(b - 55)
    } else if 97 <= b && b <= 102 {
        Some(b - 87)
    } else {
        None
    }
}

/// The percent-decoding of `s`, if it has one.
pub fn decode_segment(s: &[u8]) -> (out: Option<Vec<u8>>)
    ensures
        match percent_decode(s@) {
            Some(decoded) => out is Some && out.unwrap()@ == decoded,
            None => out is None,
        },
{
    let mut decoded: Vec<u8> = Vec::new();
    let mut i: usize = 0;
    while i < s.len()
        invariant
            i <= s.len(),
            percent_decode(s@) == (match decode_from(s@, i as int) {
                Some(rest) => Some(decoded@ + rest),
                None => None,
            }),
        decreases s.len() - i,
    {
        let b: u8 = s[i];
        if b != PERCENT {
            proof {
                let rest = decode_from(s@, i + 1);
                if rest is Some {
                    assert(decoded@.push(b) + rest.unwrap() == decoded@ + (seq![b]
                        + rest.unwrap()));
                }
            }
            decoded.push(b);
            i += 1;
        } else {
            if s.len() - i < 3 {
                return None;
            }
            let high = hex_digit(s[i + 1]);
            let low = hex_digit(s[i + 2]);
            match (high, low) {
                (Some(h), Some(l)) => {
                    let value: u8 = h * 16 + l;
                    proof {
                        let rest = decode_from(s@, i + 3);
                        if rest is Some {
                            assert(decoded@.push(value) + rest.unwrap() == decoded@ + (seq![value]
                                + rest.unwrap()));
                        }
                    }
                    decoded.push(value);
                    i += 3;
                },
                _ => {
                    return None;
                },
            }
        }
    }
    assert(decoded@ + Seq::<u8>::empty() == decoded@);
    Some(decoded)
}

/// The decoded segments of a path, if it has them.
pub fn normalize_path(path: &[u8], policy: TrailingSlash) -> (out: Option<Vec<Vec<u8>>>)
    ensures
        match normalize(path@, policy) {
            Some(segs) => out is Some && views(out.unwrap()@) == segs,
            None => out is None,
        },
{
    let mut segs: Vec<Vec<u8>> = Vec::new();
    if path.len() == 0 {
        assert(views(segs@) == Seq::<Seq<u8>>::empty());
        assert(decode_all(Seq::<Seq<u8>>::empty()) == Some(Seq::<Seq<u8>>::empty()));
        return Some(segs);
    }
    if path[0] != SLASH {
        return None;
    }
    if path.len() == 1 {
        assert(views(segs@) == Seq::<Seq<u8>>::empty());
        assert(decode_all(Seq::<Seq<u8>>::empty()) == Some(Seq::<Seq<u8>>::empty()));
        return Some(segs);
    }
    let mut end: usize = path.len();
    if policy == TrailingSlash::Ignore && path[end - 1] == SLASH {
        end = end - 1;
    }
    let body = slice_subrange(path, 1, end);
    proof {
        let whole = path@.skip(1);
        assert(whole.last() == path@[path@.len() - 1]);
        if end == path.len() {
            assert(body@ == whole);
        } else {
            assert(body@ == whole.drop_last());
        }
    }
    let raw = split_bytes(body, SLASH);
    let ghost raw_view = views(raw@);
    let mut i: usize = 0;
    while i < raw.len()
        invariant
            i <= raw.len(),
            raw_view == views(raw@),
            raw_segments(path@, policy) == Some(raw_view),
            segs@.len() == i,
            forall|j: int|
                0 <= j < i ==> (#[trigger] raw_view[j]).len() > 0 && percent_decode(raw_view[j])
                    == Some(segs@[j]@),
        decreases raw.len() - i,
    {
        if raw[i].len() == 0 {
            assert(raw_view[i as int].len() == 0);
            return None;
        }
        match decode_segment(raw[i].as_slice()) {
            Some(decoded) => {
                segs.push(decoded);
            },
            None => {
                assert(percent_decode(raw_view[i as int]) is None);
                return None;
            },
        }
        i += 1;
    }
    assert(views(segs@) == Seq::new(raw_view.len(), |i: int| percent_decode(raw_view[i]).unwrap()));
    Some(segs)
}

} // verus!
