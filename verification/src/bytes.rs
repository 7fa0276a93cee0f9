//! Byte strings: comparing, copying, splitting on a separator and joining.

use vstd::prelude::*;

verus! {

/// The byte `/`, which separates the segments of a pattern and of a path.
pub const SLASH: u8 = 47;

/// The byte strings held by a sequence of vectors.
pub open spec fn views(v: Seq<Vec<u8>>) -> Seq<Seq<u8>> {
    Seq::new(v.len(), |i: int| v[i]@)
}

/// The pieces of `s` between the occurrences of `sep`. There is always at
/// least one piece, and a piece is empty where two separators touch or where
/// `s` starts or ends with one.
pub open spec fn split(s: Seq<u8>, sep: u8) -> Seq<Seq<u8>>
    decreases s.len(),
{
    if s.len() == 0 {
        seq![Seq::<u8>::empty()]
    } else {
        let head = split(s.drop_last(), sep);
        if s.last() == sep {
            head.push(Seq::<u8>::empty())
        } else {
            head.update(head.len() - 1, head.last().push(s.last()))
        }
    }
}

/// The pieces written one after the other with `sep` between neighbours.
pub open spec fn join(parts: Seq<Seq<u8>>, sep: u8) -> Seq<u8>
    decreases parts.len(),
{
    if parts.len() == 0 {
        Seq::<u8>::empty()
    } else if parts.len() == 1 {
        parts[0]
    } else {
        join(parts.drop_last(), sep).push(sep) + parts.last()
    }
}

/// A split yields at least one piece.
pub proof fn lemma_split_len(s: Seq<u8>, sep: u8)
    ensures
        split(s, sep).len() >= 1,
    decreases s.len(),
{
    if s.len() > 0 {
        lemma_split_len(s.drop_last(), sep);
    }
}

/// No piece of a split holds the separator.
pub proof fn lemma_split_pieces_lack_sep(s: Seq<u8>, sep: u8)
    ensures
        forall|k: int, j: int|
            0 <= k < split(s, sep).len() && 0 <= j < split(s, sep)[k].len() ==> split(
                s,
                sep,
            )[k][j] != sep,
    decreases s.len(),
{
    if s.len() > 0 {
        lemma_split_len(s.drop_last(), sep);
        lemma_split_pieces_lack_sep(s.drop_last(), sep);
    }
}

/// Joining the pieces of a split gives the byte string back.
pub proof fn lemma_join_split(s: Seq<u8>, sep: u8)
    ensures
        join(split(s, sep), sep) == s,
    decreases s.len(),
{
    if s.len() > 0 {
        let init = s.drop_last();
        let head = split(init, sep);
        lemma_split_len(init, sep);
        lemma_join_split(init, sep);
        lemma_join_push_byte(head, sep, s.last());
        if s.last() == sep {
            let parts = head.push(Seq::<u8>::empty());
            assert(parts.drop_last() == head);
            assert(join(parts, sep) == init.push(sep));
            assert(init.push(sep) == s);
        } else {
            assert(init.push(s.last()) == s);
        }
    }
}

/// Appending a byte to the last piece appends it to the joined string.
pub proof fn lemma_join_push_byte(parts: Seq<Seq<u8>>, sep: u8, b: u8)
    requires
        parts.len() >= 1,
    ensures
        join(parts.update(parts.len() - 1, parts.last().push(b)), sep) == join(parts, sep).push(b),
{
    let last = parts.last().push(b);
    let grown = parts.update(parts.len() - 1, last);
    if parts.len() == 1 {
        assert(grown[0] == last);
    } else {
        assert(grown.drop_last() == parts.drop_last());
        assert(join(grown, sep) == join(parts.drop_last(), sep).push(sep) + last);
        assert(join(parts.drop_last(), sep).push(sep) + last == (join(parts.drop_last(), sep).push(
            sep,
        ) + parts.last()).push(b));
    }
}

/// Splitting the join of pieces that hold no separator gives the pieces back.
pub proof fn lemma_split_join(parts: Seq<Seq<u8>>, sep: u8)
    requires
        parts.len() >= 1,
        forall|k: int, j: int| 0 <= k < parts.len() && 0 <= j < parts[k].len() ==> parts[k][j] != sep,
    ensures
        split(join(parts, sep), sep) == parts,
    decreases parts.len(),
{
    if parts.len() == 1 {
        lemma_split_plain(parts[0], sep);
        assert(seq![parts[0]] == parts);
    } else {
        let init = parts.drop_last();
        lemma_split_join(init, sep);
        let stem = join(init, sep).push(sep);
        assert(stem.drop_last() == join(init, sep));
        assert(split(stem, sep) == init.push(Seq::<u8>::empty()));
        lemma_split_append_plain(stem, parts.last(), sep);
        assert(init.push(Seq::<u8>::empty()).update(init.len() as int, parts.last()) == parts);
    }
}

/// A byte string without the separator is the one piece of its split.
pub proof fn lemma_split_plain(s: Seq<u8>, sep: u8)
    requires
        forall|j: int| 0 <= j < s.len() ==> s[j] != sep,
    ensures
        split(s, sep) == seq![s],
    decreases s.len(),
{
    if s.len() == 0 {
        assert(s == Seq::<u8>::empty());
    } else {
        lemma_split_plain(s.drop_last(), sep);
        assert(s.drop_last().push(s.last()) == s);
        assert(seq![s.drop_last()].update(0, s) == seq![s]);
    }
}

/// Bytes appended without a separator among them extend the last piece.
pub proof fn lemma_split_append_plain(s: Seq<u8>, t: Seq<u8>, sep: u8)
    requires
        forall|j: int| 0 <= j < t.len() ==> t[j] != sep,
    ensures
        split(s + t, sep) == split(s, sep).update(
            split(s, sep).len() - 1,
            split(s, sep).last() + t,
        ),
    decreases t.len(),
{
    lemma_split_len(s, sep);
    let base = split(s, sep);
    if t.len() == 0 {
        assert(s + t == s);
        assert(base.last() + t == base.last());
        assert(base.update(base.len() - 1, base.last()) == base);
    } else {
        let init = t.drop_last();
        lemma_split_append_plain(s, init, sep);
        assert((s + t).drop_last() == s + init);
        assert((base.last() + init).push(t.last()) == base.last() + t);
        let mid = base.update(base.len() - 1, base.last() + init);
        assert(mid.update(mid.len() - 1, mid.last().push(t.last())) == base.update(
            base.len() - 1,
            base.last() + t,
        ));
    }
}

/// A separator between two byte strings separates their pieces.
pub proof fn lemma_split_concat(a: Seq<u8>, x: Seq<u8>, sep: u8)
    ensures
        split(a.push(sep) + x, sep) == split(a, sep) + split(x, sep),
    decreases x.len(),
{
    lemma_split_len(a, sep);
    if x.len() == 0 {
        assert(a.push(sep) + x == a.push(sep));
        assert(a.push(sep).drop_last() == a);
        assert(split(a, sep).push(Seq::<u8>::empty()) == split(a, sep) + split(x, sep));
    } else {
        let init = x.drop_last();
        lemma_split_concat(a, init, sep);
        lemma_split_len(init, sep);
        assert((a.push(sep) + x).drop_last() == a.push(sep) + init);
        let left = split(a, sep);
        let right = split(init, sep);
        let both = left + right;
        assert(both.last() == right.last());
        if x.last() == sep {
            assert(both.push(Seq::<u8>::empty()) == left + right.push(Seq::<u8>::empty()));
        } else {
            assert(both.update(both.len() - 1, both.last().push(x.last())) == left + right.update(
                right.len() - 1,
                right.last().push(x.last()),
            ));
        }
    }
}

/// A byte that does not occur in a byte string occurs in none of its pieces.
pub proof fn lemma_split_keeps_out(s: Seq<u8>, sep: u8, b: u8)
    requires
        forall|j: int| 0 <= j < s.len() ==> s[j] != b,
    ensures
        forall|k: int, j: int|
            0 <= k < split(s, sep).len() && 0 <= j < split(s, sep)[k].len() ==> split(
                s,
                sep,
            )[k][j] != b,
    decreases s.len(),
{
    if s.len() > 0 {
        lemma_split_len(s.drop_last(), sep);
        lemma_split_keeps_out(s.drop_last(), sep, b);
    }
}

/// A byte string that ends with the separator has an empty last piece.
pub proof fn lemma_split_trailing(s: Seq<u8>, sep: u8)
    requires
        s.len() > 0,
        s.last() == sep,
    ensures
        split(s, sep).last().len() == 0,
{
    lemma_split_len(s.drop_last(), sep);
}

/// A byte string that starts with the separator has an empty first piece.
pub proof fn lemma_split_leading(s: Seq<u8>, sep: u8)
    requires
        s.len() > 0,
        s[0] == sep,
    ensures
        split(s, sep).len() >= 2,
        split(s, sep)[0].len() == 0,
    decreases s.len(),
{
    let init = s.drop_last();
    lemma_split_len(init, sep);
    if s.len() > 1 {
        lemma_split_leading(init, sep);
    }
}

/// Between two separators that touch lies an empty piece, and it is not the
/// last piece.
pub proof fn lemma_split_adjacent(s: Seq<u8>, sep: u8, i: int) -> (k: int)
    requires
        0 <= i,
        i + 1 < s.len(),
        s[i] == sep,
        s[i + 1] == sep,
    ensures
        0 <= k < split(s, sep).len() - 1,
        split(s, sep)[k].len() == 0,
    decreases s.len(),
{
    let init = s.drop_last();
    lemma_split_len(init, sep);
    if i + 1 == s.len() - 1 {
        lemma_split_trailing(init, sep);
        split(init, sep).len() - 1
    } else {
        lemma_split_adjacent(init, sep, i)
    }
}

/// The join of pieces of which the last is not empty ends as that piece does.
pub proof fn lemma_join_end(parts: Seq<Seq<u8>>, sep: u8)
    requires
        parts.len() >= 1,
        parts.last().len() > 0,
    ensures
        join(parts, sep).len() > 0,
        join(parts, sep).last() == parts.last().last(),
{
}

/// Whether two byte strings are equal.
pub fn bytes_eq(a: &[u8], b: &[u8]) -> (same: bool)
    ensures
        same == (a@ == b@),
{
    if a.len() != b.len() {
        return false;
    }
    let mut i: usize = 0;
    while i < a.len()
        invariant
            i <= a.len(),
            a.len() == b.len(),
            forall|j: int| 0 <= j < i ==> a@[j] == b@[j],
        decreases a.len() - i,
    {
        if a[i] != b[i] {
            return false;
        }
        i += 1;
    }
    assert(a@ =~= b@);
    true
}

/// A fresh vector with the bytes of `a`.
pub fn copy_bytes(a: &[u8]) -> (out: Vec<u8>)
    ensures
        out@ == a@,
{
    let mut out: Vec<u8> = Vec::new();
    let mut i: usize = 0;
    while i < a.len()
        invariant
            i <= a.len(),
            out@ == a@.take(i as int),
        decreases a.len() - i,
    {
        out.push(a[i]);
        assert(a@.take(i as int).push(a@[i as int]) == a@.take(i + 1));
        i += 1;
    }
    assert(a@.take(a.len() as int) == a@);
    out
}

/// The pieces of `s` between the occurrences of `sep`.
pub fn split_bytes(s: &[u8], sep: u8) -> (parts: Vec<Vec<u8>>)
    ensures
        views(parts@) == split(s@, sep),
{
    let mut parts: Vec<Vec<u8>> = Vec::new();
    let mut piece: Vec<u8> = Vec::new();
    let mut i: usize = 0;
    while i < s.len()
        invariant
            i <= s.len(),
            views(parts@).push(piece@) == split(s@.take(i as int), sep),
        decreases s.len() - i,
    {
        let ghost before = views(parts@).push(piece@);
        assert(s@.take(i + 1).drop_last() == s@.take(i as int));
        if s[i] == sep {
            parts.push(piece);
            piece = Vec::new();
            assert(views(parts@).push(piece@) == before.push(Seq::<u8>::empty()));
        } else {
            piece.push(s[i]);
            assert(views(parts@).push(piece@) == before.update(
                before.len() - 1,
                before.last().push(s@[i as int]),
            ));
        }
        i += 1;
    }
    assert(s@.take(s.len() as int) == s@);
    parts.push(piece);
    assert(views(parts@) == views(parts@.drop_last()).push(parts@.last()@));
    parts
}

/// The pieces from index `from` on, joined with `sep`.
pub fn join_from(parts: &Vec<Vec<u8>>, from: usize, sep: u8) -> (out: Vec<u8>)
    requires
        from <= parts.len(),
    ensures
        out@ == join(views(parts@).skip(from as int), sep),
{
    let mut out: Vec<u8> = Vec::new();
    let mut i: usize = from;
    while i < parts.len()
        invariant
            from <= i <= parts.len(),
            out@ == join(views(parts@).subrange(from as int, i as int), sep),
        decreases parts.len() - i,
    {
        let ghost done = views(parts@).subrange(from as int, i as int);
        let ghost next = views(parts@).subrange(from as int, i + 1);
        assert(next.drop_last() == done);
        assert(next.last() == parts@[i as int]@);
        if i > from {
            out.push(sep);
        }
        let piece = &parts[i];
        let mut j: usize = 0;
        let ghost stem = out@;
        while j < piece.len()
            invariant
                j <= piece.len(),
                out@ == stem + piece@.take(j as int),
            decreases piece.len() - j,
        {
            out.push(piece[j]);
            assert(piece@.take(j as int).push(piece@[j as int]) == piece@.take(j + 1));
            j += 1;
        }
        assert(piece@.take(piece.len() as int) == piece@);
        assert(out@ == join(next, sep)) by {
            if i == from {
                assert(stem + piece@ == piece@);
            }
        }
        i += 1;
    }
    assert(views(parts@).subrange(from as int, parts.len() as int) == views(parts@).skip(
        from as int,
    ));
    out
}

} // verus!
