//! Editing text: replacing, trimming, splitting.

use crate::text::{append, copy_range, is_prefix, is_whitespace, matches_at, occurs_at, whitespace};
use vstd::prelude::*;

verus! {

/// `s` with every occurrence of `from` replaced by `to`, found from left to
/// right and never overlapping. An empty `from` stands before every character
/// and at the end.
pub open spec fn replace(s: Seq<char>, from: Seq<char>, to: Seq<char>) -> Seq<char>
    decreases s.len(),
{
    if from.len() > 0 && is_prefix(from, s) {
        to + replace(s.skip(from.len() as int), from, to)
    } else if s.len() == 0 {
        if from.len() == 0 {
            to
        } else {
            s
        }
    } else if from.len() == 0 {
        to + seq![s[0]] + replace(s.skip(1), from, to)
    } else {
        seq![s[0]] + replace(s.skip(1), from, to)
    }
}

/// `s` without the whitespace at its beginning.
pub open spec fn trim_start(s: Seq<char>) -> Seq<char>
    decreases s.len(),
{
    if s.len() > 0 && is_whitespace(s[0]) {
        trim_start(s.skip(1))
    } else {
        s
    }
}

/// `s` without the whitespace at its end.
pub open spec fn trim_end(s: Seq<char>) -> Seq<char>
    decreases s.len(),
{
    if s.len() > 0 && is_whitespace(s.last()) {
        trim_end(s.drop_last())
    } else {
        s
    }
}

/// `s` without the whitespace at either end.
pub open spec fn trim(s: Seq<char>) -> Seq<char> {
    trim_end(trim_start(s))
}

/// `s` without the run of `c` at its end.
pub open spec fn trim_end_of(s: Seq<char>, c: char) -> Seq<char>
    decreases s.len(),
{
    if s.len() > 0 && s.last() == c {
        trim_end_of(s.drop_last(), c)
    } else {
        s
    }
}

/// `s` without the run of `c` at its beginning.
pub open spec fn trim_start_of(s: Seq<char>, c: char) -> Seq<char>
    decreases s.len(),
{
    if s.len() > 0 && s[0] == c {
        trim_start_of(s.skip(1), c)
    } else {
        s
    }
}

/// The characters of `s` before its first whitespace character.
pub open spec fn first_token(s: Seq<char>) -> Seq<char>
    decreases s.len(),
{
    if s.len() == 0 || is_whitespace(s[0]) {
        Seq::empty()
    } else {
        seq![s[0]] + first_token(s.skip(1))
    }
}

/// The pieces of `s` between occurrences of `sep`. Reading from the left, the
/// empty text is one empty piece, a separator opens a new empty piece, and any
/// other character extends the last piece: there is always one piece more than
/// there are separators.
pub open spec fn split(s: Seq<char>, sep: char) -> Seq<Seq<char>>
    decreases s.len(),
{
    if s.len() == 0 {
        seq![Seq::empty()]
    } else {
        let before = split(s.drop_last(), sep);
        if s.last() == sep {
            before.push(Seq::empty())
        } else {
            before.drop_last().push(before.last().push(s.last()))
        }
    }
}

/// The views of a sequence of character vectors.
pub open spec fn views(v: Seq<Vec<char>>) -> Seq<Seq<char>> {
    v.map_values(|x: Vec<char>| x@)
}

/// `split` never returns the empty sequence.
pub proof fn lemma_split_nonempty(s: Seq<char>, sep: char)
    ensures
        split(s, sep).len() >= 1,
    decreases s.len(),
{
    if s.len() > 0 {
        lemma_split_nonempty(s.drop_last(), sep);
    }
}

/// Text without a separator, put after `a`, extends the last piece of `a`.
pub proof fn lemma_split_extended(a: Seq<char>, b: Seq<char>, sep: char)
    requires
        forall|i: int| 0 <= i < b.len() ==> b[i] != sep,
    ensures
        split(a + b, sep) == split(a, sep).drop_last().push(split(a, sep).last() + b),
    decreases b.len(),
{
    let pieces = split(a, sep);
    lemma_split_nonempty(a, sep);
    if b.len() == 0 {
        assert(a + b == a);
        assert(pieces.last() + b == pieces.last());
        assert(pieces.drop_last().push(pieces.last()) == pieces);
    } else {
        let shorter = b.drop_last();
        lemma_split_extended(a, shorter, sep);
        assert((a + b).drop_last() == a + shorter);
        assert((a + b).last() == b.last());
        let before = split(a + shorter, sep);
        assert(before.drop_last() == pieces.drop_last());
        assert((pieces.last() + shorter).push(b.last()) == pieces.last() + b);
    }
}

/// A separator put after `a` opens a new, empty piece.
pub proof fn lemma_split_closed(a: Seq<char>, sep: char)
    ensures
        split(a.push(sep), sep) == split(a, sep).push(Seq::empty()),
{
    assert(a.push(sep).drop_last() == a);
}

/// Standing at `i` in `hay` is being the beginning of what follows `i`.
pub proof fn lemma_occurs_at_skip(hay: Seq<char>, needle: Seq<char>, i: int)
    requires
        0 <= i <= hay.len(),
    ensures
        occurs_at(hay, needle, i) == is_prefix(needle, hay.skip(i)),
{
    if i + needle.len() <= hay.len() {
        assert(hay.skip(i).subrange(0, needle.len() as int) == hay.subrange(
            i,
            i + needle.len(),
        ));
    }
}

/// Where a non-empty `from` stands nowhere in `s`, replacing it changes
/// nothing.
pub proof fn lemma_replace_absent(s: Seq<char>, from: Seq<char>, to: Seq<char>)
    requires
        from.len() > 0,
        !crate::text::contains(s, from),
    ensures
        replace(s, from, to) == s,
    decreases s.len(),
{
    assert(!occurs_at(s, from, 0));
    if s.len() > 0 {
        assert forall|j: int| !occurs_at(s.skip(1), from, j) by {
            if occurs_at(s.skip(1), from, j) {
                assert(s.subrange(j + 1, j + 1 + from.len()) == s.skip(1).subrange(
                    j,
                    j + from.len(),
                ));
                assert(occurs_at(s, from, j + 1));
            }
        }
        lemma_replace_absent(s.skip(1), from, to);
        assert(seq![s[0]] + s.skip(1) == s);
    }
}

/// Replacing in a text of one character: the character gives way to `z`
/// where it is `y`, and stays where it is not.
pub proof fn lemma_replace_single(x: char, y: char, z: char)
    ensures
        replace(seq![x], seq![y], seq![z]) == if x == y {
            seq![z]
        } else {
            seq![x]
        },
{
    let s = seq![x];
    assert(s.subrange(0, 1) == s);
    assert(s.skip(1) == Seq::<char>::empty());
    assert(replace(Seq::<char>::empty(), seq![y], seq![z]) == Seq::<char>::empty());
    if x == y {
        assert(seq![y] == s);
        assert(is_prefix(seq![y], s));
        assert(seq![z] + Seq::<char>::empty() == seq![z]);
    } else {
        assert(seq![y][0] != s[0]);
        assert(!is_prefix(seq![y], s));
        assert(seq![s[0]] + Seq::<char>::empty() == s);
    }
}

/// Computes [`replace`].
pub fn replace_all(hay: &[char], from: &[char], to: &[char]) -> (out: Vec<char>)
    ensures
        out@ == replace(hay@, from@, to@),
{
    let mut out: Vec<char> = Vec::new();
    let mut i: usize = 0;
    assert(hay@.skip(0) == hay@);
    while i < hay.len()
        invariant
            i <= hay@.len(),
            replace(hay@, from@, to@) == out@ + replace(hay@.skip(i as int), from@, to@),
        decreases hay@.len() - i,
    {
        let ghost rest = hay@.skip(i as int);
        let ghost done = out@;
        proof {
            lemma_occurs_at_skip(hay@, from@, i as int);
        }
        if from.len() > 0 && matches_at(hay, from, i) {
            append(&mut out, to);
            i = i + from.len();
            assert(rest.skip(from@.len() as int) == hay@.skip(i as int));
            assert(done + (to@ + replace(hay@.skip(i as int), from@, to@)) == out@ + replace(
                hay@.skip(i as int),
                from@,
                to@,
            ));
        } else {
            if from.len() == 0 {
                append(&mut out, to);
            }
            out.push(hay[i]);
            i = i + 1;
            assert(rest.skip(1) == hay@.skip(i as int));
            assert(rest[0] == hay@[i - 1]);
            let ghost tail = replace(hay@.skip(i as int), from@, to@);
            if from.len() == 0 {
                assert(done + (to@ + seq![rest[0]] + tail) == out@ + tail);
            } else {
                assert(done + (seq![rest[0]] + tail) == out@ + tail);
            }
        }
    }
    assert(hay@.skip(i as int).len() == 0);
    if from.len() == 0 {
        append(&mut out, to);
    } else {
        assert(out@ + hay@.skip(i as int) == out@);
    }
    out
}

/// Computes [`trim`].
pub fn trimmed(s: &[char]) -> (out: Vec<char>)
    ensures
        out@ == trim(s@),
{
    let mut a: usize = 0;
    assert(s@.skip(0) == s@);
    while a < s.len() && whitespace(s[a])
        invariant
            a <= s@.len(),
            trim_start(s@) == trim_start(s@.skip(a as int)),
        decreases s@.len() - a,
    {
        assert(s@.skip(a as int).skip(1) == s@.skip(a + 1));
        a = a + 1;
    }
    let mut b: usize = s.len();
    assert(s@.skip(a as int) == s@.subrange(a as int, b as int));
    while b > a && whitespace(s[b - 1])
        invariant
            a <= b <= s@.len(),
            trim(s@) == trim_end(s@.subrange(a as int, b as int)),
        decreases b,
    {
        assert(s@.subrange(a as int, b as int).drop_last() == s@.subrange(a as int, b - 1));
        b = b - 1;
    }
    copy_range(s, a, b)
}

/// Computes [`trim_end_of`].
pub fn trimmed_end_of(s: &[char], c: char) -> (out: Vec<char>)
    ensures
        out@ == trim_end_of(s@, c),
{
    let mut b: usize = s.len();
    assert(s@ == s@.subrange(0, b as int));
    while b > 0 && s[b - 1] == c
        invariant
            b <= s@.len(),
            trim_end_of(s@, c) == trim_end_of(s@.subrange(0, b as int), c),
        decreases b,
    {
        assert(s@.subrange(0, b as int).drop_last() == s@.subrange(0, b - 1));
        b = b - 1;
    }
    copy_range(s, 0, b)
}

/// Computes [`trim_start_of`].
pub fn trimmed_start_of(s: &[char], c: char) -> (out: Vec<char>)
    ensures
        out@ == trim_start_of(s@, c),
{
    let n = s.len();
    let mut a: usize = 0;
    assert(s@.skip(0) == s@);
    while a < n && s[a] == c
        invariant
            a <= s@.len() == n,
            trim_start_of(s@, c) == trim_start_of(s@.skip(a as int), c),
        decreases s@.len() - a,
    {
        assert(s@.skip(a as int).skip(1) == s@.skip(a + 1));
        a = a + 1;
    }
    let out = copy_range(s, a, n);
    assert(out@ == s@.skip(a as int));
    out
}

/// Computes [`first_token`].
pub fn token(s: &[char]) -> (out: Vec<char>)
    ensures
        out@ == first_token(s@),
{
    let mut i: usize = 0;
    assert(s@.skip(0) == s@);
    assert(s@.take(0) + first_token(s@) == first_token(s@));
    while i < s.len() && !whitespace(s[i])
        invariant
            i <= s@.len(),
            first_token(s@) == s@.take(i as int) + first_token(s@.skip(i as int)),
        decreases s@.len() - i,
    {
        let ghost rest = s@.skip(i as int);
        assert(rest.skip(1) == s@.skip(i + 1));
        assert(s@.take(i as int) + (seq![rest[0]] + first_token(rest.skip(1))) == s@.take(i + 1)
            + first_token(rest.skip(1)));
        i = i + 1;
    }
    assert(s@.take(i as int) + Seq::<char>::empty() == s@.take(i as int));
    copy_range(s, 0, i)
}

/// Computes [`split`].
pub fn split_at_each(s: &[char], sep: char) -> (pieces: Vec<Vec<char>>)
    ensures
        views(pieces@) == split(s@, sep),
{
    let mut pieces: Vec<Vec<char>> = Vec::new();
    let mut start: usize = 0;
    let mut i: usize = 0;
    assert(views(pieces@).push(s@.subrange(0, 0)) == split(s@.take(0), sep)) by {
        assert(s@.take(0).len() == 0);
        assert(s@.subrange(0, 0) == Seq::<char>::empty());
        assert(views(pieces@).push(Seq::<char>::empty()) == seq![Seq::<char>::empty()]);
    }
    while i < s.len()
        invariant
            start <= i <= s@.len(),
            views(pieces@).push(s@.subrange(start as int, i as int)) == split(
                s@.take(i as int),
                sep,
            ),
        decreases s@.len() - i,
    {
        let ghost before = split(s@.take(i as int), sep);
        assert(s@.take(i + 1).drop_last() == s@.take(i as int));
        if s[i] == sep {
            let piece = copy_range(s, start, i);
            let ghost old_pieces = pieces@;
            pieces.push(piece);
            assert(views(pieces@) == views(old_pieces).push(piece@));
            start = i + 1;
            assert(s@.subrange(start as int, start as int) == Seq::<char>::empty());
        } else {
            assert(before.drop_last() == views(pieces@));
            assert(s@.subrange(start as int, i + 1) == s@.subrange(start as int, i as int).push(
                s@[i as int],
            ));
        }
        i = i + 1;
    }
    assert(s@.take(i as int) == s@);
    let piece = copy_range(s, start, i);
    let ghost old_pieces = pieces@;
    pieces.push(piece);
    assert(views(pieces@) == views(old_pieces).push(piece@));
    pieces
}

} // verus!
