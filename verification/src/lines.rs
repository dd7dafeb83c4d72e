//! The lines of a file's content, and content made of lines.

use crate::edit::{split, split_at_each, views};
use crate::text::{append, copy_range, to_chars, to_string};
use vstd::prelude::*;

verus! {

/// The views of a sequence of strings.
pub open spec fn texts(v: Seq<String>) -> Seq<Seq<char>> {
    v.map_values(|s: String| s@)
}

/// `line` without one carriage return at its end.
pub open spec fn strip_cr(line: Seq<char>) -> Seq<char> {
    if line.len() > 0 && line.last() == '\r' {
        line.drop_last()
    } else {
        line
    }
}

/// The lines of `content`. A line ends at a line feed, or at a carriage
/// return followed by a line feed; neither belongs to the line. What follows
/// the last line feed is a line of its own unless it is empty, and keeps a
/// carriage return at its end.
pub open spec fn lines_of(content: Seq<char>) -> Seq<Seq<char>> {
    let pieces = split(content, '\n');
    let ended = pieces.drop_last().map_values(|p: Seq<char>| strip_cr(p));
    if pieces.last().len() == 0 {
        ended
    } else {
        ended.push(pieces.last())
    }
}

/// The content in which each of `lines` is followed by one line feed.
pub open spec fn joined(lines: Seq<Seq<char>>) -> Seq<char>
    decreases lines.len(),
{
    if lines.len() == 0 {
        Seq::empty()
    } else {
        joined(lines.drop_last()) + lines.last() + seq!['\n']
    }
}

/// `line` can stand in a file as one line and be read back as it is: it
/// holds no line feed and does not end with a carriage return.
pub open spec fn is_plain_line(line: Seq<char>) -> bool {
    &&& forall|i: int| 0 <= i < line.len() ==> line[i] != '\n'
    &&& line.len() == 0 || line.last() != '\r'
}

/// Lines without line feeds, joined, are cut again where they were joined.
proof fn lemma_split_of_joined(lines: Seq<Seq<char>>)
    requires
        forall|i: int| 0 <= i < lines.len() ==> is_plain_line(#[trigger] lines[i]),
    ensures
        split(joined(lines), '\n') == lines.push(Seq::empty()),
    decreases lines.len(),
{
    let none = Seq::<char>::empty();
    if lines.len() == 0 {
        assert(lines.push(none) == seq![none]);
    } else {
        let init = lines.drop_last();
        let last = lines.last();
        lemma_split_of_joined(init);
        assert(is_plain_line(lines[lines.len() - 1]));
        crate::edit::lemma_split_extended(joined(init), last, '\n');
        crate::edit::lemma_split_closed(joined(init) + last, '\n');
        assert(init.push(none).drop_last() == init);
        assert(none + last == last);
        assert(init.push(last) == lines);
        assert(joined(lines) == (joined(init) + last).push('\n'));
    }
}

/// Plain lines written to a file and read back are the same lines.
pub proof fn lemma_lines_of_joined(lines: Seq<Seq<char>>)
    requires
        forall|i: int| 0 <= i < lines.len() ==> is_plain_line(#[trigger] lines[i]),
    ensures
        lines_of(joined(lines)) == lines,
{
    lemma_split_of_joined(lines);
    let pieces = split(joined(lines), '\n');
    assert(pieces.drop_last() == lines);
    let ended = pieces.drop_last().map_values(|p: Seq<char>| strip_cr(p));
    assert(ended == lines) by {
        assert forall|i: int| 0 <= i < lines.len() implies ended[i] == lines[i] by {
            assert(is_plain_line(lines[i]));
        }
    }
}

/// Computes [`lines_of`].
pub fn split_lines(content: &str) -> (lines: Vec<String>)
    ensures
        texts(lines@) == lines_of(content@),
{
    let chars = to_chars(content);
    let pieces = split_at_each(chars.as_slice(), '\n');
    proof {
        crate::edit::lemma_split_nonempty(content@, '\n');
    }
    let ghost all = split(content@, '\n');
    let mut lines: Vec<String> = Vec::new();
    let last: usize = pieces.len() - 1;
    let mut i: usize = 0;
    while i < last
        invariant
            i <= last,
            last == pieces@.len() - 1,
            views(pieces@) == all,
            texts(lines@) == all.take(i as int).map_values(|p: Seq<char>| strip_cr(p)),
        decreases last - i,
    {
        let piece = &pieces[i];
        let n = piece.len();
        assert(piece@ == all[i as int]);
        let line = if n > 0 && piece[n - 1] == '\r' {
            to_string(copy_range(piece.as_slice(), 0, n - 1).as_slice())
        } else {
            to_string(piece.as_slice())
        };
        assert(line@ == strip_cr(all[i as int])) by {
            assert(piece@.subrange(0, n as int) == piece@);
        }
        let ghost before = lines@;
        lines.push(line);
        assert(texts(lines@) == texts(before).push(line@));
        assert(all.take(i + 1) == all.take(i as int).push(all[i as int]));
        i = i + 1;
    }
    assert(all.take(last as int) == all.drop_last());
    let tail = &pieces[last];
    assert(tail@ == all.last());
    if tail.len() > 0 {
        let line = to_string(tail.as_slice());
        let ghost before = lines@;
        lines.push(line);
        assert(texts(lines@) == texts(before).push(line@));
    }
    lines
}

/// Computes [`joined`].
pub fn join_lines(lines: &Vec<String>) -> (content: String)
    ensures
        content@ == joined(texts(lines@)),
{
    let mut out: Vec<char> = Vec::new();
    let mut i: usize = 0;
    assert(texts(lines@).take(0) == Seq::<Seq<char>>::empty());
    while i < lines.len()
        invariant
            i <= lines@.len(),
            out@ == joined(texts(lines@).take(i as int)),
        decreases lines@.len() - i,
    {
        let line = to_chars(lines[i].as_str());
        let ghost done = out@;
        append(&mut out, line.as_slice());
        out.push('\n');
        proof {
            let upto = texts(lines@).take(i + 1);
            assert(upto.drop_last() == texts(lines@).take(i as int));
            assert(upto.last() == lines@[i as int]@);
            assert(out@ == done + line@ + seq!['\n']);
        }
        i = i + 1;
    }
    assert(texts(lines@).take(i as int) == texts(lines@));
    to_string(out.as_slice())
}

} // verus!
