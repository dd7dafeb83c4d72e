//! The chunk injector: merging a rendered fragment into a target file at its
//! marker lines.

use crate::error::Error;
use crate::lines::{
    is_plain_line, join_lines, joined, lemma_lines_of_joined, lines_of, split_lines, texts,
};
use crate::marker::{
    args_of, carries, chunk_args, insertion_mode, is_marker_line, marker_of,
    parse_insertion_mode, InsertionMode,
};
use crate::text::{append, to_chars};
use vstd::prelude::*;

verus! {

/// What one line of the target becomes. A line that does not carry the marker
/// stays as it is; a marker line stays too, with the fragment before it
/// (`Prepend`) or after it (`Append`). `None`: the line asks for `Insert`.
pub open spec fn emitted(fragment: Seq<char>, marker: Seq<char>, line: Seq<char>) -> Option<
    Seq<Seq<char>>,
> {
    if !is_marker_line(line, marker) {
        Some(seq![line])
    } else {
        match insertion_mode(chunk_args(line, marker)) {
            InsertionMode::Prepend => Some(seq![fragment, line]),
            InsertionMode::Append => Some(seq![line, fragment]),
            InsertionMode::Insert => None,
        }
    }
}

/// What the lines of the target become, in their order. `None`: some marker
/// line asks for `Insert`.
pub open spec fn injected(fragment: Seq<char>, marker: Seq<char>, lines: Seq<Seq<char>>) -> Option<
    Seq<Seq<char>>,
>
    decreases lines.len(),
{
    if lines.len() == 0 {
        Some(Seq::empty())
    } else {
        match (
            injected(fragment, marker, lines.drop_last()),
            emitted(fragment, marker, lines.last()),
        ) {
            (Some(before), Some(here)) => Some(before + here),
            _ => None,
        }
    }
}

/// How many of `lines` carry `marker`.
pub open spec fn marker_count(lines: Seq<Seq<char>>, marker: Seq<char>) -> nat
    decreases lines.len(),
{
    if lines.len() == 0 {
        0
    } else {
        marker_count(lines.drop_last(), marker) + if is_marker_line(lines.last(), marker) {
            1nat
        } else {
            0nat
        }
    }
}

/// The marker lines of two runs of lines are those of the one and those of
/// the other.
pub proof fn lemma_marker_count_concat(a: Seq<Seq<char>>, b: Seq<Seq<char>>, marker: Seq<char>)
    ensures
        marker_count(a + b, marker) == marker_count(a, marker) + marker_count(b, marker),
    decreases b.len(),
{
    if b.len() == 0 {
        assert(a + b == a);
    } else {
        assert((a + b).drop_last() == a + b.drop_last());
        lemma_marker_count_concat(a, b.drop_last(), marker);
    }
}

/// What a marker line becomes still holds a marker line.
proof fn lemma_emitted_keeps_marker(fragment: Seq<char>, marker: Seq<char>, line: Seq<char>)
    requires
        emitted(fragment, marker, line) is Some,
    ensures
        emitted(fragment, marker, line)->0.len() == 1 + marker_count(seq![line], marker),
        marker_count(emitted(fragment, marker, line)->0, marker) >= marker_count(
            seq![line],
            marker,
        ),
{
    let none = Seq::<Seq<char>>::empty();
    assert(seq![line].drop_last() == none);
    assert(marker_count(none, marker) == 0);
    if is_marker_line(line, marker) {
        assert(seq![fragment, line].drop_last() == seq![fragment]);
        assert(seq![line, fragment].drop_last() == seq![line]);
        assert(seq![fragment].drop_last() == none);
    }
}

/// A target without marker lines comes out as it went in: a fragment whose
/// marker stands nowhere is not injected, and nothing says so.
pub proof fn lemma_no_marker_no_change(
    fragment: Seq<char>,
    marker: Seq<char>,
    lines: Seq<Seq<char>>,
)
    requires
        marker_count(lines, marker) == 0,
    ensures
        injected(fragment, marker, lines) == Some(lines),
    decreases lines.len(),
{
    if lines.len() > 0 {
        lemma_no_marker_no_change(fragment, marker, lines.drop_last());
        assert(lines.drop_last() + seq![lines.last()] == lines);
    }
}

/// Injection adds one entry for each marker line, and the marker lines stay.
pub proof fn lemma_markers_remain(fragment: Seq<char>, marker: Seq<char>, lines: Seq<Seq<char>>)
    requires
        injected(fragment, marker, lines) is Some,
    ensures
        injected(fragment, marker, lines)->0.len() == lines.len() + marker_count(lines, marker),
        marker_count(injected(fragment, marker, lines)->0, marker) >= marker_count(
            lines,
            marker,
        ),
    decreases lines.len(),
{
    if lines.len() > 0 {
        let before = injected(fragment, marker, lines.drop_last())->0;
        let here = emitted(fragment, marker, lines.last())->0;
        lemma_markers_remain(fragment, marker, lines.drop_last());
        lemma_emitted_keeps_marker(fragment, marker, lines.last());
        lemma_marker_count_concat(before, here, marker);
        lemma_marker_count_concat(lines.drop_last(), seq![lines.last()], marker);
        assert(lines.drop_last() + seq![lines.last()] == lines);
    }
}

/// Injection is not idempotent. The marker lines stay in the target, so a
/// second run over what the first run left injects the fragment again, at
/// least once for each marker line that the target had at first.
pub proof fn lemma_reinjection_inserts_again(
    fragment: Seq<char>,
    marker: Seq<char>,
    lines: Seq<Seq<char>>,
)
    requires
        injected(fragment, marker, lines) is Some,
        injected(fragment, marker, injected(fragment, marker, lines)->0) is Some,
    ensures
        ({
            let once = injected(fragment, marker, lines)->0;
            let twice = injected(fragment, marker, once)->0;
            &&& twice.len() >= once.len() + marker_count(lines, marker)
            &&& marker_count(lines, marker) > 0 ==> twice != once
        }),
{
    let once = injected(fragment, marker, lines)->0;
    lemma_markers_remain(fragment, marker, lines);
    lemma_markers_remain(fragment, marker, once);
}

/// The same of files. Where the lines that a first run leaves are plain, a
/// second run reads back exactly those lines from the file that the first
/// run wrote, and injects the fragment into them again.
pub proof fn lemma_reinjection_into_content(
    fragment: Seq<char>,
    marker: Seq<char>,
    content: Seq<char>,
)
    requires
        injected(fragment, marker, lines_of(content)) is Some,
        forall|i: int|
            0 <= i < injected(fragment, marker, lines_of(content))->0.len() ==> is_plain_line(
                #[trigger] injected(fragment, marker, lines_of(content))->0[i],
            ),
        injected(fragment, marker, injected(fragment, marker, lines_of(content))->0) is Some,
    ensures
        ({
            let once = injected(fragment, marker, lines_of(content))->0;
            let twice = injected(fragment, marker, once)->0;
            &&& injected(fragment, marker, lines_of(joined(once))) == Some(twice)
            &&& twice.len() >= once.len() + marker_count(lines_of(content), marker)
            &&& marker_count(lines_of(content), marker) > 0 ==> joined(twice) != joined(once)
        }),
{
    let once = injected(fragment, marker, lines_of(content))->0;
    let twice = injected(fragment, marker, once)->0;
    lemma_lines_of_joined(once);
    lemma_reinjection_inserts_again(fragment, marker, lines_of(content));
    if marker_count(lines_of(content), marker) > 0 {
        lemma_joined_length(once);
        lemma_joined_length(twice);
        lemma_markers_remain(fragment, marker, once);
        lemma_longer_by_entries(fragment, marker, once);
    }
}

/// The length of joined lines: that of the lines, and one for each.
pub proof fn lemma_joined_length(lines: Seq<Seq<char>>)
    ensures
        joined(lines).len() == total_length(lines) + lines.len(),
    decreases lines.len(),
{
    if lines.len() > 0 {
        lemma_joined_length(lines.drop_last());
    }
}

/// The characters of all `lines` together.
pub open spec fn total_length(lines: Seq<Seq<char>>) -> nat
    decreases lines.len(),
{
    if lines.len() == 0 {
        0
    } else {
        total_length(lines.drop_last()) + lines.last().len()
    }
}

/// The lengths of two runs of lines add up.
proof fn lemma_total_length_concat(a: Seq<Seq<char>>, b: Seq<Seq<char>>)
    ensures
        total_length(a + b) == total_length(a) + total_length(b),
    decreases b.len(),
{
    if b.len() == 0 {
        assert(a + b == a);
    } else {
        assert((a + b).drop_last() == a + b.drop_last());
        lemma_total_length_concat(a, b.drop_last());
    }
}

/// Injection loses no character of the target.
proof fn lemma_longer_by_entries(fragment: Seq<char>, marker: Seq<char>, lines: Seq<Seq<char>>)
    requires
        injected(fragment, marker, lines) is Some,
    ensures
        total_length(injected(fragment, marker, lines)->0) >= total_length(lines),
    decreases lines.len(),
{
    if lines.len() > 0 {
        let before = injected(fragment, marker, lines.drop_last())->0;
        let here = emitted(fragment, marker, lines.last())->0;
        lemma_longer_by_entries(fragment, marker, lines.drop_last());
        lemma_total_length_concat(before, here);
        let none = Seq::<Seq<char>>::empty();
        let line = lines.last();
        assert(seq![line].drop_last() == none);
        assert(seq![fragment, line].drop_last() == seq![fragment]);
        assert(seq![line, fragment].drop_last() == seq![line]);
        assert(seq![fragment].drop_last() == none);
        assert(total_length(none) == 0);
        assert(seq![line].last() == line);
        assert(total_length(seq![line]) == line.len());
        assert(seq![fragment, line].last() == line);
        assert(seq![line, fragment].last() == fragment);
        assert(total_length(seq![fragment, line]) >= line.len());
        assert(total_length(seq![line, fragment]) >= line.len());
        assert(total_length(here) >= line.len());
        lemma_total_length_concat(lines.drop_last(), seq![line]);
        assert(lines.drop_last() + seq![line] == lines);
    }
}

/// Injects `fragment` at every line of `lines` that carries the marker of
/// `chunk_id`. The fragment is one entry of the result, whatever it holds.
pub fn inject_lines(fragment: &str, chunk_id: &str, lines: &Vec<String>) -> (r: Result<
    Vec<String>,
    Error,
>)
    ensures
        match r {
            Ok(out) => injected(fragment@, marker_of(chunk_id@), texts(lines@)) == Some(
                texts(out@),
            ),
            Err(e) => e == Error::UnsupportedInsertionMode && injected(
                fragment@,
                marker_of(chunk_id@),
                texts(lines@),
            ) is None,
        },
{
    let mut marker = to_chars("tmpl:");
    append(&mut marker, to_chars(chunk_id).as_slice());
    let mut out: Vec<String> = Vec::new();
    let mut i: usize = 0;
    assert(texts(lines@).take(0) == Seq::<Seq<char>>::empty());
    while i < lines.len()
        invariant
            i <= lines@.len(),
            marker@ == marker_of(chunk_id@),
            injected(fragment@, marker@, texts(lines@).take(i as int)) == Some(texts(out@)),
        decreases lines@.len() - i,
    {
        let line = to_chars(lines[i].as_str());
        let ghost upto = texts(lines@).take(i + 1);
        let ghost before = out@;
        proof {
            assert(upto.drop_last() == texts(lines@).take(i as int));
            assert(upto.last() == line@);
        }
        if carries(line.as_slice(), marker.as_slice()) {
            let args = args_of(line.as_slice(), marker.as_slice());
            match parse_insertion_mode(&args) {
                InsertionMode::Prepend => {
                    out.push(fragment.to_owned());
                    out.push(lines[i].clone());
                    assert(texts(out@) == texts(before) + seq![fragment@, line@]);
                },
                InsertionMode::Append => {
                    out.push(lines[i].clone());
                    out.push(fragment.to_owned());
                    assert(texts(out@) == texts(before) + seq![line@, fragment@]);
                },
                InsertionMode::Insert => {
                    proof {
                        lemma_refused_stays_refused(
                            fragment@,
                            marker@,
                            texts(lines@),
                            i + 1,
                        );
                    }
                    return Err(Error::UnsupportedInsertionMode);
                },
            }
        } else {
            out.push(lines[i].clone());
            assert(texts(out@) == texts(before) + seq![line@]);
        }
        i = i + 1;
    }
    assert(texts(lines@).take(i as int) == texts(lines@));
    Ok(out)
}

/// Once the lines up to `n` are refused, so are all of them.
proof fn lemma_refused_stays_refused(
    fragment: Seq<char>,
    marker: Seq<char>,
    lines: Seq<Seq<char>>,
    n: int,
)
    requires
        0 <= n <= lines.len(),
        injected(fragment, marker, lines.take(n)) is None,
    ensures
        injected(fragment, marker, lines) is None,
    decreases lines.len() - n,
{
    if n < lines.len() {
        assert(lines.take(n + 1).drop_last() == lines.take(n));
        lemma_refused_stays_refused(fragment, marker, lines, n + 1);
    } else {
        assert(lines.take(n) == lines);
    }
}

/// Injects `fragment` into `content`, the text of the target file, and
/// returns the file's new text. Every line of the result, the fragment
/// included, ends with one line feed, whether or not the last line of
/// `content` did.
pub fn inject_chunk(fragment: &str, chunk_id: &str, content: &str) -> (r: Result<String, Error>)
    ensures
        match injected(fragment@, marker_of(chunk_id@), lines_of(content@)) {
            Some(lines) => r matches Ok(out) && out@ == joined(lines),
            None => r matches Err(e) && e == Error::UnsupportedInsertionMode,
        },
{
    let lines = split_lines(content);
    match inject_lines(fragment, chunk_id, &lines) {
        Ok(out) => Ok(join_lines(&out)),
        Err(e) => Err(e),
    }
}

} // verus!
