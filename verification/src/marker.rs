//! Marker lines: where a chunk goes in a target file, and how.
//!
//! A marker is the text `tmpl:` followed by a chunk's identifier. A line
//! carries it when the first occurrence of the marker in the line is followed
//! by whitespace or by the end of the line. After the marker a line may hold
//! arguments, each introduced by a colon: a bare keyword, or `name=value`.

use crate::edit::{first_token, split, split_at_each, token, trim, trimmed, views};
use crate::text::{
    append, copy_range, find, find_char, first_occurrence, is_whitespace, occurs_at, same,
    to_chars, to_string, whitespace,
};
use vstd::prelude::*;

verus! {

/// How a fragment is placed relative to its marker line.
#[derive(Clone, Copy, Debug, PartialEq, Eq, Structural)]
pub enum InsertionMode {
    /// The fragment follows the marker line.
    Append,
    /// The fragment precedes the marker line. This is the mode of a marker
    /// that names no other.
    Prepend,
    /// The fragment goes into the marker line itself. Reserved: the injector
    /// refuses it.
    Insert,
}

/// One argument of a marker line.
#[derive(Clone, Debug, PartialEq, Eq)]
pub struct ChunkArg {
    pub name: String,
    pub value: Option<String>,
}

/// What a [`ChunkArg`] holds, as text.
pub struct ArgText {
    pub name: Seq<char>,
    pub value: Option<Seq<char>>,
}

impl View for ChunkArg {
    type V = ArgText;

    open spec fn view(&self) -> ArgText {
        ArgText {
            name: self.name@,
            value: match self.value {
                Some(v) => Some(v@),
                None => None,
            },
        }
    }
}

/// The views of a sequence of arguments.
pub open spec fn arg_texts(args: Seq<ChunkArg>) -> Seq<ArgText> {
    args.map_values(|a: ChunkArg| a@)
}

/// The marker of the chunk `chunk_id`.
pub open spec fn marker_of(chunk_id: Seq<char>) -> Seq<char> {
    "tmpl:"@ + chunk_id
}

/// The position `end` in `line` is the end of the line or holds whitespace.
pub open spec fn boundary_at(line: Seq<char>, end: int) -> bool {
    end == line.len() || (0 <= end < line.len() && is_whitespace(line[end]))
}

/// `line` carries `marker`: the first occurrence of `marker` in it ends at a
/// boundary. Later occurrences are not looked at.
pub open spec fn is_marker_line(line: Seq<char>, marker: Seq<char>) -> bool {
    match first_occurrence(line, marker) {
        Some(i) => boundary_at(line, i + marker.len()),
        None => false,
    }
}

/// The value of an argument, from the trimmed text after its `=`: the text
/// between the quotes where it begins and ends with a double quote, else the
/// text before its first whitespace character.
pub open spec fn arg_value(raw: Seq<char>) -> Seq<char> {
    if raw.len() >= 2 && raw[0] == '"' && raw.last() == '"' {
        raw.subrange(1, raw.len() - 1)
    } else {
        first_token(raw)
    }
}

/// The argument that one segment between colons holds.
pub open spec fn parse_arg(segment: Seq<char>) -> ArgText {
    let arg = trim(segment);
    match first_occurrence(arg, seq!['=']) {
        Some(k) => ArgText { name: arg.take(k), value: Some(arg_value(trim(arg.skip(k + 1)))) },
        None => ArgText { name: first_token(arg), value: None },
    }
}

/// The arguments of the segments that hold more than whitespace, in order.
pub open spec fn parse_segments(segments: Seq<Seq<char>>) -> Seq<ArgText>
    decreases segments.len(),
{
    if segments.len() == 0 {
        Seq::empty()
    } else {
        let before = parse_segments(segments.drop_last());
        if trim(segments.last()).len() == 0 {
            before
        } else {
            before.push(parse_arg(segments.last()))
        }
    }
}

/// The arguments of `line` for `marker`: what follows the first occurrence of
/// `marker` is cut at each colon, and every piece after the first colon is a
/// segment. A line without the marker has no arguments.
pub open spec fn chunk_args(line: Seq<char>, marker: Seq<char>) -> Seq<ArgText> {
    match first_occurrence(line, marker) {
        Some(i) => parse_segments(split(line.skip(i + marker.len()), ':').skip(1)),
        None => Seq::empty(),
    }
}

/// Some argument is named `name`.
pub open spec fn has_name(args: Seq<ArgText>, name: Seq<char>) -> bool {
    exists|i: int| 0 <= i < args.len() && #[trigger] args[i].name == name
}

/// The mode that the arguments ask for: `Append` where one is named `append`,
/// else `Insert` where one is named `insert`, else `Prepend`.
pub open spec fn insertion_mode(args: Seq<ArgText>) -> InsertionMode {
    if has_name(args, "append"@) {
        InsertionMode::Append
    } else if has_name(args, "insert"@) {
        InsertionMode::Insert
    } else {
        InsertionMode::Prepend
    }
}

/// The boundary rule. Where `marker` does not begin within `before`, the
/// line `before`, `marker`, `rest` carries the marker exactly if `rest` is
/// empty or begins with whitespace: the marker of `foo` is not found in
/// `tmpl:foobar`.
pub proof fn lemma_boundary(before: Seq<char>, marker: Seq<char>, rest: Seq<char>)
    requires
        forall|j: int| 0 <= j < before.len() ==> !occurs_at(before + marker + rest, marker, j),
    ensures
        is_marker_line(before + marker + rest, marker) == (rest.len() == 0 || is_whitespace(
            rest[0],
        )),
{
    let line = before + marker + rest;
    let i = before.len() as int;
    assert(line.subrange(i, i + marker.len()) == marker);
    crate::text::lemma_first_occurrence(line, marker, i);
    if rest.len() > 0 {
        assert(line[i + marker.len()] == rest[0]);
    }
}

/// The marker of a chunk is not found in the marker of a chunk with a longer
/// identifier, and is found where the identifier ends the line or is
/// followed by whitespace.
pub proof fn lemma_longer_identifier(id: Seq<char>, more: Seq<char>)
    ensures
        is_marker_line(marker_of(id + more), marker_of(id)) == (more.len() == 0 || is_whitespace(
            more[0],
        )),
{
    let none = Seq::<char>::empty();
    assert(none + marker_of(id) + more == marker_of(id + more));
    lemma_boundary(none, marker_of(id), more);
}

/// Computes [`marker_of`].
pub fn chunk_marker(chunk_id: &str) -> (marker: String)
    ensures
        marker@ == marker_of(chunk_id@),
{
    let mut out = to_chars("tmpl:");
    let id = to_chars(chunk_id);
    append(&mut out, id.as_slice());
    to_string(out.as_slice())
}

/// Decides [`is_marker_line`] on characters.
pub fn carries(line: &[char], marker: &[char]) -> (r: bool)
    ensures
        r == is_marker_line(line@, marker@),
{
    let n = line.len();
    match find(line, marker) {
        Some(i) => {
            let end: usize = i + marker.len();
            end == n || whitespace(line[end])
        },
        None => false,
    }
}

/// Decides [`is_marker_line`].
pub fn marker_matches(line: &str, marker: &str) -> (r: bool)
    ensures
        r == is_marker_line(line@, marker@),
{
    let l = to_chars(line);
    let m = to_chars(marker);
    carries(l.as_slice(), m.as_slice())
}

/// Computes [`parse_arg`].
fn arg_of(segment: &[char]) -> (arg: ChunkArg)
    ensures
        arg@ == parse_arg(segment@),
{
    let text = trimmed(segment);
    match find_char(text.as_slice(), '=') {
        Some(k) => {
            let name = copy_range(text.as_slice(), 0, k);
            let rest = copy_range(text.as_slice(), k + 1, text.len());
            assert(rest@ == text@.skip(k + 1));
            let raw = trimmed(rest.as_slice());
            let n = raw.len();
            let value = if n >= 2 && raw[0] == '"' && raw[n - 1] == '"' {
                copy_range(raw.as_slice(), 1, n - 1)
            } else {
                token(raw.as_slice())
            };
            ChunkArg {
                name: to_string(name.as_slice()),
                value: Some(to_string(value.as_slice())),
            }
        },
        None => {
            let name = token(text.as_slice());
            ChunkArg { name: to_string(name.as_slice()), value: None }
        },
    }
}

/// Computes [`chunk_args`] on characters.
pub fn args_of(line: &[char], marker: &[char]) -> (args: Vec<ChunkArg>)
    ensures
        arg_texts(args@) == chunk_args(line@, marker@),
{
    let mut args: Vec<ChunkArg> = Vec::new();
    let n = line.len();
    match find(line, marker) {
        Some(i) => {
            let rest = copy_range(line, i + marker.len(), n);
            assert(rest@ == line@.skip(i + marker@.len()));
            let pieces = split_at_each(rest.as_slice(), ':');
            proof {
                crate::edit::lemma_split_nonempty(rest@, ':');
            }
            let ghost segments = split(rest@, ':').skip(1);
            let mut k: usize = 1;
            assert(segments.take(0) == Seq::<Seq<char>>::empty());
            while k < pieces.len()
                invariant
                    1 <= k <= pieces@.len(),
                    views(pieces@) == split(rest@, ':'),
                    segments == split(rest@, ':').skip(1),
                    arg_texts(args@) == parse_segments(segments.take(k - 1)),
                decreases pieces@.len() - k,
            {
                let piece = &pieces[k];
                assert(piece@ == segments[k - 1]);
                assert(segments.take(k as int).drop_last() == segments.take(k - 1));
                assert(segments.take(k as int).last() == piece@);
                let blank = trimmed(piece.as_slice()).len() == 0;
                if !blank {
                    let arg = arg_of(piece.as_slice());
                    let ghost before = args@;
                    args.push(arg);
                    assert(arg_texts(args@) == arg_texts(before).push(arg@));
                }
                k = k + 1;
            }
            assert(segments.take(k - 1) == segments);
        },
        None => {
            assert(arg_texts(args@) == Seq::<ArgText>::empty());
        },
    }
    args
}

/// Computes [`chunk_args`].
pub fn parse_chunk_args(line: &str, chunk_marker: &str) -> (args: Vec<ChunkArg>)
    ensures
        arg_texts(args@) == chunk_args(line@, chunk_marker@),
{
    let l = to_chars(line);
    let m = to_chars(chunk_marker);
    args_of(l.as_slice(), m.as_slice())
}

/// Decides [`has_name`].
fn names(args: &Vec<ChunkArg>, name: &str) -> (r: bool)
    ensures
        r == has_name(arg_texts(args@), name@),
{
    let wanted = to_chars(name);
    let mut i: usize = 0;
    while i < args.len()
        invariant
            i <= args@.len(),
            wanted@ == name@,
            forall|j: int| 0 <= j < i ==> (#[trigger] arg_texts(args@)[j]).name != name@,
        decreases args@.len() - i,
    {
        let have = to_chars(args[i].name.as_str());
        if same(have.as_slice(), wanted.as_slice()) {
            assert(arg_texts(args@)[i as int].name == name@);
            return true;
        }
        i = i + 1;
    }
    false
}

/// Computes [`insertion_mode`].
pub fn parse_insertion_mode(chunk_args: &Vec<ChunkArg>) -> (mode: InsertionMode)
    ensures
        mode == insertion_mode(arg_texts(chunk_args@)),
{
    if names(chunk_args, "append") {
        InsertionMode::Append
    } else if names(chunk_args, "insert") {
        InsertionMode::Insert
    } else {
        InsertionMode::Prepend
    }
}

} // verus!
