//! The file classifier: which files of a tree are templates, which are
//! fragments, and which are left alone.

use crate::paths::{
    dot_token, extension, extension_of, file_name, file_name_of, lemma_file_name_is_tail,
    lemma_occurs_chars, template_suffix, underscore_token,
};
use crate::text::{
    contains, has, is_suffix, last_occurrence, lemma_last_occurrence_found, same, to_chars,
};
use vstd::prelude::*;

verus! {

/// What the engine does with a file.
#[derive(Clone, Copy, Debug, PartialEq, Eq, Structural)]
pub enum FileKind {
    /// The file is rendered into an output file of its own.
    FullTemplate,
    /// The file is rendered and merged into a file that exists.
    ChunkFragment,
    /// The file is passed over.
    Ignored,
}

/// The extension of a full template.
pub open spec fn template_extension() -> Seq<char> {
    "tmpl"@
}

/// `path` names a full template: its extension is exactly `tmpl`.
pub open spec fn is_full_template(path: Seq<char>) -> bool {
    extension(path) == Some(template_extension())
}

/// `path` names a fragment: its file name holds `tmpl_` or `.tmpl.`.
pub open spec fn is_chunk_fragment(path: Seq<char>) -> bool {
    contains(file_name(path), underscore_token()) || contains(file_name(path), dot_token())
}

/// The kinds of `path`, in the order in which the engine acts on them. The
/// two tests do not exclude each other: a file that passes both is a full
/// template first and a fragment second. A file that passes neither is
/// `Ignored`, and that alone.
pub open spec fn kinds_of(path: Seq<char>) -> Seq<FileKind> {
    if is_full_template(path) && is_chunk_fragment(path) {
        seq![FileKind::FullTemplate, FileKind::ChunkFragment]
    } else if is_full_template(path) {
        seq![FileKind::FullTemplate]
    } else if is_chunk_fragment(path) {
        seq![FileKind::ChunkFragment]
    } else {
        seq![FileKind::Ignored]
    }
}

/// The path of a full template ends with the template suffix: what the
/// resolver asks of a template's path holds of every file of that kind.
pub proof fn lemma_full_template_suffix(path: Seq<char>)
    requires
        is_full_template(path),
    ensures
        is_suffix(template_suffix(), path),
{
    reveal_strlit("tmpl");
    reveal_strlit(".tmpl");
    let dot = seq!['.'];
    let name = file_name(path);
    lemma_file_name_is_tail(path, dot);
    let k = choose|k: int| 0 <= k <= path.len() && name == path.skip(k);
    lemma_last_occurrence_found(name, dot);
    let i = last_occurrence(name, dot)->0;
    lemma_occurs_chars(name, dot, i, 0);
    let ext = name.skip(i + 1);
    assert(ext == template_extension());
    assert(ext.len() == 4);
    let n = path.len() as int;
    assert(n == k + i + 5);
    let end = path.subrange(n - 5, n);
    assert(end[0] == name[i]);
    assert forall|j: int| 1 <= j < 5 implies end[j] == template_suffix()[j] by {
        assert(end[j] == ext[j - 1]);
    }
    assert(end == template_suffix());
}

/// Decides [`is_full_template`].
pub fn full_template(path: &str) -> (r: bool)
    ensures
        r == is_full_template(path@),
{
    match extension_of(path) {
        Some(ext) => same(to_chars(ext.as_str()).as_slice(), to_chars("tmpl").as_slice()),
        None => false,
    }
}

/// Decides [`is_chunk_fragment`].
pub fn chunk_fragment(path: &str) -> (r: bool)
    ensures
        r == is_chunk_fragment(path@),
{
    let name = file_name_of(to_chars(path).as_slice());
    has(name.as_slice(), to_chars("tmpl_").as_slice()) || has(
        name.as_slice(),
        to_chars(".tmpl.").as_slice(),
    )
}

/// Computes [`kinds_of`].
pub fn classify(path: &str) -> (kinds: Vec<FileKind>)
    ensures
        kinds@ == kinds_of(path@),
{
    let mut kinds: Vec<FileKind> = Vec::new();
    if full_template(path) {
        kinds.push(FileKind::FullTemplate);
    }
    if chunk_fragment(path) {
        kinds.push(FileKind::ChunkFragment);
    }
    if kinds.len() == 0 {
        kinds.push(FileKind::Ignored);
    }
    kinds
}

} // verus!
