//! The path resolver: where a template's output goes, and which file and
//! chunk a fragment is meant for.
//!
//! Paths are text in which `/` separates the components.

use crate::config::{rule_texts, PathRewrite, RuleText};
use crate::edit::{
    replace, replace_all, trim_end_of, trim_start_of, trimmed_end_of, trimmed_start_of,
};
use crate::error::Error;
use crate::render::{render, render_of, RenderData};
use crate::text::{
    append, contains, copy_range, find, first_occurrence, is_last_occurrence, is_prefix,
    is_suffix, last_occurrence, occurs_at, rfind, rfind_char, starts_with, to_chars, to_string,
};
use vstd::prelude::*;

verus! {

/// The suffix of a full template's path.
pub open spec fn template_suffix() -> Seq<char> {
    ".tmpl"@
}

/// The token of the underscore convention for fragment names.
pub open spec fn underscore_token() -> Seq<char> {
    "tmpl_"@
}

/// The token of the dot convention for fragment names.
pub open spec fn dot_token() -> Seq<char> {
    ".tmpl."@
}

/// The last component of `path`: what follows its last `/`.
pub open spec fn file_name(path: Seq<char>) -> Seq<char> {
    match last_occurrence(path, seq!['/']) {
        Some(i) => path.skip(i + 1),
        None => path,
    }
}

/// The extension of `path`: what follows the last `.` of its file name,
/// unless the file name has no `.` or only begins with one.
pub open spec fn extension(path: Seq<char>) -> Option<Seq<char>> {
    let name = file_name(path);
    match last_occurrence(name, seq!['.']) {
        Some(i) => if i > 0 {
            Some(name.skip(i + 1))
        } else {
            None
        },
        None => None,
    }
}

/// `path` relative to `root`, where `path` lies under `root`: it begins with
/// `root`, and what follows is empty or is parted from `root` by a `/`. The
/// result begins with no `/`. Under the empty root every path lies, as it is.
pub open spec fn relative_to(path: Seq<char>, root: Seq<char>) -> Option<Seq<char>> {
    if root.len() == 0 {
        Some(path)
    } else if !is_prefix(root, path) {
        None
    } else {
        let rest = path.skip(root.len() as int);
        if rest.len() == 0 || root.last() == '/' || rest[0] == '/' {
            Some(trim_start_of(rest, '/'))
        } else {
            None
        }
    }
}

/// `rel` joined onto `base`: `rel` alone where it begins with `/`, else
/// `base`, a `/` unless `base` is empty or ends with one, and `rel`.
pub open spec fn join(base: Seq<char>, rel: Seq<char>) -> Seq<char> {
    if rel.len() > 0 && rel[0] == '/' {
        rel
    } else if base.len() == 0 || base.last() == '/' {
        base + rel
    } else {
        base + seq!['/'] + rel
    }
}

/// Where `path` goes under `output_root`: its part relative to `root`, or
/// all of it where it does not lie under `root`, joined onto `output_root`.
pub open spec fn relocated(path: Seq<char>, root: Seq<char>, output_root: Seq<char>) -> Seq<char> {
    join(
        output_root,
        match relative_to(path, root) {
            Some(rel) => rel,
            None => path,
        },
    )
}

/// `path` after the literal rules `pairs`, applied in their order, each to
/// what the one before it left.
pub open spec fn apply_rules(path: Seq<char>, pairs: Seq<(Seq<char>, Seq<char>)>) -> Seq<char>
    decreases pairs.len(),
{
    if pairs.len() == 0 {
        path
    } else {
        replace(apply_rules(path, pairs.drop_last()), pairs.last().0, pairs.last().1)
    }
}

/// The literal rules that `rules` render to over `data`. `None`: the
/// renderer refuses a pattern of some rule.
pub open spec fn render_rules(rules: Seq<RuleText>, data: Map<Seq<char>, Seq<char>>) -> Option<
    Seq<(Seq<char>, Seq<char>)>,
>
    decreases rules.len(),
{
    if rules.len() == 0 {
        Some(Seq::empty())
    } else {
        match (
            render_rules(rules.drop_last(), data),
            render_of(rules.last().from, data),
            render_of(rules.last().to, data),
        ) {
            (Some(before), Some(from), Some(to)) => Some(before.push((from, to))),
            _ => None,
        }
    }
}

/// `path` after `rules`, rendered over `data` and applied in their order.
pub open spec fn rewritten(
    path: Seq<char>,
    rules: Seq<RuleText>,
    data: Map<Seq<char>, Seq<char>>,
) -> Option<Seq<char>> {
    match render_rules(rules, data) {
        Some(pairs) => Some(apply_rules(path, pairs)),
        None => None,
    }
}

/// The chunk and the file that a fragment's name stands for.
#[derive(Clone, Debug, PartialEq, Eq)]
pub struct ChunkName {
    /// The identifier of the chunk.
    pub chunk_id: String,
    /// The path of the fragment without what names the chunk.
    pub base: String,
}

/// What a [`ChunkName`] holds, as text.
pub struct ChunkNameText {
    pub chunk_id: Seq<char>,
    pub base: Seq<char>,
}

impl View for ChunkName {
    type V = ChunkNameText;

    open spec fn view(&self) -> ChunkNameText {
        ChunkNameText { chunk_id: self.chunk_id@, base: self.base@ }
    }
}

/// What the path of a fragment names.
///
/// Underscore convention, for a file name that holds `tmpl_`: the chunk is
/// what follows the first `tmpl_` of the file name, and the base is the path
/// before its last `tmpl_`, without the dots that end it.
///
/// Dot convention, for any other file name that holds `.tmpl.`: the chunk is
/// what follows the last `.` of the file name, and the base is the path
/// before its last `.tmpl.`.
///
/// `None`: the file name follows neither.
pub open spec fn chunk_name_of(path: Seq<char>) -> Option<ChunkNameText> {
    let name = file_name(path);
    if contains(name, underscore_token()) {
        Some(
            ChunkNameText {
                chunk_id: name.skip(
                    first_occurrence(name, underscore_token())->0 + underscore_token().len(),
                ),
                base: trim_end_of(path.take(last_occurrence(path, underscore_token())->0), '.'),
            },
        )
    } else if contains(name, dot_token()) {
        Some(
            ChunkNameText {
                chunk_id: name.skip(last_occurrence(name, seq!['.'])->0 + 1),
                base: path.take(last_occurrence(path, dot_token())->0),
            },
        )
    } else {
        None
    }
}

/// The views of a sequence of literal rules.
pub open spec fn pair_texts(pairs: Seq<(String, String)>) -> Seq<(Seq<char>, Seq<char>)> {
    pairs.map_values(|p: (String, String)| (p.0@, p.1@))
}

/// Where a fragment goes: the file, and the chunk in it.
#[derive(Clone, Debug, PartialEq, Eq)]
pub struct ChunkTarget {
    pub path: String,
    pub chunk_id: String,
}

/// The order of the rules matters. Of the two rules `a` to `b` and `b` to
/// `c`, the first feeds the second where it comes first, and does not where
/// it comes second: the path `a` becomes `c` in the one order and `b` in the
/// other.
pub proof fn lemma_rule_order_matters(a: char, b: char, c: char)
    requires
        a != b,
    ensures
        apply_rules(seq![a], seq![(seq![a], seq![b]), (seq![b], seq![c])]) == seq![c],
        apply_rules(seq![a], seq![(seq![b], seq![c]), (seq![a], seq![b])]) == seq![b],
        b != c ==> apply_rules(seq![a], seq![(seq![a], seq![b]), (seq![b], seq![c])])
            != apply_rules(seq![a], seq![(seq![b], seq![c]), (seq![a], seq![b])]),
{
    let ab = (seq![a], seq![b]);
    let bc = (seq![b], seq![c]);
    crate::edit::lemma_replace_single(a, a, b);
    crate::edit::lemma_replace_single(b, b, c);
    crate::edit::lemma_replace_single(a, b, c);
    let none = Seq::<(Seq<char>, Seq<char>)>::empty();
    assert(apply_rules(seq![a], none) == seq![a]);
    assert(seq![ab].drop_last() == none);
    assert(seq![bc].drop_last() == none);
    assert(apply_rules(seq![a], seq![ab]) == seq![b]);
    assert(apply_rules(seq![a], seq![bc]) == seq![a]);
    assert(seq![ab, bc].drop_last() == seq![ab]);
    assert(seq![bc, ab].drop_last() == seq![bc]);
    if b != c {
        assert(seq![c][0] != seq![b][0]);
    }
}

/// Rules whose rendered `from` is not empty and stands nowhere in the path
/// leave the path as it is.
pub proof fn lemma_rules_absent(path: Seq<char>, pairs: Seq<(Seq<char>, Seq<char>)>)
    requires
        forall|i: int|
            0 <= i < pairs.len() ==> (#[trigger] pairs[i]).0.len() > 0 && !contains(
                path,
                pairs[i].0,
            ),
    ensures
        apply_rules(path, pairs) == path,
    decreases pairs.len(),
{
    if pairs.len() > 0 {
        lemma_rules_absent(path, pairs.drop_last());
        assert(pairs.last() == pairs[pairs.len() - 1]);
        crate::edit::lemma_replace_absent(path, pairs.last().0, pairs.last().1);
    }
}

/// What stands in the end of a text stands in the text.
pub proof fn lemma_occurs_in_tail(hay: Seq<char>, needle: Seq<char>, k: int, i: int)
    requires
        0 <= k <= hay.len(),
        occurs_at(hay.skip(k), needle, i),
    ensures
        occurs_at(hay, needle, k + i),
{
    assert(hay.subrange(k + i, k + i + needle.len()) == hay.skip(k).subrange(
        i,
        i + needle.len(),
    ));
}

/// Where `needle` stands, its characters stand one by one.
pub proof fn lemma_occurs_chars(hay: Seq<char>, needle: Seq<char>, j: int, k: int)
    requires
        occurs_at(hay, needle, j),
        0 <= k < needle.len(),
    ensures
        hay[j + k] == needle[k],
{
    assert(hay.subrange(j, j + needle.len())[k] == needle[k]);
}

/// What stands in `a + b` and ends within `a` stands in `a`.
pub proof fn lemma_occurs_in_front(a: Seq<char>, b: Seq<char>, needle: Seq<char>, j: int)
    requires
        occurs_at(a + b, needle, j),
        j + needle.len() <= a.len(),
    ensures
        occurs_at(a, needle, j),
{
    assert(a.subrange(j, j + needle.len()) == (a + b).subrange(j, j + needle.len()));
}

/// What stands in `a + b` and begins within `b` stands in `b`.
pub proof fn lemma_occurs_in_back(a: Seq<char>, b: Seq<char>, needle: Seq<char>, j: int)
    requires
        occurs_at(a + b, needle, j),
        j >= a.len(),
    ensures
        occurs_at(b, needle, j - a.len()),
{
    assert(b.subrange(j - a.len(), j - a.len() + needle.len()) == (a + b).subrange(
        j,
        j + needle.len(),
    ));
}

/// Text without a `/`, put after a path, extends the path's file name.
pub proof fn lemma_file_name_extended(path: Seq<char>, tail: Seq<char>)
    requires
        forall|i: int| 0 <= i < tail.len() ==> tail[i] != '/',
    ensures
        file_name(path + tail) == file_name(path) + tail,
{
    let slash = seq!['/'];
    let whole = path + tail;
    crate::text::lemma_last_occurrence_found(path, slash);
    assert forall|j: int| j >= path.len() implies !occurs_at(whole, slash, j) by {
        if occurs_at(whole, slash, j) {
            lemma_occurs_chars(whole, slash, j, 0);
            assert(whole[j] == tail[j - path.len()]);
        }
    }
    assert forall|j: int| j < path.len() && occurs_at(whole, slash, j) implies occurs_at(
        path,
        slash,
        j,
    ) by {
        lemma_occurs_in_front(path, tail, slash, j);
    }
    match last_occurrence(path, slash) {
        Some(i) => {
            assert(whole.subrange(i, i + 1) == path.subrange(i, i + 1));
            assert(is_last_occurrence(whole, slash, i));
            crate::text::lemma_last_occurrence(whole, slash, i);
            assert(whole.skip(i + 1) == path.skip(i + 1) + tail);
        },
        None => {
            assert(!contains(whole, slash));
        },
    }
}

/// The two naming conventions agree. The fragment `base`, `.tmpl_`, `id`
/// and the fragment `base`, `.tmpl.`, `id` name the same chunk, `id`, and the
/// same file, `base`, where `tmpl_` stands neither in `base` nor in `id`,
/// `base` does not end with a dot, and `id` holds neither `.` nor `/`.
pub proof fn lemma_conventions_agree(base: Seq<char>, id: Seq<char>)
    requires
        !contains(base, underscore_token()),
        !contains(id, underscore_token()),
        base.len() == 0 || base.last() != '.',
        forall|i: int| 0 <= i < id.len() ==> id[i] != '.' && id[i] != '/',
    ensures
        chunk_name_of(base + seq!['.'] + underscore_token() + id) == Some(
            ChunkNameText { chunk_id: id, base },
        ),
        chunk_name_of(base + dot_token() + id) == Some(ChunkNameText { chunk_id: id, base }),
{
    lemma_underscore_convention(base, id);
    lemma_dot_convention(base, id);
}

/// A file name is the end of its path, and holds nothing that the path
/// does not hold.
pub proof fn lemma_file_name_is_tail(path: Seq<char>, needle: Seq<char>)
    ensures
        exists|k: int| 0 <= k <= path.len() && file_name(path) == path.skip(k),
        contains(file_name(path), needle) ==> contains(path, needle),
{
    crate::text::lemma_last_occurrence_found(path, seq!['/']);
    let k = match last_occurrence(path, seq!['/']) {
        Some(i) => i + 1,
        None => 0,
    };
    assert(path.skip(0) == path);
    assert(file_name(path) == path.skip(k));
    if contains(file_name(path), needle) {
        let j = choose|j: int| occurs_at(file_name(path), needle, j);
        lemma_occurs_in_tail(path, needle, k, j);
    }
}

/// In `front`, `.tmpl_`, `id` the first `tmpl_` is the one after the dot,
/// where `front` holds none.
proof fn lemma_first_underscore(front: Seq<char>, id: Seq<char>)
    requires
        !contains(front, underscore_token()),
    ensures
        first_occurrence(front + (seq!['.'] + underscore_token() + id), underscore_token())
            == Some(front.len() as int + 1),
{
    reveal_strlit("tmpl_");
    let u = underscore_token();
    assert(u == seq!['t', 'm', 'p', 'l', '_']);
    let tail = seq!['.'] + u + id;
    let name = front + tail;
    let f = front.len() as int;
    assert(name.subrange(f + 1, f + 6) == u);
    assert forall|j: int| 0 <= j < f + 1 implies !occurs_at(name, u, j) by {
        if occurs_at(name, u, j) {
            if j + 5 <= f {
                lemma_occurs_in_front(front, tail, u, j);
            } else {
                lemma_occurs_chars(name, u, j, 4);
                assert(name[j + 4] == tail[j + 4 - f]);
            }
        }
    }
    crate::text::lemma_first_occurrence(name, u, f + 1);
}

/// In `front`, `.tmpl_`, `id` the last `tmpl_` is the one after the dot,
/// where `id` holds none.
proof fn lemma_last_underscore(front: Seq<char>, id: Seq<char>)
    requires
        !contains(id, underscore_token()),
    ensures
        last_occurrence(front + (seq!['.'] + underscore_token() + id), underscore_token())
            == Some(front.len() as int + 1),
{
    reveal_strlit("tmpl_");
    let u = underscore_token();
    assert(u == seq!['t', 'm', 'p', 'l', '_']);
    let head = front + seq!['.'] + u;
    let path = front + (seq!['.'] + u + id);
    let n = front.len() as int;
    assert(path == head + id);
    assert(head.len() == n + 6);
    assert(path.subrange(n + 1, n + 6) == u);
    assert(path[n + 2] == 'm' && path[n + 3] == 'p' && path[n + 4] == 'l' && path[n + 5] == '_');
    assert forall|j: int| n + 1 < j implies !occurs_at(path, u, j) by {
        if occurs_at(path, u, j) {
            if j < n + 6 {
                lemma_occurs_chars(path, u, j, 0);
                assert(path[j] == 't');
                assert(j == n + 2 || j == n + 3 || j == n + 4 || j == n + 5);
            } else {
                lemma_occurs_in_back(head, id, u, j);
            }
        }
    }
    crate::text::lemma_last_occurrence(path, u, n + 1);
}

/// The underscore half of [`lemma_conventions_agree`].
proof fn lemma_underscore_convention(base: Seq<char>, id: Seq<char>)
    requires
        !contains(base, underscore_token()),
        !contains(id, underscore_token()),
        base.len() == 0 || base.last() != '.',
        forall|i: int| 0 <= i < id.len() ==> id[i] != '/',
    ensures
        chunk_name_of(base + seq!['.'] + underscore_token() + id) == Some(
            ChunkNameText { chunk_id: id, base },
        ),
{
    let u = underscore_token();
    let tail = seq!['.'] + u + id;
    let path = base + seq!['.'] + u + id;
    let n = base.len() as int;
    let fb = file_name(base);
    let f = fb.len() as int;
    assert(u.len() == 5 && forall|i: int| 0 <= i < 5 ==> u[i] != '/') by {
        reveal_strlit("tmpl_");
    }
    assert(path == base + tail);
    lemma_file_name_extended(base, tail);
    lemma_file_name_is_tail(base, u);
    lemma_first_underscore(fb, id);
    lemma_last_underscore(base, id);
    let name = file_name(path);
    assert(name == fb + tail);
    assert(occurs_at(name, u, f + 1)) by {
        crate::text::lemma_first_occurrence_found(name, u);
    }
    assert(name.skip(f + 1 + 5) == id);
    let dotted = path.take(n + 1);
    assert(dotted == base.push('.'));
    assert(dotted.drop_last() == base);
    assert(trim_end_of(dotted, '.') == trim_end_of(base, '.'));
    assert(trim_end_of(base, '.') == base);
}

/// The dot half of [`lemma_conventions_agree`].
proof fn lemma_dot_convention(base: Seq<char>, id: Seq<char>)
    requires
        !contains(base, underscore_token()),
        !contains(id, underscore_token()),
        forall|i: int| 0 <= i < id.len() ==> id[i] != '.' && id[i] != '/',
    ensures
        chunk_name_of(base + dot_token() + id) == Some(ChunkNameText { chunk_id: id, base }),
{
    reveal_strlit("tmpl_");
    reveal_strlit(".tmpl.");
    let u = underscore_token();
    let d = dot_token();
    assert(u == seq!['t', 'm', 'p', 'l', '_']);
    assert(d == seq!['.', 't', 'm', 'p', 'l', '.']);
    let tail = d + id;
    let path = base + d + id;
    assert(path == base + tail);
    let n = base.len() as int;
    lemma_file_name_extended(base, tail);
    let fb = file_name(base);
    let name = fb + tail;
    let f = fb.len() as int;
    assert(name == file_name(path));
    assert(exists|k: int| 0 <= k <= base.len() && fb == base.skip(k)) by {
        crate::text::lemma_last_occurrence_found(base, seq!['/']);
        match last_occurrence(base, seq!['/']) {
            Some(i) => {
                assert(fb == base.skip(i + 1));
            },
            None => {
                assert(fb == base.skip(0));
            },
        }
    }
    let k = choose|k: int| 0 <= k <= base.len() && fb == base.skip(k);
    // no `tmpl_` in the file name
    assert forall|j: int| !occurs_at(name, u, j) by {
        if occurs_at(name, u, j) {
            if j + 5 <= f {
                lemma_occurs_in_front(fb, tail, u, j);
                lemma_occurs_in_tail(base, u, k, j);
            } else if j >= f + 6 {
                assert(name == (fb + d) + id);
                lemma_occurs_in_back(fb + d, id, u, j);
            } else if j + 4 < f + 6 {
                lemma_occurs_chars(name, u, j, 4);
                assert(name[j + 4] == tail[j + 4 - f]);
            } else {
                lemma_occurs_chars(name, u, j, 0);
                assert(name[j] == tail[j - f]);
            }
        }
    }
    assert(!contains(name, u));
    // `.tmpl.` in the file name, and its last dot is the last of the name
    assert(name.subrange(f, f + 6) == d);
    assert(occurs_at(name, d, f));
    let dot = seq!['.'];
    assert(name.subrange(f + 5, f + 6) == dot);
    assert forall|j: int| f + 5 < j implies !occurs_at(name, dot, j) by {
        if occurs_at(name, dot, j) {
            lemma_occurs_chars(name, dot, j, 0);
            assert(name[j] == id[j - f - 6]);
        }
    }
    crate::text::lemma_last_occurrence(name, dot, f + 5);
    assert(name.skip(f + 6) == id);
    // the last `.tmpl.` of the path is the one after the base
    assert(path.subrange(n, n + 6) == d);
    assert forall|j: int| n < j implies !occurs_at(path, d, j) by {
        if occurs_at(path, d, j) {
            if j < n + 5 {
                lemma_occurs_chars(path, d, j, 0);
                assert(path[j] == tail[j - n]);
            } else {
                lemma_occurs_chars(path, d, j, 5);
                assert(path[j + 5] == id[j + 5 - n - 6]);
            }
        }
    }
    crate::text::lemma_last_occurrence(path, d, n);
    assert(path.take(n) == base);
}

/// Computes [`file_name`] on characters.
pub fn file_name_of(path: &[char]) -> (name: Vec<char>)
    ensures
        name@ == file_name(path@),
        exists|k: int| 0 <= k <= path@.len() && name@ == path@.skip(k),
{
    let n = path.len();
    match rfind_char(path, '/') {
        Some(i) => {
            let name = copy_range(path, i + 1, n);
            assert(name@ == path@.skip(i + 1));
            name
        },
        None => {
            let name = copy_range(path, 0, n);
            assert(name@ == path@);
            assert(name@ == path@.skip(0));
            name
        },
    }
}

/// Whether `path` ends with the template suffix.
pub fn has_template_suffix(path: &str) -> (r: bool)
    ensures
        r == is_suffix(template_suffix(), path@),
{
    let p = to_chars(path);
    let suffix = to_chars(".tmpl");
    if suffix.len() > p.len() {
        return false;
    }
    crate::text::matches_at(p.as_slice(), suffix.as_slice(), p.len() - suffix.len())
}

/// Computes [`extension`].
pub fn extension_of(path: &str) -> (r: Option<String>)
    ensures
        match r {
            Some(ext) => extension(path@) == Some(ext@),
            None => extension(path@) is None,
        },
{
    let p = to_chars(path);
    let name = file_name_of(p.as_slice());
    let n = name.len();
    match rfind_char(name.as_slice(), '.') {
        Some(i) => {
            if i > 0 {
                let ext = copy_range(name.as_slice(), i + 1, n);
                assert(ext@ == name@.skip(i + 1));
                Some(to_string(ext.as_slice()))
            } else {
                None
            }
        },
        None => None,
    }
}

/// Computes [`relative_to`] on characters.
fn relative(path: &[char], root: &[char]) -> (r: Option<Vec<char>>)
    ensures
        match r {
            Some(rel) => relative_to(path@, root@) == Some(rel@),
            None => relative_to(path@, root@) is None,
        },
{
    let n = path.len();
    let m = root.len();
    if m == 0 {
        let all = copy_range(path, 0, n);
        assert(all@ == path@);
        return Some(all);
    }
    if !starts_with(path, root) {
        return None;
    }
    let rest = copy_range(path, m, n);
    assert(rest@ == path@.skip(m as int));
    if rest.len() == 0 || root[m - 1] == '/' || rest[0] == '/' {
        Some(trimmed_start_of(rest.as_slice(), '/'))
    } else {
        None
    }
}

/// Computes [`relative_to`].
pub fn relativize(path: &str, root: &str) -> (r: Option<String>)
    ensures
        match r {
            Some(rel) => relative_to(path@, root@) == Some(rel@),
            None => relative_to(path@, root@) is None,
        },
{
    match relative(to_chars(path).as_slice(), to_chars(root).as_slice()) {
        Some(rel) => Some(to_string(rel.as_slice())),
        None => None,
    }
}

/// Computes [`join`] on characters.
fn joined_path(base: &[char], rel: &[char]) -> (out: Vec<char>)
    ensures
        out@ == join(base@, rel@),
{
    let mut out: Vec<char> = Vec::new();
    if rel.len() > 0 && rel[0] == '/' {
        append(&mut out, rel);
        assert(out@ == rel@);
        return out;
    }
    append(&mut out, base);
    assert(out@ == base@);
    let b = base.len();
    if b > 0 && base[b - 1] != '/' {
        out.push('/');
    }
    append(&mut out, rel);
    out
}

/// Computes [`join`].
pub fn join_path(base: &str, rel: &str) -> (out: String)
    ensures
        out@ == join(base@, rel@),
{
    to_string(joined_path(to_chars(base).as_slice(), to_chars(rel).as_slice()).as_slice())
}

/// Computes [`relocated`] on characters.
fn relocate_chars(path: &[char], root: &[char], output_root: &[char]) -> (out: Vec<char>)
    ensures
        out@ == relocated(path@, root@, output_root@),
{
    match relative(path, root) {
        Some(rel) => joined_path(output_root, rel.as_slice()),
        None => joined_path(output_root, path),
    }
}

/// Computes [`relocated`].
pub fn relocate(path: &str, root: &str, output_root: &str) -> (out: String)
    ensures
        out@ == relocated(path@, root@, output_root@),
{
    to_string(
        relocate_chars(
            to_chars(path).as_slice(),
            to_chars(root).as_slice(),
            to_chars(output_root).as_slice(),
        ).as_slice(),
    )
}

/// Computes [`chunk_name_of`].
pub fn chunk_name(path: &str) -> (r: Result<ChunkName, Error>)
    ensures
        match chunk_name_of(path@) {
            Some(name) => r matches Ok(found) && found@ == name,
            None => r matches Err(e) && e == Error::InvalidChunkName,
        },
{
    let p = to_chars(path);
    let name = file_name_of(p.as_slice());
    let ghost k = choose|k: int| 0 <= k <= p@.len() && name@ == p@.skip(k);
    let underscore = to_chars("tmpl_");
    let dot = to_chars(".tmpl.");
    let n = name.len();
    match find(name.as_slice(), underscore.as_slice()) {
        Some(a) => {
            proof {
                lemma_occurs_in_tail(p@, underscore@, k, a as int);
            }
            let id = copy_range(name.as_slice(), a + underscore.len(), n);
            assert(id@ == name@.skip(a + underscore@.len()));
            match rfind(p.as_slice(), underscore.as_slice()) {
                Some(b) => {
                    let before = copy_range(p.as_slice(), 0, b);
                    let base = trimmed_end_of(before.as_slice(), '.');
                    Ok(
                        ChunkName {
                            chunk_id: to_string(id.as_slice()),
                            base: to_string(base.as_slice()),
                        },
                    )
                },
                None => {
                    assert(false);
                    Err(Error::InvalidChunkName)
                },
            }
        },
        None => {
            match find(name.as_slice(), dot.as_slice()) {
                Some(a) => {
                    proof {
                        reveal_strlit(".tmpl.");
                        lemma_occurs_in_tail(p@, dot@, k, a as int);
                        assert(name@.subrange(a as int, a + 6)[0] == '.');
                        assert(name@.subrange(a as int, a + 1) == seq!['.']);
                        assert(occurs_at(name@, seq!['.'], a as int));
                    }
                    match (rfind_char(name.as_slice(), '.'), rfind(p.as_slice(), dot.as_slice())) {
                        (Some(d), Some(b)) => {
                            let id = copy_range(name.as_slice(), d + 1, n);
                            assert(id@ == name@.skip(d + 1));
                            let base = copy_range(p.as_slice(), 0, b);
                            Ok(
                                ChunkName {
                                    chunk_id: to_string(id.as_slice()),
                                    base: to_string(base.as_slice()),
                                },
                            )
                        },
                        _ => {
                            assert(false);
                            Err(Error::InvalidChunkName)
                        },
                    }
                },
                None => Err(Error::InvalidChunkName),
            }
        },
    }
}

/// Computes [`apply_rules`] on characters.
fn apply_pairs(path: &[char], pairs: &Vec<(String, String)>) -> (out: Vec<char>)
    ensures
        out@ == apply_rules(path@, pair_texts(pairs@)),
{
    let mut out = copy_range(path, 0, path.len());
    assert(out@ == path@);
    let mut i: usize = 0;
    assert(pair_texts(pairs@).take(0) == Seq::<(Seq<char>, Seq<char>)>::empty());
    while i < pairs.len()
        invariant
            i <= pairs@.len(),
            out@ == apply_rules(path@, pair_texts(pairs@).take(i as int)),
        decreases pairs@.len() - i,
    {
        let from = to_chars(pairs[i].0.as_str());
        let to = to_chars(pairs[i].1.as_str());
        proof {
            let upto = pair_texts(pairs@).take(i + 1);
            assert(upto.drop_last() == pair_texts(pairs@).take(i as int));
            assert(upto.last() == (from@, to@));
        }
        out = replace_all(out.as_slice(), from.as_slice(), to.as_slice());
        i = i + 1;
    }
    assert(pair_texts(pairs@).take(i as int) == pair_texts(pairs@));
    out
}

/// Applies the literal rules `pairs` to `path`, in their order: each replaces
/// every occurrence of its first text by its second, in what the rules before
/// it left.
pub fn apply_literal_rewrites(path: &str, pairs: &Vec<(String, String)>) -> (out: String)
    ensures
        out@ == apply_rules(path@, pair_texts(pairs@)),
{
    to_string(apply_pairs(to_chars(path).as_slice(), pairs).as_slice())
}

/// Renders both patterns of every rule over `data`.
pub fn render_rewrites(rewrites: &Vec<PathRewrite>, data: &RenderData) -> (r: Result<
    Vec<(String, String)>,
    Error,
>)
    ensures
        match render_rules(rule_texts(rewrites@), data@) {
            Some(pairs) => r matches Ok(out) && pair_texts(out@) == pairs,
            None => r matches Err(Error::Render(_)),
        },
{
    let mut out: Vec<(String, String)> = Vec::new();
    let mut i: usize = 0;
    assert(rule_texts(rewrites@).take(0) == Seq::<RuleText>::empty());
    assert(pair_texts(out@) == Seq::<(Seq<char>, Seq<char>)>::empty());
    while i < rewrites.len()
        invariant
            i <= rewrites@.len(),
            render_rules(rule_texts(rewrites@).take(i as int), data@) == Some(pair_texts(out@)),
        decreases rewrites@.len() - i,
    {
        proof {
            let upto = rule_texts(rewrites@).take(i + 1);
            assert(upto.drop_last() == rule_texts(rewrites@).take(i as int));
            assert(upto.last() == rewrites@[i as int]@);
        }
        let from = match render(rewrites[i].from.as_str(), data) {
            Ok(text) => text,
            Err(e) => {
                proof {
                    lemma_render_rules_refused(rule_texts(rewrites@), data@, i + 1);
                }
                return Err(e);
            },
        };
        let to = match render(rewrites[i].to.as_str(), data) {
            Ok(text) => text,
            Err(e) => {
                proof {
                    lemma_render_rules_refused(rule_texts(rewrites@), data@, i + 1);
                }
                return Err(e);
            },
        };
        let ghost before = out@;
        out.push((from, to));
        assert(pair_texts(out@) == pair_texts(before).push((from@, to@)));
        i = i + 1;
    }
    assert(rule_texts(rewrites@).take(i as int) == rule_texts(rewrites@));
    Ok(out)
}

/// Once the rules up to `n` are refused, so are all of them.
proof fn lemma_render_rules_refused(rules: Seq<RuleText>, data: Map<Seq<char>, Seq<char>>, n: int)
    requires
        0 <= n <= rules.len(),
        render_rules(rules.take(n), data) is None,
    ensures
        render_rules(rules, data) is None,
    decreases rules.len() - n,
{
    if n < rules.len() {
        assert(rules.take(n + 1).drop_last() == rules.take(n));
        lemma_render_rules_refused(rules, data, n + 1);
    } else {
        assert(rules.take(n) == rules);
    }
}

/// Applies `rewrites` to `path`: each rule in its turn has both patterns
/// rendered over `data`, and every occurrence of the rendered `from` in the
/// path, as the rules before it left it, gives way to the rendered `to`.
pub fn apply_path_rewrites(path: &str, rewrites: &Vec<PathRewrite>, data: &RenderData) -> (r:
    Result<String, Error>)
    ensures
        match rewritten(path@, rule_texts(rewrites@), data@) {
            Some(text) => r matches Ok(out) && out@ == text,
            None => r matches Err(Error::Render(_)),
        },
{
    match render_rewrites(rewrites, data) {
        Ok(pairs) => Ok(apply_literal_rewrites(path, &pairs)),
        Err(e) => Err(e),
    }
}

/// The output path of the full template at `template_path`: the path loses
/// its suffix, is rewritten, and is moved from under `root_path` to under
/// `output_root`.
pub fn resolve_output_path(
    template_path: &str,
    root_path: &str,
    output_root: &str,
    rewrites: &Vec<PathRewrite>,
    data: &RenderData,
) -> (r: Result<String, Error>)
    requires
        is_suffix(template_suffix(), template_path@),
    ensures
        match rewritten(
            template_path@.take(template_path@.len() - template_suffix().len()),
            rule_texts(rewrites@),
            data@,
        ) {
            Some(path) => r matches Ok(out) && out@ == relocated(path, root_path@, output_root@),
            None => r matches Err(Error::Render(_)),
        },
{
    let p = to_chars(template_path);
    proof {
        reveal_strlit(".tmpl");
    }
    let stem = copy_range(p.as_slice(), 0, p.len() - 5);
    let stem_text = to_string(stem.as_slice());
    match apply_path_rewrites(stem_text.as_str(), rewrites, data) {
        Ok(path) => Ok(relocate(path.as_str(), root_path, output_root)),
        Err(e) => Err(e),
    }
}

/// The target of the fragment at `fragment_path`: its chunk, and its base
/// path rewritten and moved from under `root_path` to under `output_root`.
pub fn resolve_chunk_target(
    fragment_path: &str,
    root_path: &str,
    output_root: &str,
    rewrites: &Vec<PathRewrite>,
    data: &RenderData,
) -> (r: Result<ChunkTarget, Error>)
    ensures
        match chunk_name_of(fragment_path@) {
            Some(name) => match rewritten(name.base, rule_texts(rewrites@), data@) {
                Some(path) => r matches Ok(target) && target.chunk_id@ == name.chunk_id
                    && target.path@ == relocated(path, root_path@, output_root@),
                None => r matches Err(Error::Render(_)),
            },
            None => r matches Err(e) && e == Error::InvalidChunkName,
        },
{
    let name = match chunk_name(fragment_path) {
        Ok(name) => name,
        Err(e) => {
            return Err(e);
        },
    };
    match apply_path_rewrites(name.base.as_str(), rewrites, data) {
        Ok(path) => Ok(
            ChunkTarget {
                path: relocate(path.as_str(), root_path, output_root),
                chunk_id: name.chunk_id,
            },
        ),
        Err(e) => Err(e),
    }
}

} // verus!
