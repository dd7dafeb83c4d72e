//! Text as sequences of characters.
//!
//! Every contract in this crate speaks of text through its view, a
//! `Seq<char>`. The executable functions here work on character slices;
//! [`to_chars`] and [`to_string`] move between them and `str` / `String`.

use vstd::prelude::*;

verus! {

/// The characters of `s`, in order.
pub fn to_chars(s: &str) -> (v: Vec<char>)
    ensures
        v@ == s@,
{
    let mut v: Vec<char> = Vec::new();
    for c in it: s.chars()
        invariant
            v@ == it.seq().take(it.index() as int),
            it.seq() == s@,
    {
        v.push(c);
    }
    v
}

/// `String::push`: the string grows by exactly the one character `c`, at its
/// end. Not proved; it is what the standard library documents of `push`.
#[verifier::external_body]
fn push_char(s: &mut String, c: char)
    ensures
        final(s)@ == old(s)@.push(c),
{
    s.push(c)
}

/// The string that holds the characters of `s`, in order.
pub fn to_string(s: &[char]) -> (r: String)
    ensures
        r@ == s@,
{
    let mut r = String::new();
    let mut i: usize = 0;
    while i < s.len()
        invariant
            i <= s@.len(),
            r@ == s@.take(i as int),
        decreases s@.len() - i,
    {
        push_char(&mut r, s[i]);
        i = i + 1;
    }
    r
}

/// A copy of the characters `s[from..to]`.
pub fn copy_range(s: &[char], from: usize, to: usize) -> (v: Vec<char>)
    requires
        from <= to <= s@.len(),
    ensures
        v@ == s@.subrange(from as int, to as int),
{
    let mut v: Vec<char> = Vec::new();
    let mut i: usize = from;
    while i < to
        invariant
            from <= i <= to <= s@.len(),
            v@ == s@.subrange(from as int, i as int),
        decreases to - i,
    {
        v.push(s[i]);
        i = i + 1;
    }
    v
}

/// Appends the characters of `s` to `out`.
pub fn append(out: &mut Vec<char>, s: &[char])
    ensures
        final(out)@ == old(out)@ + s@,
{
    let mut i: usize = 0;
    while i < s.len()
        invariant
            i <= s@.len(),
            out@ == old(out)@ + s@.take(i as int),
        decreases s@.len() - i,
    {
        out.push(s[i]);
        i = i + 1;
    }
}

/// Whether the two slices hold the same characters.
pub fn same(a: &[char], b: &[char]) -> (r: bool)
    ensures
        r == (a@ == b@),
{
    if a.len() != b.len() {
        return false;
    }
    let mut i: usize = 0;
    while i < a.len()
        invariant
            i <= a@.len(),
            a@.len() == b@.len(),
            a@.take(i as int) == b@.take(i as int),
        decreases a@.len() - i,
    {
        if a[i] != b[i] {
            assert(a@[i as int] != b@[i as int]);
            return false;
        }
        assert(a@.take(i + 1) == a@.take(i as int).push(a@[i as int]));
        assert(b@.take(i + 1) == b@.take(i as int).push(b@[i as int]));
        i = i + 1;
    }
    assert(a@.take(a@.len() as int) == a@);
    assert(b@.take(b@.len() as int) == b@);
    true
}

/// The characters with the Unicode property `White_Space`.
pub open spec fn is_whitespace(c: char) -> bool {
    let n = c as u32;
    ||| 0x09 <= n <= 0x0D
    ||| n == 0x20
    ||| n == 0x85
    ||| n == 0xA0
    ||| n == 0x1680
    ||| 0x2000 <= n <= 0x200A
    ||| n == 0x2028
    ||| n == 0x2029
    ||| n == 0x202F
    ||| n == 0x205F
    ||| n == 0x3000
}

/// Decides [`is_whitespace`].
pub fn whitespace(c: char) -> (b: bool)
    ensures
        b == is_whitespace(c),
{
    let n: u32 = c as u32;
    (0x09 <= n && n <= 0x0D) || n == 0x20 || n == 0x85 || n == 0xA0 || n == 0x1680 || (0x2000 <= n
        && n <= 0x200A) || n == 0x2028 || n == 0x2029 || n == 0x202F || n == 0x205F || n == 0x3000
}

/// `needle` stands in `hay` at index `i`.
pub open spec fn occurs_at(hay: Seq<char>, needle: Seq<char>, i: int) -> bool {
    &&& 0 <= i
    &&& i + needle.len() <= hay.len()
    &&& hay.subrange(i, i + needle.len()) == needle
}

/// `needle` stands somewhere in `hay`.
pub open spec fn contains(hay: Seq<char>, needle: Seq<char>) -> bool {
    exists|i: int| occurs_at(hay, needle, i)
}

/// `i` is the least index at which `needle` stands in `hay`.
pub open spec fn is_first_occurrence(hay: Seq<char>, needle: Seq<char>, i: int) -> bool {
    &&& occurs_at(hay, needle, i)
    &&& forall|j: int| 0 <= j < i ==> !occurs_at(hay, needle, j)
}

/// `i` is the greatest index at which `needle` stands in `hay`.
pub open spec fn is_last_occurrence(hay: Seq<char>, needle: Seq<char>, i: int) -> bool {
    &&& occurs_at(hay, needle, i)
    &&& forall|j: int| i < j ==> !occurs_at(hay, needle, j)
}

/// The least index at which `needle` stands in `hay`, if it stands anywhere.
pub open spec fn first_occurrence(hay: Seq<char>, needle: Seq<char>) -> Option<int> {
    if contains(hay, needle) {
        Some(choose|i: int| is_first_occurrence(hay, needle, i))
    } else {
        None
    }
}

/// The greatest index at which `needle` stands in `hay`, if it stands anywhere.
pub open spec fn last_occurrence(hay: Seq<char>, needle: Seq<char>) -> Option<int> {
    if contains(hay, needle) {
        Some(choose|i: int| is_last_occurrence(hay, needle, i))
    } else {
        None
    }
}

/// `p` is the beginning of `s`.
pub open spec fn is_prefix(p: Seq<char>, s: Seq<char>) -> bool {
    occurs_at(s, p, 0)
}

/// `p` is the end of `s`.
pub open spec fn is_suffix(p: Seq<char>, s: Seq<char>) -> bool {
    occurs_at(s, p, s.len() - p.len())
}

/// A least index with `occurs_at` below `bound` exists whenever any does.
proof fn lemma_least_occurrence(hay: Seq<char>, needle: Seq<char>, bound: int)
    requires
        occurs_at(hay, needle, bound),
    ensures
        exists|i: int| is_first_occurrence(hay, needle, i),
    decreases bound,
{
    if exists|j: int| 0 <= j < bound && occurs_at(hay, needle, j) {
        let j = choose|j: int| 0 <= j < bound && occurs_at(hay, needle, j);
        lemma_least_occurrence(hay, needle, j);
    } else {
        assert(is_first_occurrence(hay, needle, bound));
    }
}

/// A greatest index with `occurs_at` exists whenever any does.
proof fn lemma_greatest_occurrence(hay: Seq<char>, needle: Seq<char>, bound: int)
    requires
        occurs_at(hay, needle, bound),
    ensures
        exists|i: int| is_last_occurrence(hay, needle, i),
    decreases hay.len() - bound,
{
    if exists|j: int| bound < j && occurs_at(hay, needle, j) {
        let j = choose|j: int| bound < j && occurs_at(hay, needle, j);
        lemma_greatest_occurrence(hay, needle, j);
    } else {
        assert(is_last_occurrence(hay, needle, bound));
    }
}

/// The first occurrence is the index that `is_first_occurrence` describes.
pub proof fn lemma_first_occurrence(hay: Seq<char>, needle: Seq<char>, i: int)
    requires
        is_first_occurrence(hay, needle, i),
    ensures
        first_occurrence(hay, needle) == Some(i),
{
    let c = choose|c: int| is_first_occurrence(hay, needle, c);
    assert(is_first_occurrence(hay, needle, c));
    assert(c == i) by {
        if c < i {
            assert(!occurs_at(hay, needle, c));
        } else if i < c {
            assert(!occurs_at(hay, needle, i));
        }
    }
}

/// The last occurrence is the index that `is_last_occurrence` describes.
pub proof fn lemma_last_occurrence(hay: Seq<char>, needle: Seq<char>, i: int)
    requires
        is_last_occurrence(hay, needle, i),
    ensures
        last_occurrence(hay, needle) == Some(i),
{
    let c = choose|c: int| is_last_occurrence(hay, needle, c);
    assert(is_last_occurrence(hay, needle, c));
    assert(c == i) by {
        if c < i {
            assert(!occurs_at(hay, needle, i));
        } else if i < c {
            assert(!occurs_at(hay, needle, c));
        }
    }
}

/// What `first_occurrence` returns is a first occurrence, and it returns
/// `None` only where `needle` stands nowhere.
pub proof fn lemma_first_occurrence_found(hay: Seq<char>, needle: Seq<char>)
    ensures
        match first_occurrence(hay, needle) {
            Some(i) => is_first_occurrence(hay, needle, i),
            None => forall|j: int| !occurs_at(hay, needle, j),
        },
{
    if contains(hay, needle) {
        let w = choose|w: int| occurs_at(hay, needle, w);
        lemma_least_occurrence(hay, needle, w);
    }
}

/// What `last_occurrence` returns is a last occurrence, and it returns
/// `None` only where `needle` stands nowhere.
pub proof fn lemma_last_occurrence_found(hay: Seq<char>, needle: Seq<char>)
    ensures
        match last_occurrence(hay, needle) {
            Some(i) => is_last_occurrence(hay, needle, i),
            None => forall|j: int| !occurs_at(hay, needle, j),
        },
{
    if contains(hay, needle) {
        let w = choose|w: int| occurs_at(hay, needle, w);
        lemma_greatest_occurrence(hay, needle, w);
    }
}

/// Decides [`occurs_at`].
pub fn matches_at(hay: &[char], needle: &[char], i: usize) -> (r: bool)
    ensures
        r == occurs_at(hay@, needle@, i as int),
{
    if needle.len() > hay.len() || i > hay.len() - needle.len() {
        return false;
    }
    let mut k: usize = 0;
    while k < needle.len()
        invariant
            k <= needle@.len(),
            i + needle@.len() <= hay@.len() <= usize::MAX,
            hay@.subrange(i as int, i + k) == needle@.take(k as int),
        decreases needle@.len() - k,
    {
        if hay[i + k] != needle[k] {
            assert(hay@.subrange(i as int, i + needle@.len())[k as int] != needle@[k as int]);
            return false;
        }
        assert(hay@.subrange(i as int, i + k + 1) == hay@.subrange(i as int, i + k).push(
            hay@[i + k],
        ));
        assert(needle@.take(k + 1) == needle@.take(k as int).push(needle@[k as int]));
        k = k + 1;
    }
    assert(needle@.take(needle@.len() as int) == needle@);
    true
}

/// Decides [`is_prefix`].
pub fn starts_with(s: &[char], p: &[char]) -> (r: bool)
    ensures
        r == is_prefix(p@, s@),
{
    matches_at(s, p, 0)
}

/// Decides [`is_suffix`].
pub fn ends_with(s: &[char], p: &[char]) -> (r: bool)
    ensures
        r == is_suffix(p@, s@),
{
    if p.len() > s.len() {
        return false;
    }
    matches_at(s, p, s.len() - p.len())
}

/// The index of the first occurrence of `needle` in `hay`.
pub fn find(hay: &[char], needle: &[char]) -> (r: Option<usize>)
    ensures
        match r {
            Some(i) => first_occurrence(hay@, needle@) == Some(i as int) && is_first_occurrence(
                hay@,
                needle@,
                i as int,
            ),
            None => first_occurrence(hay@, needle@) is None,
        },
{
    if needle.len() > hay.len() {
        assert(!contains(hay@, needle@));
        return None;
    }
    let last: usize = hay.len() - needle.len();
    let mut i: usize = 0;
    while i < last
        invariant
            i <= last,
            last == hay@.len() - needle@.len(),
            forall|j: int| 0 <= j < i ==> !occurs_at(hay@, needle@, j),
        decreases last - i,
    {
        if matches_at(hay, needle, i) {
            proof {
                lemma_first_occurrence(hay@, needle@, i as int);
            }
            return Some(i);
        }
        i = i + 1;
    }
    if matches_at(hay, needle, last) {
        proof {
            lemma_first_occurrence(hay@, needle@, last as int);
        }
        return Some(last);
    }
    assert(!contains(hay@, needle@));
    None
}

/// The index of the last occurrence of `needle` in `hay`.
pub fn rfind(hay: &[char], needle: &[char]) -> (r: Option<usize>)
    ensures
        match r {
            Some(i) => last_occurrence(hay@, needle@) == Some(i as int) && is_last_occurrence(
                hay@,
                needle@,
                i as int,
            ),
            None => last_occurrence(hay@, needle@) is None,
        },
{
    if needle.len() > hay.len() {
        assert(!contains(hay@, needle@));
        return None;
    }
    let mut i: usize = hay.len() - needle.len();
    while i > 0
        invariant
            i <= hay@.len() - needle@.len(),
            forall|j: int| i < j ==> !occurs_at(hay@, needle@, j),
        decreases i,
    {
        if matches_at(hay, needle, i) {
            proof {
                lemma_last_occurrence(hay@, needle@, i as int);
            }
            return Some(i);
        }
        i = i - 1;
    }
    if matches_at(hay, needle, 0) {
        proof {
            lemma_last_occurrence(hay@, needle@, 0);
        }
        return Some(0);
    }
    assert(!contains(hay@, needle@));
    None
}

/// Decides [`contains`].
pub fn has(hay: &[char], needle: &[char]) -> (r: bool)
    ensures
        r == contains(hay@, needle@),
{
    find(hay, needle).is_some()
}

/// The index of the first `c` in `s`.
pub fn find_char(s: &[char], c: char) -> (r: Option<usize>)
    ensures
        match r {
            Some(i) => first_occurrence(s@, seq![c]) == Some(i as int) && i < s@.len() && s@[i as int]
                == c,
            None => first_occurrence(s@, seq![c]) is None,
        },
{
    let mut needle: Vec<char> = Vec::new();
    needle.push(c);
    assert(needle@ == seq![c]);
    let r = find(s, needle.as_slice());
    proof {
        if let Some(i) = r {
            assert(s@.subrange(i as int, i + 1)[0] == c);
        }
    }
    r
}

/// The index of the last `c` in `s`.
pub fn rfind_char(s: &[char], c: char) -> (r: Option<usize>)
    ensures
        match r {
            Some(i) => last_occurrence(s@, seq![c]) == Some(i as int) && i < s@.len() && s@[i as int]
                == c,
            None => last_occurrence(s@, seq![c]) is None,
        },
{
    let mut needle: Vec<char> = Vec::new();
    needle.push(c);
    assert(needle@ == seq![c]);
    let r = rfind(s, needle.as_slice());
    proof {
        if let Some(i) = r {
            assert(s@.subrange(i as int, i + 1)[0] == c);
        }
    }
    r
}

} // verus!
