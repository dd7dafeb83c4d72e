//! What a run is given: the rewrite rules and the variables that templates
//! may name.

use crate::lines::texts;
use crate::text::{copy_range, is_prefix, matches_at, to_chars, to_string};
use vstd::prelude::*;

verus! {

/// One rewrite rule: wherever the rendered `from` stands in a path, the
/// rendered `to` takes its place.
#[derive(Clone, Debug, PartialEq, Eq)]
pub struct PathRewrite {
    pub from: String,
    pub to: String,
}

/// What a [`PathRewrite`] holds, as text.
pub struct RuleText {
    pub from: Seq<char>,
    pub to: Seq<char>,
}

impl View for PathRewrite {
    type V = RuleText;

    open spec fn view(&self) -> RuleText {
        RuleText { from: self.from@, to: self.to@ }
    }
}

/// The views of a sequence of rules.
pub open spec fn rule_texts(rules: Seq<PathRewrite>) -> Seq<RuleText> {
    rules.map_values(|r: PathRewrite| r@)
}

/// The variables of a run. A later entry for a key replaces an earlier one;
/// beyond that the order of the entries means nothing.
#[derive(Clone, Debug, PartialEq, Eq)]
pub struct Context {
    pub entries: Vec<(String, String)>,
}

/// The mapping that a list of entries stands for.
pub open spec fn bindings(entries: Seq<(String, String)>) -> Map<Seq<char>, Seq<char>>
    decreases entries.len(),
{
    if entries.len() == 0 {
        Map::empty()
    } else {
        bindings(entries.drop_last()).insert(entries.last().0@, entries.last().1@)
    }
}

impl View for Context {
    type V = Map<Seq<char>, Seq<char>>;

    open spec fn view(&self) -> Map<Seq<char>, Seq<char>> {
        bindings(self.entries@)
    }
}

/// The configuration of a run: the rewrite rules, in the order in which they
/// apply, and the variables that the configuration itself sets.
#[derive(Clone, Debug, PartialEq, Eq)]
pub struct Config {
    pub path_rewrites: Vec<PathRewrite>,
    pub args: Context,
}

/// `s` without the pairs of dashes at its beginning.
pub open spec fn without_dashes(s: Seq<char>) -> Seq<char>
    decreases s.len(),
{
    if is_prefix(seq!['-', '-'], s) {
        without_dashes(s.skip(2))
    } else {
        s
    }
}

/// The mapping that alternating keys and values stand for. A key loses the
/// dashes it begins with; of two values for one key the later one stays.
pub open spec fn overrides_of(tokens: Seq<Seq<char>>) -> Map<Seq<char>, Seq<char>>
    decreases tokens.len(),
{
    if tokens.len() < 2 {
        Map::empty()
    } else {
        overrides_of(tokens.take(tokens.len() - 2)).insert(
            without_dashes(tokens[tokens.len() - 2]),
            tokens.last(),
        )
    }
}

/// Appending one entry is inserting it into the mapping.
proof fn lemma_bindings_push(entries: Seq<(String, String)>, entry: (String, String))
    ensures
        bindings(entries.push(entry)) == bindings(entries).insert(entry.0@, entry.1@),
{
    assert(entries.push(entry).drop_last() == entries);
}

impl Context {
    /// The context without variables.
    pub fn new() -> (ctx: Context)
        ensures
            ctx@ =~= Map::empty(),
    {
        Context { entries: Vec::new() }
    }

    /// Sets `key` to `value`, whatever it was before.
    pub fn insert(&mut self, key: &str, value: &str)
        ensures
            final(self)@ == old(self)@.insert(key@, value@),
    {
        let entry = (key.to_owned(), value.to_owned());
        proof {
            lemma_bindings_push(self.entries@, entry);
        }
        self.entries.push(entry);
    }

    /// The value of `key`, if it has one.
    pub fn get(&self, key: &str) -> (r: Option<String>)
        ensures
            match r {
                Some(v) => self@.dom().contains(key@) && self@[key@] == v@,
                None => !self@.dom().contains(key@),
            },
    {
        let wanted = key.to_owned();
        let mut i: usize = self.entries.len();
        assert(self.entries@.take(i as int) == self.entries@);
        while i > 0
            invariant
                i <= self.entries@.len(),
                wanted@ == key@,
                self@.dom().contains(key@) == bindings(self.entries@.take(i as int)).dom().contains(
                    key@,
                ),
                self@.dom().contains(key@) ==> self@[key@] == bindings(
                    self.entries@.take(i as int),
                )[key@],
            decreases i,
        {
            assert(self.entries@.take(i as int).drop_last() == self.entries@.take(i - 1));
            i = i - 1;
            if self.entries[i].0 == wanted {
                return Some(self.entries[i].1.clone());
            }
        }
        None
    }

    /// The variables of `base` and of `overrides` together. Where both set a
    /// key, the value from `overrides` stays.
    pub fn merge(base: &Context, overrides: &Context) -> (ctx: Context)
        ensures
            ctx@ == base@.union_prefer_right(overrides@),
    {
        let mut entries: Vec<(String, String)> = Vec::new();
        let mut i: usize = 0;
        while i < base.entries.len()
            invariant
                i <= base.entries@.len(),
                entries@ == base.entries@.take(i as int),
            decreases base.entries@.len() - i,
        {
            entries.push((base.entries[i].0.clone(), base.entries[i].1.clone()));
            assert(base.entries@.take(i + 1) == base.entries@.take(i as int).push(
                base.entries@[i as int],
            ));
            i = i + 1;
        }
        assert(base.entries@.take(i as int) == base.entries@);
        let mut k: usize = 0;
        assert(overrides.entries@.take(0) == Seq::<(String, String)>::empty());
        assert(base@.union_prefer_right(Map::empty()) == base@);
        while k < overrides.entries.len()
            invariant
                k <= overrides.entries@.len(),
                bindings(entries@) == base@.union_prefer_right(
                    bindings(overrides.entries@.take(k as int)),
                ),
            decreases overrides.entries@.len() - k,
        {
            let entry = (overrides.entries[k].0.clone(), overrides.entries[k].1.clone());
            proof {
                let upto = overrides.entries@.take(k + 1);
                assert(upto.drop_last() == overrides.entries@.take(k as int));
                assert(upto.last() == entry);
                lemma_bindings_push(entries@, entry);
                assert(base@.union_prefer_right(bindings(upto)) == base@.union_prefer_right(
                    bindings(upto.drop_last()),
                ).insert(entry.0@, entry.1@));
            }
            entries.push(entry);
            k = k + 1;
        }
        assert(overrides.entries@.take(k as int) == overrides.entries@);
        Context { entries }
    }

    /// The variables that alternating keys and values set, as they come from
    /// a command line: `--name`, `value`, `--other`, `value`.
    pub fn from_pairs(tokens: &Vec<String>) -> (ctx: Context)
        requires
            tokens@.len() % 2 == 0,
        ensures
            ctx@ == overrides_of(texts(tokens@)),
    {
        let mut entries: Vec<(String, String)> = Vec::new();
        let mut i: usize = 0;
        assert(texts(tokens@).take(0).len() == 0);
        while i < tokens.len()
            invariant
                i <= tokens@.len(),
                i % 2 == 0,
                tokens@.len() % 2 == 0,
                bindings(entries@) == overrides_of(texts(tokens@).take(i as int)),
            decreases tokens@.len() - i,
        {
            let key = strip_dashes(tokens[i].as_str());
            let entry = (key, tokens[i + 1].clone());
            proof {
                let upto = texts(tokens@).take(i + 2);
                assert(upto.take(upto.len() - 2) == texts(tokens@).take(i as int));
                lemma_bindings_push(entries@, entry);
            }
            entries.push(entry);
            i = i + 2;
        }
        assert(texts(tokens@).take(i as int) == texts(tokens@));
        Context { entries }
    }
}

/// Computes [`without_dashes`].
pub fn strip_dashes(key: &str) -> (r: String)
    ensures
        r@ == without_dashes(key@),
{
    let s = to_chars(key);
    let mut dashes: Vec<char> = Vec::new();
    dashes.push('-');
    dashes.push('-');
    assert(dashes@ == seq!['-', '-']);
    let n = s.len();
    let mut i: usize = 0;
    assert(s@.skip(0) == s@);
    while matches_at(s.as_slice(), dashes.as_slice(), i)
        invariant
            i <= s@.len() == n,
            dashes@ == seq!['-', '-'],
            without_dashes(s@) == without_dashes(s@.skip(i as int)),
        decreases s@.len() - i,
    {
        proof {
            crate::edit::lemma_occurs_at_skip(s@, dashes@, i as int);
            assert(s@.skip(i as int).skip(2) == s@.skip(i + 2));
        }
        i = i + 2;
    }
    proof {
        crate::edit::lemma_occurs_at_skip(s@, dashes@, i as int);
    }
    let rest = copy_range(s.as_slice(), i, n);
    assert(rest@ == s@.skip(i as int));
    to_string(rest.as_slice())
}

} // verus!
