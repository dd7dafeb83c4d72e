//! The template renderer.
//!
//! Rendering is the work of the `handlebars` crate, which takes its data as a
//! `serde_json` map. Nothing here is proved of either: what this module
//! states of them is named, and every contract that depends on rendering
//! speaks of [`render_of`], which rests on the name [`rendered`].
//!
//! The renderer is handed only templates that are [`renderable`]: it has no
//! guard of its own against a partial that includes itself, nor against
//! nesting that uses up the stack.

use crate::config::Context;
use crate::error::Error;
use crate::text::{contains, matches_at, occurs_at, to_chars};
use vstd::prelude::*;

verus! {

/// `serde_json::Map`, the map that the renderer reads its data from. Nothing
/// inside it is visible here; [`data_entries`] names what it holds.
#[verifier::external_type_specification]
#[verifier::external_body]
#[verifier::reject_recursive_types(K)]
#[verifier::reject_recursive_types(V)]
pub struct ExJsonMap<K, V>(serde_json::Map<K, V>);

/// `serde_json::Value`, the values of that map. Nothing inside it is visible
/// here.
#[verifier::external_type_specification]
#[verifier::external_body]
pub struct ExJsonValue(serde_json::Value);

/// `handlebars::RenderError`, the renderer's refusal. Nothing inside it is
/// visible here; its message is all that is taken from it.
#[verifier::external_type_specification]
#[verifier::external_body]
pub struct ExRenderError(handlebars::RenderError);

/// The string entries of a JSON map: each key with the text of its value.
pub uninterp spec fn data_entries(data: serde_json::Map<String, serde_json::Value>) -> Map<
    Seq<char>,
    Seq<char>,
>;

/// What `handlebars` makes of `template` over the variables `entries`:
/// the rendered text, or `None` where it refuses the template.
pub uninterp spec fn rendered(template: Seq<char>, entries: Map<Seq<char>, Seq<char>>) -> Option<
    Seq<char>,
>;

/// `serde_json::Map::new`: a map without entries.
#[verifier::external_body]
fn data_new() -> (r: serde_json::Map<String, serde_json::Value>)
    ensures
        data_entries(r) =~= Map::empty(),
{
    serde_json::Map::new()
}

/// `serde_json::Map::insert`, with the value as a JSON string: afterwards
/// the map holds `value` under `key`, in place of what it held there, and
/// its other entries as before.
#[verifier::external_body]
fn data_insert(data: &mut serde_json::Map<String, serde_json::Value>, key: String, value: String)
    ensures
        data_entries(*final(data)) == data_entries(*old(data)).insert(key@, value@),
{
    data.insert(key, serde_json::Value::String(value));
}

/// The message of a `handlebars::RenderError`, as its `Display` gives it.
#[verifier::external_body]
fn error_message(e: &handlebars::RenderError) -> String {
    e.to_string()
}

/// The variables of a run in the form the renderer reads.
pub struct RenderData {
    data: serde_json::Map<String, serde_json::Value>,
}

impl View for RenderData {
    type V = Map<Seq<char>, Seq<char>>;

    closed spec fn view(&self) -> Map<Seq<char>, Seq<char>> {
        data_entries(self.data)
    }
}

impl RenderData {
    /// The variables of `ctx`.
    pub fn new(ctx: &Context) -> (data: RenderData)
        ensures
            data@ == ctx@,
    {
        let mut data = data_new();
        let mut i: usize = 0;
        assert(ctx.entries@.take(0) == Seq::<(String, String)>::empty());
        while i < ctx.entries.len()
            invariant
                i <= ctx.entries@.len(),
                data_entries(data) == crate::config::bindings(ctx.entries@.take(i as int)),
            decreases ctx.entries@.len() - i,
        {
            proof {
                let upto = ctx.entries@.take(i + 1);
                assert(upto.drop_last() == ctx.entries@.take(i as int));
                assert(upto.last() == ctx.entries@[i as int]);
            }
            data_insert(&mut data, ctx.entries[i].0.clone(), ctx.entries[i].1.clone());
            i = i + 1;
        }
        assert(ctx.entries@.take(i as int) == ctx.entries@);
        RenderData { data }
    }
}

/// What the renderer's answer means for a run: its text, or the error
/// [`Error::Render`] with the renderer's message.
pub fn render_outcome(answer: Result<String, String>) -> (r: Result<String, Error>)
    ensures
        match answer {
            Ok(text) => r matches Ok(out) && out == text,
            Err(message) => r matches Err(e) && e == Error::Render(message),
        },
{
    match answer {
        Ok(text) => Ok(text),
        Err(message) => Err(Error::Render(message)),
    }
}

/// How much nesting a template may hold and still be handed to the
/// renderer.
pub const MAX_NESTING: usize = 32;

/// What opens a tag.
pub open spec fn tag_open() -> Seq<char> {
    "{{"@
}

/// What closes a tag.
pub open spec fn tag_close() -> Seq<char> {
    "}}"@
}

/// The word that chains a block to the next.
pub open spec fn else_word() -> Seq<char> {
    "else"@
}

/// `template` holds no expression at all: no tag opens in it.
pub open spec fn is_plain(template: Seq<char>) -> bool {
    !contains(template, tag_open())
}

/// The position `p` of `t` lies in a tag: after a `{{` that does not open a
/// comment (`{{!`), and before the next `}}`. Whatever the renderer reads as
/// an expression or a block lies in a tag; so may more.
pub open spec fn in_tag(t: Seq<char>, p: int) -> bool
    decreases p,
{
    if p < 0 || p >= t.len() || occurs_at(t, tag_close(), p) {
        false
    } else {
        (p >= 2 && occurs_at(t, tag_open(), p - 2) && t[p] != '!') || (p > 0 && in_tag(t, p - 1))
    }
}

/// The characters that no tag of a renderable template holds. Quotes and
/// `[` begin text in which a `}}` would not close the tag; `>` calls a
/// partial and `*` defines one, which is how a template includes itself
/// without end; `^` chains blocks as `else` does.
pub open spec fn is_refused(c: char) -> bool {
    c == '"' || c == '\'' || c == '[' || c == '*' || c == '>' || c == '^'
}

/// Something at `p` may open a level of nesting: a block (`#`), a
/// subexpression (`(`), or a chained block (`else`), in a tag.
pub open spec fn nests_at(t: Seq<char>, p: int) -> bool {
    in_tag(t, p) && (t[p] == '#' || t[p] == '(' || occurs_at(t, else_word(), p))
}

/// How many positions before `n` may open a level of nesting. The renderer
/// never nests deeper than this.
pub open spec fn nesting(t: Seq<char>, n: int) -> nat
    decreases n,
{
    if n <= 0 {
        0
    } else {
        nesting(t, n - 1) + if nests_at(t, n - 1) {
            1nat
        } else {
            0nat
        }
    }
}

/// `template` can be handed to the renderer: its tags hold no refused
/// character, and it nests no deeper than [`MAX_NESTING`]. On such a template
/// the renderer cannot include a partial in itself, and its recursion is
/// bounded.
pub open spec fn renderable(template: Seq<char>) -> bool {
    &&& forall|p: int|
        0 <= p < template.len() && #[trigger] in_tag(template, p) ==> !is_refused(template[p])
    &&& nesting(template, template.len() as int) <= MAX_NESTING
}

/// What rendering `template` over `data` gives: nothing for a template that
/// is not renderable, the template itself where it is plain, and else what
/// the renderer makes of it.
pub open spec fn render_of(template: Seq<char>, data: Map<Seq<char>, Seq<char>>) -> Option<
    Seq<char>,
> {
    if !renderable(template) {
        None
    } else if is_plain(template) {
        Some(template)
    } else {
        rendered(template, data)
    }
}

/// Nesting only grows along the template.
proof fn lemma_nesting_grows(t: Seq<char>, a: int, b: int)
    requires
        a <= b,
    ensures
        nesting(t, a) <= nesting(t, b),
    decreases b - a,
{
    if a < b {
        lemma_nesting_grows(t, a, b - 1);
    }
}

/// No position of a plain template lies in a tag.
proof fn lemma_plain_has_no_tag(t: Seq<char>, p: int)
    requires
        is_plain(t),
    ensures
        !in_tag(t, p),
    decreases p,
{
    if 0 < p < t.len() {
        lemma_plain_has_no_tag(t, p - 1);
    }
}

/// A plain template nests nothing.
proof fn lemma_plain_nests_nothing(t: Seq<char>, n: int)
    requires
        is_plain(t),
    ensures
        nesting(t, n) == 0,
    decreases n,
{
    if n > 0 {
        lemma_plain_nests_nothing(t, n - 1);
        lemma_plain_has_no_tag(t, n - 1);
    }
}

/// A template without expressions is renderable, and renders to itself over
/// any variables.
pub proof fn lemma_plain_template_unchanged(template: Seq<char>, data: Map<Seq<char>, Seq<char>>)
    requires
        is_plain(template),
    ensures
        renderable(template),
        render_of(template, data) == Some(template),
{
    lemma_plain_nests_nothing(template, template.len() as int);
    assert forall|p: int| 0 <= p < template.len() implies !in_tag(template, p) by {
        lemma_plain_has_no_tag(template, p);
    }
}

/// Decides [`renderable`].
pub fn is_renderable(template: &str) -> (b: bool)
    ensures
        b == renderable(template@),
{
    let t = to_chars(template);
    let open = to_chars("{{");
    let close = to_chars("}}");
    let word = to_chars("else");
    let n = t.len();
    let mut live = false;
    let mut weight: usize = 0;
    let mut p: usize = 0;
    while p < n
        invariant
            p <= n == t@.len(),
            t@ == template@,
            open@ == tag_open(),
            close@ == tag_close(),
            word@ == else_word(),
            live == in_tag(t@, p - 1),
            weight == nesting(t@, p as int),
            weight <= MAX_NESTING,
            forall|q: int| 0 <= q < p && #[trigger] in_tag(t@, q) ==> !is_refused(t@[q]),
        decreases n - p,
    {
        let closes = matches_at(t.as_slice(), close.as_slice(), p);
        let opens = p >= 2 && matches_at(t.as_slice(), open.as_slice(), p - 2);
        live = !closes && ((opens && t[p] != '!') || live);
        assert(live == in_tag(t@, p as int));
        if live {
            let c = t[p];
            if c == '"' || c == '\'' || c == '[' || c == '*' || c == '>' || c == '^' {
                assert(in_tag(t@, p as int) && is_refused(t@[p as int]));
                return false;
            }
            if c == '#' || c == '(' || matches_at(t.as_slice(), word.as_slice(), p) {
                if weight == MAX_NESTING {
                    proof {
                        lemma_nesting_grows(t@, p + 1, n as int);
                    }
                    return false;
                }
                weight = weight + 1;
            }
        }
        p = p + 1;
    }
    true
}

/// `handlebars::Handlebars::render_template` on a registry as
/// `Handlebars::new` makes it, for a renderable template. Claimed of it:
///
/// - whether it succeeds, and the text on success, depend on the template and
///   on the variables alone (the map keeps its entries ordered by key, so the
///   order of insertion does not show);
/// - a template in which no `{{` stands comes back as it is: the grammar
///   reads such a template as one run of raw text, and raw text is written
///   out unchanged.
///
/// Of any other template nothing is claimed of what the text is.
#[verifier::external_body]
fn render_template(template: &str, data: &RenderData) -> (r: Result<
    String,
    handlebars::RenderError,
>)
    requires
        renderable(template@),
    ensures
        match r {
            Ok(text) => rendered(template@, data@) == Some(text@) && (is_plain(template@)
                ==> text@ == template@),
            Err(_) => rendered(template@, data@) is None && !is_plain(template@),
        },
{
    handlebars::Handlebars::new().render_template(template, &data.data)
}

/// Renders `template` over `data`. A template that is not renderable is
/// refused here and never reaches the renderer.
pub fn render(template: &str, data: &RenderData) -> (r: Result<String, Error>)
    ensures
        match render_of(template@, data@) {
            Some(text) => r matches Ok(out) && out@ == text,
            None => r matches Err(Error::Render(_)),
        },
{
    if !is_renderable(template) {
        return render_outcome(
            Err("the template nests too deeply, or uses partials or quoted text in a tag".to_owned()),
        );
    }
    match render_template(template, data) {
        Ok(text) => render_outcome(Ok(text)),
        Err(e) => render_outcome(Err(error_message(&e))),
    }
}

} // verus!
