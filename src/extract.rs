use vstd::prelude::*;

use crate::diver::{dive, lemma_dive_resolves, DiverView, Outcome, Verdict};
use crate::index::{decimal, lemma_decimal, lemma_parse_decimal, render_decimal};
use crate::path::{lemma_split_dots_no_dot, split_dots, tokens_of};
use crate::shape::{locate, size_of_shape, Leaf, Shape};
use crate::sizer::count_view;

verus! {

/// Format for the extracted value.
#[derive(Debug, PartialEq, Eq, Hash, Clone, Copy, Structural)]
pub enum IqFormat {
    /// Extract as display text, but only if the value is a scalar.
    Primitive,
    /// Extract as compact JSON.
    Json,
    /// Extract as indented JSON.
    JsonPretty,
    /// Extract the size of the sequence, map, struct, tuple or string at the
    /// end of the path.
    Size,
}

/// A size query on these tokens counts the root itself: the path is empty,
/// or its first token is.
pub open spec fn sizes_root_spec(keys: Seq<Seq<char>>) -> bool {
    keys.len() == 0 || keys[0].len() == 0
}

/// The size that a size query finds in `s`: the root's for a path that
/// names the root, else the size of the part the path leads to.
pub open spec fn size_at(s: Shape, keys: Seq<Seq<char>>) -> Option<nat> {
    if sizes_root_spec(keys) {
        size_of_shape(s)
    } else {
        match dive(DiverView::start(keys, IqFormat::Size), s) {
            Outcome::Captured(t) => size_of_shape(t),
            Outcome::Settled(_) => None,
        }
    }
}

/// Whether a size query on these tokens counts the root itself, without a
/// traversal.
pub fn sizes_root(keys: &Vec<String>) -> (r: bool)
    ensures
        r == sizes_root_spec(tokens_of(keys@)),
{
    keys.len() == 0 || keys[0].as_str().unicode_len() == 0
}

/// The text of a settled traversal: the display text found, if any.
pub fn verdict_text(v: Verdict) -> (r: Option<String>)
    ensures
        match r {
            Some(t) => v@ == Some(t@),
            None => v@ is None,
        },
{
    match v {
        Verdict::Found(s) => Some(s),
        Verdict::NotFound => None,
    }
}

/// The text of a count: the number in decimal, if there is one.
pub fn count_text(c: Option<usize>) -> (r: Option<String>)
    ensures
        match r {
            Some(t) => count_view(c) matches Some(n) && t@ == decimal(n),
            None => c is None,
        },
{
    match c {
        Some(n) => Some(render_decimal(n)),
        None => None,
    }
}

/// A path that leads to a scalar yields, in `Primitive` format, the scalar's
/// display text, and in the JSON formats the scalar itself, to be rendered.
pub proof fn lemma_scalar_target(s: Shape, keys: Seq<Seq<char>>, l: Leaf)
    requires
        keys.len() > 0,
        locate(s, keys) == Some(Shape::Leaf(l)),
    ensures
        dive(DiverView::start(keys, IqFormat::Primitive), s) == Outcome::Settled(l.display()),
        dive(DiverView::start(keys, IqFormat::Json), s) == Outcome::Captured(Shape::Leaf(l)),
        dive(DiverView::start(keys, IqFormat::JsonPretty), s) == Outcome::Captured(Shape::Leaf(l)),
{
    lemma_dive_resolves(s, keys, IqFormat::Primitive);
    lemma_dive_resolves(s, keys, IqFormat::Json);
    lemma_dive_resolves(s, keys, IqFormat::JsonPretty);
}

/// The empty dotted path and the empty token list both size the root.
pub proof fn lemma_empty_path_sizes_root(s: Shape)
    ensures
        size_at(s, split_dots(Seq::<char>::empty())) == size_of_shape(s),
        size_at(s, Seq::<Seq<char>>::empty()) == size_of_shape(s),
{
    assert(split_dots(Seq::<char>::empty()) == seq![Seq::<char>::empty()]);
}

/// In a sequence, the dotted path made of an index designates the item at
/// that index: its size is the item's size, and an index past the end
/// leads nowhere.
pub proof fn lemma_index_size(declared: Option<nat>, items: Seq<Shape>, i: nat)
    requires
        items.len() <= usize::MAX,
    ensures
        i < items.len() ==> dive(
            DiverView::start(split_dots(decimal(i)), IqFormat::Size),
            Shape::List { declared, items },
        ) == Outcome::Captured(items[i as int]),
        i >= items.len() ==> dive(
            DiverView::start(split_dots(decimal(i)), IqFormat::Size),
            Shape::List { declared, items },
        ) == Outcome::Settled(None),
        size_at(Shape::List { declared, items }, split_dots(decimal(i))) == if i < items.len() {
            size_of_shape(items[i as int])
        } else {
            None
        },
{
    let s = Shape::List { declared, items };
    lemma_decimal(i);
    lemma_split_dots_no_dot(decimal(i));
    let keys = split_dots(decimal(i));
    lemma_dive_resolves(s, keys, IqFormat::Size);
    assert(keys.drop_first().len() == 0);
    if i <= usize::MAX {
        lemma_parse_decimal(i);
        if i < items.len() {
            assert(locate(items[i as int], keys.drop_first()) == Some(items[i as int]));
        }
    }
}

/// A traversal keeps no state from one call to the next: two fresh cursors
/// built from the same path and format reach the same result in the same
/// value, and size queries agree likewise.
pub proof fn lemma_fresh_cursors_agree(
    s: Shape,
    a: Seq<String>,
    b: Seq<String>,
    format: IqFormat,
)
    requires
        tokens_of(a) == tokens_of(b),
    ensures
        dive(DiverView::start(tokens_of(a), format), s) == dive(
            DiverView::start(tokens_of(b), format),
            s,
        ),
        size_at(s, tokens_of(a)) == size_at(s, tokens_of(b)),
{
}

} // verus!
