use vstd::prelude::*;

use crate::extract::IqFormat;
use crate::index::{parse_index, parse_index_token};
use crate::path::tokens_of;
use crate::shape::{child, find_field, find_key, lemma_find_bounds, locate, unquote, Leaf, Shape};

verus! {

/// What the traversal does with the child that is announced next.
#[derive(Debug, PartialEq, Eq, Clone, Copy, Structural)]
pub enum Visit {
    /// Do not look into it: it is not on the path.
    Skip,
    /// Walk into it: it is on the path.
    Enter,
    /// It is the target: render it or count it, as the format says.
    Capture,
}

/// Whether a container's walk goes on into its children, or the traversal is
/// settled with a result.
#[derive(Debug, PartialEq, Eq)]
pub enum Flow<T> {
    Go,
    Done(T),
}

/// A settled traversal: the path leads nowhere, or to a scalar's display text.
#[derive(Debug, PartialEq, Eq)]
pub enum Verdict {
    NotFound,
    Found(String),
}

impl View for Verdict {
    type V = Option<Seq<char>>;

    open spec fn view(&self) -> Option<Seq<char>> {
        match self {
            Verdict::NotFound => None,
            Verdict::Found(s) => Some(s@),
        }
    }
}

/// The traversal's cursor, as Verus sees it.
pub struct DiverView {
    /// The tokens of the path.
    pub keys: Seq<Seq<char>>,
    /// How many tokens are matched.
    pub next: nat,
    /// The index that the innermost sequence on the path is asked for.
    pub requested: nat,
    /// How many items of that sequence were passed.
    pub current: nat,
    /// The path is matched: the next scalar is the result.
    pub capturing: bool,
    /// The last map key matched the current token.
    pub accept: bool,
    pub format: IqFormat,
}

impl DiverView {
    /// A fresh cursor at the root.
    pub open spec fn start(keys: Seq<Seq<char>>, format: IqFormat) -> DiverView {
        DiverView {
            keys,
            next: 0,
            requested: 0,
            current: 0,
            capturing: false,
            accept: false,
            format,
        }
    }

    /// Still looking for the child that the current token designates.
    pub open spec fn seeking(self) -> bool {
        !self.capturing && self.next < self.keys.len()
    }

    /// The token to match next.
    pub open spec fn token(self) -> Seq<char> {
        self.keys[self.next as int]
    }

    /// The cursor once the current token matched a child, and what to do
    /// with that child.
    pub open spec fn advanced(self) -> (DiverView, Visit) {
        let d = DiverView { next: self.next + 1, accept: false, ..self };
        if d.next < d.keys.len() {
            (d, Visit::Enter)
        } else if self.format == IqFormat::Primitive {
            (DiverView { capturing: true, ..d }, Visit::Enter)
        } else {
            (d, Visit::Capture)
        }
    }

    /// The result when a scalar is announced.
    pub open spec fn leaf_step(self, l: Leaf) -> Option<Seq<char>> {
        if self.capturing {
            l.display()
        } else {
            None
        }
    }

    /// A variant with a payload announces its name first: the result if the
    /// variant is the target, else the walk goes on into the payload.
    pub open spec fn variant_step(self, name: Seq<char>) -> Option<Option<Seq<char>>> {
        if self.capturing {
            Some(Some(name))
        } else {
            None
        }
    }

    /// A sequence starts: the current token must be an index.
    pub open spec fn seq_step(self) -> (DiverView, Option<Option<Seq<char>>>) {
        if !self.seeking() {
            (self, Some(None))
        } else {
            match parse_index(self.token()) {
                Some(i) => (DiverView { requested: i, current: 0, accept: false, ..self }, None),
                None => (self, Some(None)),
            }
        }
    }

    /// A map or a struct starts.
    pub open spec fn keyed_step(self) -> (DiverView, Option<Option<Seq<char>>>) {
        if !self.seeking() {
            (self, Some(None))
        } else {
            (DiverView { accept: false, ..self }, None)
        }
    }

    /// An item of the current sequence is announced.
    pub open spec fn element_step(self) -> (DiverView, Visit) {
        if !self.seeking() {
            (self, Visit::Skip)
        } else if self.current == self.requested {
            self.advanced()
        } else if self.current < self.requested {
            (DiverView { current: self.current + 1, ..self }, Visit::Skip)
        } else {
            (self, Visit::Skip)
        }
    }

    /// A field of the current struct is announced, with its name.
    pub open spec fn field_step(self, name: Seq<char>) -> (DiverView, Visit) {
        if self.seeking() && name == self.token() {
            self.advanced()
        } else {
            (self, Visit::Skip)
        }
    }

    /// A key of the current map is announced, in structured-text form.
    pub open spec fn key_step(self, key: Seq<char>) -> DiverView {
        DiverView { accept: self.seeking() && unquote(key) == unquote(self.token()), ..self }
    }

    /// The value that belongs to the last key is announced.
    pub open spec fn value_step(self) -> (DiverView, Visit) {
        if self.accept && self.seeking() {
            self.advanced()
        } else {
            (DiverView { accept: false, ..self }, Visit::Skip)
        }
    }
}

/// The thing which dives into a value and goes directly to the searched
/// value: it is told, one announcement at a time, what the value is made of,
/// and answers which children are worth a visit.
pub struct Diver {
    keys: Vec<String>,
    next_token: usize,
    requested_seq_idx: usize,
    current_seq_idx: usize,
    return_next_primitive: bool,
    accept_next_map_value: bool,
    format: IqFormat,
}

/// The text with one layer of surrounding double quotes taken off.
fn unquoted(s: &str) -> (r: String)
    ensures
        r@ == unquote(s@),
{
    let n = s.unicode_len();
    if n >= 2 && s.get_char(0) == '"' && s.get_char(n - 1) == '"' {
        String::from_str(s.substring_char(1, n - 1))
    } else {
        String::from_str(s)
    }
}

impl View for Diver {
    type V = DiverView;

    closed spec fn view(&self) -> DiverView {
        DiverView {
            keys: tokens_of(self.keys@),
            next: self.next_token as nat,
            requested: self.requested_seq_idx as nat,
            current: self.current_seq_idx as nat,
            capturing: self.return_next_primitive,
            accept: self.accept_next_map_value,
            format: self.format,
        }
    }
}

impl Diver {
    /// A cursor at the root of a value, for the given path and format.
    pub fn new(keys: Vec<String>, format: IqFormat) -> (r: Diver)
        ensures
            r@ == DiverView::start(tokens_of(keys@), format),
    {
        Diver {
            keys,
            next_token: 0,
            requested_seq_idx: 0,
            current_seq_idx: 0,
            return_next_primitive: false,
            accept_next_map_value: false,
            format,
        }
    }

    fn is_seeking(&self) -> (r: bool)
        ensures
            r == self@.seeking(),
    {
        !self.return_next_primitive && self.next_token < self.keys.len()
    }

    /// Whether `key` is the token to match next.
    pub fn has_next_token(&self, key: &str) -> (r: bool)
        ensures
            r == (self@.next < self@.keys.len() && key@ == self@.token()),
    {
        if self.next_token < self.keys.len() {
            String::from_str(key) == self.keys[self.next_token]
        } else {
            false
        }
    }

    fn advance(&mut self) -> (v: Visit)
        requires
            old(self)@.next < old(self)@.keys.len(),
        ensures
            (final(self)@, v) == old(self)@.advanced(),
    {
        let n = self.keys.len();
        assert(tokens_of(self.keys@).len() == n);
        self.next_token = self.next_token + 1;
        self.accept_next_map_value = false;
        if self.next_token < self.keys.len() {
            Visit::Enter
        } else if self.format == IqFormat::Primitive {
            self.return_next_primitive = true;
            Visit::Enter
        } else {
            Visit::Capture
        }
    }

    /// A scalar is announced: this settles the traversal. It is the result
    /// when the path was matched in full, else the path leads nowhere.
    pub fn on_leaf(&self, leaf: &Leaf) -> (r: Verdict)
        ensures
            r@ == self@.leaf_step(*leaf),
    {
        if !self.return_next_primitive {
            return Verdict::NotFound;
        }
        proof {
            reveal_strlit("unit");
            reveal_strlit("none");
        }
        match leaf {
            Leaf::Str(s) => Verdict::Found(s.clone()),
            Leaf::Plain(s) => Verdict::Found(s.clone()),
            Leaf::Unit => Verdict::Found(String::from_str("unit")),
            Leaf::UnitStruct => Verdict::Found(String::from_str("unit")),
            Leaf::Nothing => Verdict::Found(String::from_str("none")),
            Leaf::Tag(n) => Verdict::Found(n.clone()),
            Leaf::Bytes => Verdict::NotFound,
        }
    }

    /// A variant with a payload announces its name.
    pub fn on_variant(&self, name: &str) -> (r: Flow<Verdict>)
        ensures
            match r {
                Flow::Go => self@.variant_step(name@) is None,
                Flow::Done(v) => self@.variant_step(name@) == Some(v@),
            },
    {
        if self.return_next_primitive {
            Flow::Done(Verdict::Found(String::from_str(name)))
        } else {
            Flow::Go
        }
    }

    /// A sequence, a tuple or a tuple struct starts.
    pub fn on_seq_start(&mut self) -> (r: Flow<Verdict>)
        ensures
            final(self)@ == old(self)@.seq_step().0,
            match r {
                Flow::Go => old(self)@.seq_step().1 is None,
                Flow::Done(v) => old(self)@.seq_step().1 == Some(v@),
            },
    {
        if !self.is_seeking() {
            return Flow::Done(Verdict::NotFound);
        }
        match parse_index_token(self.keys[self.next_token].as_str()) {
            Some(i) => {
                self.requested_seq_idx = i;
                self.current_seq_idx = 0;
                self.accept_next_map_value = false;
                Flow::Go
            },
            None => Flow::Done(Verdict::NotFound),
        }
    }

    /// A map or a struct starts.
    pub fn on_keyed_start(&mut self) -> (r: Flow<Verdict>)
        ensures
            final(self)@ == old(self)@.keyed_step().0,
            match r {
                Flow::Go => old(self)@.keyed_step().1 is None,
                Flow::Done(v) => old(self)@.keyed_step().1 == Some(v@),
            },
    {
        if !self.is_seeking() {
            return Flow::Done(Verdict::NotFound);
        }
        self.accept_next_map_value = false;
        Flow::Go
    }

    /// An item of the current sequence is announced.
    pub fn on_element(&mut self) -> (v: Visit)
        ensures
            (final(self)@, v) == old(self)@.element_step(),
    {
        if !self.is_seeking() {
            Visit::Skip
        } else if self.current_seq_idx == self.requested_seq_idx {
            self.advance()
        } else if self.current_seq_idx < self.requested_seq_idx {
            self.current_seq_idx = self.current_seq_idx + 1;
            Visit::Skip
        } else {
            Visit::Skip
        }
    }

    /// A field of the current struct is announced.
    pub fn on_field(&mut self, name: &str) -> (v: Visit)
        ensures
            (final(self)@, v) == old(self)@.field_step(name@),
    {
        if self.is_seeking() && self.has_next_token(name) {
            self.advance()
        } else {
            Visit::Skip
        }
    }

    /// A key of the current map is announced, in structured-text form.
    pub fn on_key(&mut self, key: &str)
        ensures
            final(self)@ == old(self)@.key_step(key@),
    {
        if self.is_seeking() {
            let a = unquoted(key);
            let b = unquoted(self.keys[self.next_token].as_str());
            self.accept_next_map_value = a == b;
        } else {
            self.accept_next_map_value = false;
        }
    }

    /// The value that belongs to the last key is announced.
    pub fn on_value(&mut self) -> (v: Visit)
        ensures
            (final(self)@, v) == old(self)@.value_step(),
    {
        if self.accept_next_map_value && self.is_seeking() {
            self.advance()
        } else {
            self.accept_next_map_value = false;
            Visit::Skip
        }
    }

    /// A container on the path ends: none of its children was the next
    /// step, so the path leads nowhere.
    pub fn on_end(&self) -> (r: Verdict)
        ensures
            r@ is None,
    {
        Verdict::NotFound
    }
}

/// Where a traversal ends: settled with a result, or at a target that is
/// still to be rendered or counted.
pub enum Outcome {
    Settled(Option<Seq<char>>),
    Captured(Shape),
}

/// The traversal of `s` from cursor `d`: the value announces itself, the
/// cursor decides, and the value walks into the children the cursor enters.
pub open spec fn dive(d: DiverView, s: Shape) -> Outcome
    decreases s, 0nat,
{
    match s {
        Shape::Leaf(l) => Outcome::Settled(d.leaf_step(l)),
        Shape::List { items, .. } => dive_list(d, items),
        Shape::Mapping { entries } => {
            let (d1, h) = d.keyed_step();
            match h {
                Some(r) => Outcome::Settled(r),
                None => dive_entries(d1, entries, 0),
            }
        },
        Shape::Record { fields } => dive_record(d, fields),
        Shape::TupleVariant { name, items } => match d.variant_step(name) {
            Some(r) => Outcome::Settled(r),
            None => dive_list(d, items),
        },
        Shape::StructVariant { name, fields } => match d.variant_step(name) {
            Some(r) => Outcome::Settled(r),
            None => dive_record(d, fields),
        },
    }
}

/// The traversal of a sequence's items.
pub open spec fn dive_list(d: DiverView, items: Seq<Shape>) -> Outcome
    decreases items, 1nat,
{
    let (d1, h) = d.seq_step();
    match h {
        Some(r) => Outcome::Settled(r),
        None => dive_items(d1, items, 0),
    }
}

/// The traversal of a struct's fields.
pub open spec fn dive_record(d: DiverView, fields: Seq<(Seq<char>, Shape)>) -> Outcome
    decreases fields, 1nat,
{
    let (d1, h) = d.keyed_step();
    match h {
        Some(r) => Outcome::Settled(r),
        None => dive_fields(d1, fields, 0),
    }
}

/// What becomes of a child once the cursor has decided on it.
pub open spec fn dive_child(d: DiverView, v: Visit, c: Shape) -> Outcome
    decreases c, 1nat,
{
    match v {
        Visit::Enter => dive(d, c),
        _ => Outcome::Captured(c),
    }
}

/// The traversal of a sequence's items from the `k`-th on.
pub open spec fn dive_items(d: DiverView, items: Seq<Shape>, k: int) -> Outcome
    decreases items, 0nat, items.len() - k,
{
    if 0 <= k < items.len() {
        let (d1, v) = d.element_step();
        if v == Visit::Skip {
            dive_items(d1, items, k + 1)
        } else {
            dive_child(d1, v, items[k])
        }
    } else {
        Outcome::Settled(None)
    }
}

/// The traversal of a map's entries from the `k`-th on.
pub open spec fn dive_entries(d: DiverView, entries: Seq<(Seq<char>, Shape)>, k: int) -> Outcome
    decreases entries, 0nat, entries.len() - k,
{
    if 0 <= k < entries.len() {
        let (d1, v) = d.key_step(entries[k].0).value_step();
        if v == Visit::Skip {
            dive_entries(d1, entries, k + 1)
        } else {
            dive_child(d1, v, entries[k].1)
        }
    } else {
        Outcome::Settled(None)
    }
}

/// The traversal of a struct's fields from the `k`-th on.
pub open spec fn dive_fields(d: DiverView, fields: Seq<(Seq<char>, Shape)>, k: int) -> Outcome
    decreases fields, 0nat, fields.len() - k,
{
    if 0 <= k < fields.len() {
        let (d1, v) = d.field_step(fields[k].0);
        if v == Visit::Skip {
            dive_fields(d1, fields, k + 1)
        } else {
            dive_child(d1, v, fields[k].1)
        }
    } else {
        Outcome::Settled(None)
    }
}

} // verus!

verus! {

/// What the target gives: in `Primitive` format a scalar's display text or a
/// variant's name (nothing for a container); in the other formats the target
/// itself, to be rendered or counted.
pub open spec fn capture(t: Shape, format: IqFormat) -> Outcome {
    if format == IqFormat::Primitive {
        Outcome::Settled(
            match t {
                Shape::Leaf(l) => l.display(),
                Shape::TupleVariant { name, .. } => Some(name),
                Shape::StructVariant { name, .. } => Some(name),
                _ => None,
            },
        )
    } else {
        Outcome::Captured(t)
    }
}

/// What a path yields in a value: nothing for an empty path, since the root
/// itself is never the target; else the part that the path leads to,
/// captured as the format says; nothing where the path leads nowhere.
pub open spec fn resolve(s: Shape, toks: Seq<Seq<char>>, format: IqFormat) -> Outcome {
    if toks.len() == 0 {
        Outcome::Settled(None)
    } else {
        match locate(s, toks) {
            Some(t) => capture(t, format),
            None => Outcome::Settled(None),
        }
    }
}

/// `resolve`, one token at a time: what the remaining tokens `rest` yield
/// from `s`.
pub open spec fn follow(s: Shape, rest: Seq<Seq<char>>, format: IqFormat) -> Outcome
    decreases rest.len(),
{
    if rest.len() == 0 {
        Outcome::Settled(None)
    } else {
        match child(s, rest[0]) {
            None => Outcome::Settled(None),
            Some(c) => if rest.len() == 1 {
                capture(c, format)
            } else {
                follow(c, rest.drop_first(), format)
            },
        }
    }
}

proof fn lemma_follow_resolve(s: Shape, toks: Seq<Seq<char>>, format: IqFormat)
    ensures
        follow(s, toks, format) == resolve(s, toks, format),
    decreases toks.len(),
{
    if toks.len() > 1 {
        match child(s, toks[0]) {
            Some(c) => {
                lemma_follow_resolve(c, toks.drop_first(), format);
            },
            None => {},
        }
    } else if toks.len() == 1 {
        match child(s, toks[0]) {
            Some(c) => {
                assert(locate(c, toks.drop_first()) == Some(c));
            },
            None => {},
        }
    }
}

/// Once the path is matched in full, a value gives its display text, a
/// variant its name, and a container nothing.
proof fn lemma_capturing(d: DiverView, s: Shape)
    requires
        d.capturing,
    ensures
        dive(d, s) == capture(s, IqFormat::Primitive),
{
}

proof fn lemma_items(d: DiverView, items: Seq<Shape>, k: int)
    requires
        d.seeking(),
        0 <= k,
        k == d.current,
        d.current <= d.requested,
    ensures
        dive_items(d, items, k) == if d.requested < items.len() {
            let (d2, v) = DiverView { current: d.requested, ..d }.advanced();
            dive_child(d2, v, items[d.requested as int])
        } else {
            Outcome::Settled(None)
        },
    decreases items.len() - k,
{
    if k < items.len() && d.current < d.requested {
        lemma_items(DiverView { current: d.current + 1, ..d }, items, k + 1);
    }
}

proof fn lemma_entries(d: DiverView, entries: Seq<(Seq<char>, Shape)>, k: int)
    requires
        d.seeking(),
        0 <= k,
    ensures
        dive_entries(d, entries, k) == if find_key(entries, d.token(), k) < entries.len() {
            let (d2, v) = d.advanced();
            dive_child(d2, v, entries[find_key(entries, d.token(), k)].1)
        } else {
            Outcome::Settled(None)
        },
    decreases entries.len() - k,
{
    if k < entries.len() {
        let d1 = d.key_step(entries[k].0);
        assert(d1.advanced() == d.advanced());
        if !(unquote(entries[k].0) == unquote(d.token())) {
            let d2 = DiverView { accept: false, ..d1 };
            assert(d2.advanced() == d.advanced());
            assert(d2.token() == d.token());
            lemma_entries(d2, entries, k + 1);
        }
    }
}

proof fn lemma_fields(d: DiverView, fields: Seq<(Seq<char>, Shape)>, k: int)
    requires
        d.seeking(),
        0 <= k,
    ensures
        dive_fields(d, fields, k) == if find_field(fields, d.token(), k) < fields.len() {
            let (d2, v) = d.advanced();
            dive_child(d2, v, fields[find_field(fields, d.token(), k)].1)
        } else {
            Outcome::Settled(None)
        },
    decreases fields.len() - k,
{
    if k < fields.len() && fields[k].0 != d.token() {
        lemma_fields(d, fields, k + 1);
    }
}

/// Entering the child that the current token designates yields what the
/// remaining tokens yield from that child.
proof fn lemma_matched(d: DiverView, c: Shape)
    requires
        d.seeking(),
    ensures
        ({
            let (d2, v) = d.advanced();
            d.next + 1 == d.keys.len() ==> dive_child(d2, v, c) == capture(c, d.format)
        }),
        ({
            let (d2, v) = d.advanced();
            d.next + 1 < d.keys.len() ==> dive_child(d2, v, c) == follow(
                c,
                d.keys.subrange((d.next + 1) as int, d.keys.len() as int),
                d.format,
            )
        }),
    decreases c, 1nat,
{
    let (d2, v) = d.advanced();
    if d.next + 1 < d.keys.len() {
        lemma_seeking(d2, c);
        assert(d.keys.subrange(d.next as int, d.keys.len() as int).drop_first() =~= d.keys.subrange(
            (d.next + 1) as int,
            d.keys.len() as int,
        ));
    } else if d.format == IqFormat::Primitive {
        lemma_capturing(d2, c);
    }
}

/// While looking for the target, the traversal of `s` yields what the
/// tokens not yet matched yield from `s`.
proof fn lemma_seeking(d: DiverView, s: Shape)
    requires
        !d.capturing,
        d.next <= d.keys.len(),
    ensures
        dive(d, s) == follow(s, d.keys.subrange(d.next as int, d.keys.len() as int), d.format),
    decreases s, 0nat,
{
    let rest = d.keys.subrange(d.next as int, d.keys.len() as int);
    if d.next < d.keys.len() {
        assert(rest[0] == d.token());
        match s {
            Shape::Leaf(_) => {},
            Shape::List { items, .. } => {
                lemma_list(d, items);
            },
            Shape::TupleVariant { items, .. } => {
                lemma_list(d, items);
            },
            Shape::Mapping { entries } => {
                let d1 = d.keyed_step().0;
                lemma_entries(d1, entries, 0);
                let j = find_key(entries, d.token(), 0);
                lemma_find_bounds(entries, d.token(), 0);
                if j < entries.len() {
                    lemma_matched(d1, entries[j].1);
                    if rest.len() > 1 {
                        assert(rest.drop_first() =~= d.keys.subrange((d.next + 1) as int, d.keys.len() as int));
                    }
                }
            },
            Shape::Record { fields } => {
                lemma_record(d, fields);
            },
            Shape::StructVariant { fields, .. } => {
                lemma_record(d, fields);
            },
        }
    }
}

proof fn lemma_list(d: DiverView, items: Seq<Shape>)
    requires
        d.seeking(),
    ensures
        dive_list(d, items) == follow(
            Shape::List { declared: None, items },
            d.keys.subrange(d.next as int, d.keys.len() as int),
            d.format,
        ),
    decreases items, 1nat,
{
    let rest = d.keys.subrange(d.next as int, d.keys.len() as int);
    assert(rest[0] == d.token());
    match parse_index(d.token()) {
        Some(i) => {
            let d1 = d.seq_step().0;
            lemma_items(d1, items, 0);
            if i < items.len() {
                let dm = DiverView { current: i, ..d1 };
                lemma_matched(dm, items[i as int]);
                if rest.len() > 1 {
                    assert(rest.drop_first() =~= d.keys.subrange((d.next + 1) as int, d.keys.len() as int));
                }
            }
        },
        None => {},
    }
}

proof fn lemma_record(d: DiverView, fields: Seq<(Seq<char>, Shape)>)
    requires
        d.seeking(),
    ensures
        dive_record(d, fields) == follow(
            Shape::Record { fields },
            d.keys.subrange(d.next as int, d.keys.len() as int),
            d.format,
        ),
    decreases fields, 1nat,
{
    let rest = d.keys.subrange(d.next as int, d.keys.len() as int);
    assert(rest[0] == d.token());
    let d1 = d.keyed_step().0;
    lemma_fields(d1, fields, 0);
    let j = find_field(fields, d.token(), 0);
    lemma_find_bounds(fields, d.token(), 0);
    if j < fields.len() {
        lemma_matched(d1, fields[j].1);
        if rest.len() > 1 {
            assert(rest.drop_first() =~= d.keys.subrange((d.next + 1) as int, d.keys.len() as int));
        }
    }
}

/// The traversal engine is correct: fed what a value announces, a fresh
/// cursor reaches exactly what the path yields in that value.
pub proof fn lemma_dive_resolves(s: Shape, keys: Seq<Seq<char>>, format: IqFormat)
    ensures
        dive(DiverView::start(keys, format), s) == resolve(s, keys, format),
{
    let d = DiverView::start(keys, format);
    lemma_seeking(d, s);
    assert(keys.subrange(0, keys.len() as int) =~= keys);
    lemma_follow_resolve(s, keys, format);
}

} // verus!
