use vstd::prelude::*;

use crate::index::parse_index;

verus! {

/// A scalar, as a value announces it while it walks itself.
pub enum Leaf {
    /// A string: displayed as it is, sized by its characters.
    Str(String),
    /// A boolean, a number or a character, with its display text.
    Plain(String),
    /// The unit value: displayed `unit`, of size zero.
    Unit,
    /// A struct without fields: displayed `unit`, without a size.
    UnitStruct,
    /// An absent optional value: displayed `none`, without a size.
    Nothing,
    /// An enum variant without payload: displayed as its name, without a size.
    Tag(String),
    /// A byte string: neither displayed nor sized.
    Bytes,
}

/// The text `unit`.
pub open spec fn unit_text() -> Seq<char> {
    seq!['u', 'n', 'i', 't']
}

/// The text `none`.
pub open spec fn none_text() -> Seq<char> {
    seq!['n', 'o', 'n', 'e']
}

impl Leaf {
    /// The display text of a scalar, if it has one.
    pub open spec fn display(self) -> Option<Seq<char>> {
        match self {
            Leaf::Str(s) => Some(s@),
            Leaf::Plain(s) => Some(s@),
            Leaf::Unit => Some(unit_text()),
            Leaf::UnitStruct => Some(unit_text()),
            Leaf::Nothing => Some(none_text()),
            Leaf::Tag(n) => Some(n@),
            Leaf::Bytes => None,
        }
    }

    /// The size of a scalar, if it has one.
    pub open spec fn size(self) -> Option<nat> {
        match self {
            Leaf::Str(s) => Some(s@.len()),
            Leaf::Unit => Some(0),
            _ => None,
        }
    }
}

/// What a value looks like to a visitor of its shape: a scalar or a container
/// whose children come in their own order.
pub enum Shape {
    /// A scalar.
    Leaf(Leaf),
    /// A sequence, a tuple or a tuple struct; `declared` is the length that it
    /// announces up front, if any.
    List { declared: Option<nat>, items: Seq<Shape> },
    /// A mapping; each key is given by its structured-text form.
    Mapping { entries: Seq<(Seq<char>, Shape)> },
    /// A struct with named fields.
    Record { fields: Seq<(Seq<char>, Shape)> },
    /// An enum variant with unnamed fields.
    TupleVariant { name: Seq<char>, items: Seq<Shape> },
    /// An enum variant with named fields.
    StructVariant { name: Seq<char>, fields: Seq<(Seq<char>, Shape)> },
}

/// A key or a token with one layer of surrounding double quotes taken off.
pub open spec fn unquote(s: Seq<char>) -> Seq<char> {
    if s.len() >= 2 && s[0] == '"' && s.last() == '"' {
        s.subrange(1, s.len() - 1)
    } else {
        s
    }
}

/// The index, at `k` or after, of the first entry whose key matches `tok`
/// once both are unquoted; the length when there is none.
pub open spec fn find_key(entries: Seq<(Seq<char>, Shape)>, tok: Seq<char>, k: int) -> int
    decreases entries.len() - k,
{
    if k >= entries.len() {
        entries.len() as int
    } else if unquote(entries[k].0) == unquote(tok) {
        k
    } else {
        find_key(entries, tok, k + 1)
    }
}

/// The index, at `k` or after, of the first field named `tok`; the length
/// when there is none.
pub open spec fn find_field(fields: Seq<(Seq<char>, Shape)>, tok: Seq<char>, k: int) -> int
    decreases fields.len() - k,
{
    if k >= fields.len() {
        fields.len() as int
    } else if fields[k].0 == tok {
        k
    } else {
        find_field(fields, tok, k + 1)
    }
}

/// The first match, when there is one, lies at `k` or after.
pub proof fn lemma_find_bounds(entries: Seq<(Seq<char>, Shape)>, tok: Seq<char>, k: int)
    requires
        0 <= k <= entries.len(),
    ensures
        k <= find_key(entries, tok, k) <= entries.len(),
        k <= find_field(entries, tok, k) <= entries.len(),
    decreases entries.len() - k,
{
    if k < entries.len() {
        lemma_find_bounds(entries, tok, k + 1);
    }
}

/// The item that an index token designates.
pub open spec fn indexed(items: Seq<Shape>, tok: Seq<char>) -> Option<Shape> {
    match parse_index(tok) {
        Some(i) => if i < items.len() {
            Some(items[i as int])
        } else {
            None
        },
        None => None,
    }
}

/// The field that a name designates.
pub open spec fn named(fields: Seq<(Seq<char>, Shape)>, tok: Seq<char>) -> Option<Shape> {
    let j = find_field(fields, tok, 0);
    if j < fields.len() {
        Some(fields[j].1)
    } else {
        None
    }
}

/// The immediate child of `s` that the token `tok` designates: an item by
/// its index, an entry by its unquoted key, a field by its name.
pub open spec fn child(s: Shape, tok: Seq<char>) -> Option<Shape> {
    match s {
        Shape::Leaf(_) => None,
        Shape::List { items, .. } => indexed(items, tok),
        Shape::TupleVariant { items, .. } => indexed(items, tok),
        Shape::Mapping { entries } => {
            let j = find_key(entries, tok, 0);
            if j < entries.len() {
                Some(entries[j].1)
            } else {
                None
            }
        },
        Shape::Record { fields } => named(fields, tok),
        Shape::StructVariant { fields, .. } => named(fields, tok),
    }
}

/// The part of `s` that the tokens lead to, one child per token.
pub open spec fn locate(s: Shape, toks: Seq<Seq<char>>) -> Option<Shape>
    decreases toks.len(),
{
    if toks.len() == 0 {
        Some(s)
    } else {
        match child(s, toks[0]) {
            Some(c) => locate(c, toks.drop_first()),
            None => None,
        }
    }
}

/// The size of a value: the characters of a string, zero for unit, the
/// announced or counted items of a sequence, the entries of a mapping, the
/// fields of a struct, the characters of a variant's name; nothing for the
/// other scalars.
pub open spec fn size_of_shape(s: Shape) -> Option<nat> {
    match s {
        Shape::Leaf(l) => l.size(),
        Shape::List { declared, items } => match declared {
            Some(n) => Some(n),
            None => Some(items.len()),
        },
        Shape::Mapping { entries } => Some(entries.len()),
        Shape::Record { fields } => Some(fields.len()),
        Shape::TupleVariant { name, .. } => Some(name.len()),
        Shape::StructVariant { name, .. } => Some(name.len()),
    }
}

/// Every count that a size of `s` is made of fits in `usize`.
pub open spec fn counts_fit(s: Shape) -> bool {
    match s {
        Shape::Leaf(l) => match l.size() {
            Some(n) => n <= usize::MAX,
            None => true,
        },
        Shape::List { declared, items } => match declared {
            Some(n) => n <= usize::MAX,
            None => items.len() <= usize::MAX,
        },
        Shape::Mapping { entries } => entries.len() <= usize::MAX,
        Shape::Record { fields } => fields.len() <= usize::MAX,
        Shape::TupleVariant { name, .. } => name.len() <= usize::MAX,
        Shape::StructVariant { name, .. } => name.len() <= usize::MAX,
    }
}

} // verus!
