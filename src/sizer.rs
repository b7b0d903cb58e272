use vstd::prelude::*;

use crate::diver::Flow;
use crate::shape::{counts_fit, size_of_shape, Leaf, Shape};

verus! {

/// A count as a number, if there is one.
pub open spec fn count_view(o: Option<usize>) -> Option<nat> {
    match o {
        Some(n) => Some(n as nat),
        None => None,
    }
}

/// One more, unless the count is as large as it can be.
pub open spec fn bump(c: nat) -> nat {
    if c < usize::MAX {
        c + 1
    } else {
        c
    }
}

/// The count after `k` more children.
pub open spec fn tally(c: nat, k: nat) -> nat
    decreases k,
{
    if k == 0 {
        c
    } else {
        tally(bump(c), (k - 1) as nat)
    }
}

/// The count of a sequence's start: an announced length settles it, else the
/// items are counted from zero.
pub open spec fn seq_start_step(declared: Option<nat>) -> (nat, Option<Option<nat>>) {
    match declared {
        Some(n) => (n, Some(Some(n))),
        None => (0, None),
    }
}

/// The counting of `s`: what the counter answers to the announcements of `s`.
pub open spec fn count_run(s: Shape) -> Option<nat> {
    match s {
        Shape::Leaf(l) => l.size(),
        Shape::List { declared, items } => {
            let (c, h) = seq_start_step(declared);
            match h {
                Some(r) => r,
                None => Some(tally(c, items.len())),
            }
        },
        Shape::Mapping { entries } => Some(tally(0, entries.len())),
        Shape::Record { fields } => Some(tally(0, fields.len())),
        Shape::TupleVariant { name, .. } => Some(name.len()),
        Shape::StructVariant { name, .. } => Some(name.len()),
    }
}

proof fn lemma_tally(c: nat, k: nat)
    requires
        c + k <= usize::MAX,
    ensures
        tally(c, k) == c + k,
    decreases k,
{
    if k > 0 {
        lemma_tally(bump(c), (k - 1) as nat);
    }
}

/// Counting a value gives its size.
pub proof fn lemma_count_run(s: Shape)
    requires
        counts_fit(s),
    ensures
        count_run(s) == size_of_shape(s),
{
    match s {
        Shape::List { declared, items } => {
            if declared is None {
                lemma_tally(0, items.len());
            }
        },
        Shape::Mapping { entries } => {
            lemma_tally(0, entries.len());
        },
        Shape::Record { fields } => {
            lemma_tally(0, fields.len());
        },
        _ => {},
    }
}

/// Counts a value instead of rendering it: the characters of a string, the
/// items of a sequence, the entries of a map, the fields of a struct.
pub struct Sizer {
    count: usize,
}

impl View for Sizer {
    type V = nat;

    closed spec fn view(&self) -> nat {
        self.count as nat
    }
}

impl Sizer {
    /// A counter at zero.
    pub fn new() -> (r: Sizer)
        ensures
            r@ == 0,
    {
        Sizer { count: 0 }
    }

    /// The count so far, as the result.
    pub fn finish(&self) -> (r: Option<usize>)
        ensures
            count_view(r) == Some(self@),
    {
        Some(self.count)
    }

    /// No count: the value is not countable.
    pub fn uncountable(&self) -> (r: Option<usize>)
        ensures
            r is None,
    {
        None
    }

    /// A scalar is announced: this settles the count.
    pub fn on_leaf(&self, leaf: &Leaf) -> (r: Option<usize>)
        ensures
            count_view(r) == leaf.size(),
    {
        match leaf {
            Leaf::Str(s) => Some(s.as_str().unicode_len()),
            Leaf::Unit => Some(0),
            _ => self.uncountable(),
        }
    }

    /// A variant with a payload announces its name: its size is the name's.
    pub fn on_variant(&self, name: &str) -> (r: Option<usize>)
        ensures
            count_view(r) == Some(name@.len()),
    {
        Some(name.unicode_len())
    }

    /// A sequence, a tuple or a tuple struct starts, with the length that it
    /// announces, if any.
    pub fn on_seq_start(&mut self, len: Option<usize>) -> (r: Flow<Option<usize>>)
        ensures
            final(self)@ == seq_start_step(count_view(len)).0,
            match r {
                Flow::Go => seq_start_step(count_view(len)).1 is None,
                Flow::Done(v) => seq_start_step(count_view(len)).1 == Some(count_view(v)),
            },
    {
        match len {
            Some(n) => {
                self.count = n;
                Flow::Done(self.finish())
            },
            None => {
                self.count = 0;
                Flow::Go
            },
        }
    }

    /// A map or a struct starts.
    pub fn on_keyed_start(&mut self)
        ensures
            final(self)@ == 0,
    {
        self.count = 0;
    }

    /// An item, an entry or a field is announced.
    pub fn on_item(&mut self)
        ensures
            final(self)@ == bump(old(self)@),
    {
        if self.count < usize::MAX {
            self.count = self.count + 1;
        }
    }

    /// The container ends: its count is the result.
    pub fn on_end(&self) -> (r: Option<usize>)
        ensures
            count_view(r) == Some(self@),
    {
        self.finish()
    }
}

} // verus!
