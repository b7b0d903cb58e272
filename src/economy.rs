use vstd::prelude::*;

use crate::diver::{DiverView, Visit};
use crate::extract::IqFormat;
use crate::index::parse_index;
use crate::shape::{child, find_field, find_key, lemma_find_bounds, unquote, Shape};

verus! {

/// The announcements that a value makes at its own level: its start, one
/// per child (two per map entry: key and value), its end, and a variant's
/// name.
pub open spec fn width(s: Shape) -> nat {
    match s {
        Shape::Leaf(_) => 1,
        Shape::List { items, .. } => items.len() + 2,
        Shape::Mapping { entries } => 2 * entries.len() + 2,
        Shape::Record { fields } => fields.len() + 2,
        Shape::TupleVariant { items, .. } => items.len() + 3,
        Shape::StructVariant { fields, .. } => fields.len() + 3,
    }
}

/// The most announcements that a traversal for the tokens `rest` may need
/// in `s`: the width of each container on the path, plus one for the target.
pub open spec fn path_bound(s: Shape, rest: Seq<Seq<char>>) -> nat
    decreases rest.len(),
{
    width(s) + 1 + if rest.len() > 1 {
        match child(s, rest[0]) {
            Some(c) => path_bound(c, rest.drop_first()),
            None => 0,
        }
    } else {
        0
    }
}

/// How many announcements the traversal of `s` from cursor `d` receives: the
/// value announces each child to the cursor, but walks into a child only
/// when the cursor enters it.
pub open spec fn dive_cost(d: DiverView, s: Shape) -> nat
    decreases s, 0nat,
{
    match s {
        Shape::Leaf(_) => 1,
        Shape::List { items, .. } => list_cost(d, items),
        Shape::Mapping { entries } => {
            let (d1, h) = d.keyed_step();
            1 + if h is Some {
                0
            } else {
                entries_cost(d1, entries, 0)
            }
        },
        Shape::Record { fields } => record_cost(d, fields),
        Shape::TupleVariant { name, items } => 1 + if d.variant_step(name) is Some {
            0
        } else {
            list_cost(d, items)
        },
        Shape::StructVariant { name, fields } => 1 + if d.variant_step(name) is Some {
            0
        } else {
            record_cost(d, fields)
        },
    }
}

/// The announcements received for a sequence.
pub open spec fn list_cost(d: DiverView, items: Seq<Shape>) -> nat
    decreases items, 1nat,
{
    let (d1, h) = d.seq_step();
    1 + if h is Some {
        0
    } else {
        items_cost(d1, items, 0)
    }
}

/// The announcements received for a struct.
pub open spec fn record_cost(d: DiverView, fields: Seq<(Seq<char>, Shape)>) -> nat
    decreases fields, 1nat,
{
    let (d1, h) = d.keyed_step();
    1 + if h is Some {
        0
    } else {
        fields_cost(d1, fields, 0)
    }
}

/// The announcements received from a child once the cursor decided on it:
/// none for a captured child, which is rendered or counted apart.
pub open spec fn child_cost(d: DiverView, v: Visit, c: Shape) -> nat
    decreases c, 1nat,
{
    match v {
        Visit::Enter => dive_cost(d, c),
        _ => 0,
    }
}

/// The announcements received for a sequence's items from the `k`-th on.
pub open spec fn items_cost(d: DiverView, items: Seq<Shape>, k: int) -> nat
    decreases items, 0nat, items.len() - k,
{
    if 0 <= k < items.len() {
        let (d1, v) = d.element_step();
        1 + if v == Visit::Skip {
            items_cost(d1, items, k + 1)
        } else {
            child_cost(d1, v, items[k])
        }
    } else {
        1
    }
}

/// The announcements received for a map's entries from the `k`-th on.
pub open spec fn entries_cost(d: DiverView, entries: Seq<(Seq<char>, Shape)>, k: int) -> nat
    decreases entries, 0nat, entries.len() - k,
{
    if 0 <= k < entries.len() {
        let (d1, v) = d.key_step(entries[k].0).value_step();
        2 + if v == Visit::Skip {
            entries_cost(d1, entries, k + 1)
        } else {
            child_cost(d1, v, entries[k].1)
        }
    } else {
        1
    }
}

/// The announcements received for a struct's fields from the `k`-th on.
pub open spec fn fields_cost(d: DiverView, fields: Seq<(Seq<char>, Shape)>, k: int) -> nat
    decreases fields, 0nat, fields.len() - k,
{
    if 0 <= k < fields.len() {
        let (d1, v) = d.field_step(fields[k].0);
        1 + if v == Visit::Skip {
            fields_cost(d1, fields, k + 1)
        } else {
            child_cost(d1, v, fields[k].1)
        }
    } else {
        1
    }
}

proof fn lemma_capturing_cost(d: DiverView, s: Shape)
    requires
        d.capturing,
    ensures
        dive_cost(d, s) <= 2,
{
}

proof fn lemma_items_cost(d: DiverView, items: Seq<Shape>, k: int)
    requires
        d.seeking(),
        0 <= k <= items.len(),
        k == d.current,
        d.current <= d.requested,
    ensures
        items_cost(d, items, k) <= if d.requested < items.len() {
            let (d2, v) = DiverView { current: d.requested, ..d }.advanced();
            (d.requested - k + 1) + child_cost(d2, v, items[d.requested as int])
        } else {
            items.len() - k + 1
        },
    decreases items.len() - k,
{
    if k < items.len() && d.current < d.requested {
        lemma_items_cost(DiverView { current: d.current + 1, ..d }, items, k + 1);
    }
}

proof fn lemma_entries_cost(d: DiverView, entries: Seq<(Seq<char>, Shape)>, k: int)
    requires
        d.seeking(),
        0 <= k <= entries.len(),
    ensures
        entries_cost(d, entries, k) <= if find_key(entries, d.token(), k) < entries.len() {
            let (d2, v) = d.advanced();
            2 * (find_key(entries, d.token(), k) - k + 1) + child_cost(
                d2,
                v,
                entries[find_key(entries, d.token(), k)].1,
            )
        } else {
            2 * (entries.len() - k) + 1
        },
    decreases entries.len() - k,
{
    lemma_find_bounds(entries, d.token(), k);
    if k < entries.len() {
        let d1 = d.key_step(entries[k].0);
        assert(d1.advanced() == d.advanced());
        if !(unquote(entries[k].0) == unquote(d.token())) {
            let d2 = DiverView { accept: false, ..d1 };
            assert(d2.advanced() == d.advanced());
            lemma_entries_cost(d2, entries, k + 1);
        }
    }
}

proof fn lemma_fields_cost(d: DiverView, fields: Seq<(Seq<char>, Shape)>, k: int)
    requires
        d.seeking(),
        0 <= k <= fields.len(),
    ensures
        fields_cost(d, fields, k) <= if find_field(fields, d.token(), k) < fields.len() {
            let (d2, v) = d.advanced();
            (find_field(fields, d.token(), k) - k + 1) + child_cost(
                d2,
                v,
                fields[find_field(fields, d.token(), k)].1,
            )
        } else {
            fields.len() - k + 1
        },
    decreases fields.len() - k,
{
    lemma_find_bounds(fields, d.token(), k);
    if k < fields.len() && fields[k].0 != d.token() {
        lemma_fields_cost(d, fields, k + 1);
    }
}

proof fn lemma_matched_cost(d: DiverView, c: Shape)
    requires
        d.seeking(),
    ensures
        ({
            let (d2, v) = d.advanced();
            child_cost(d2, v, c) <= if d.next + 1 < d.keys.len() {
                path_bound(c, d.keys.subrange((d.next + 1) as int, d.keys.len() as int))
            } else {
                2
            }
        }),
    decreases c, 1nat,
{
    let (d2, v) = d.advanced();
    if d.next + 1 < d.keys.len() {
        lemma_cost_seeking(d2, c);
    } else if d.format == IqFormat::Primitive {
        lemma_capturing_cost(d2, c);
    }
}

proof fn lemma_cost_seeking(d: DiverView, s: Shape)
    requires
        !d.capturing,
        d.next <= d.keys.len(),
    ensures
        dive_cost(d, s) <= path_bound(s, d.keys.subrange(d.next as int, d.keys.len() as int)),
    decreases s, 0nat,
{
    let rest = d.keys.subrange(d.next as int, d.keys.len() as int);
    if d.next < d.keys.len() {
        assert(rest[0] == d.token());
        if rest.len() > 1 {
            assert(rest.drop_first() =~= d.keys.subrange((d.next + 1) as int, d.keys.len() as int));
        }
        match s {
            Shape::Leaf(_) => {},
            Shape::List { items, .. } => {
                lemma_list_cost(d, items);
            },
            Shape::TupleVariant { items, .. } => {
                lemma_list_cost(d, items);
            },
            Shape::Mapping { entries } => {
                let d1 = d.keyed_step().0;
                lemma_entries_cost(d1, entries, 0);
                let j = find_key(entries, d.token(), 0);
                lemma_find_bounds(entries, d.token(), 0);
                if j < entries.len() {
                    lemma_matched_cost(d1, entries[j].1);
                }
            },
            Shape::Record { fields } => {
                lemma_record_cost(d, fields);
            },
            Shape::StructVariant { fields, .. } => {
                lemma_record_cost(d, fields);
            },
        }
    }
}

proof fn lemma_list_cost(d: DiverView, items: Seq<Shape>)
    requires
        d.seeking(),
    ensures
        list_cost(d, items) + 1 <= path_bound(
            Shape::List { declared: None, items },
            d.keys.subrange(d.next as int, d.keys.len() as int),
        ),
    decreases items, 1nat,
{
    let rest = d.keys.subrange(d.next as int, d.keys.len() as int);
    assert(rest[0] == d.token());
    if rest.len() > 1 {
        assert(rest.drop_first() =~= d.keys.subrange((d.next + 1) as int, d.keys.len() as int));
    }
    match parse_index(d.token()) {
        Some(i) => {
            let d1 = d.seq_step().0;
            lemma_items_cost(d1, items, 0);
            if i < items.len() {
                let dm = DiverView { current: i, ..d1 };
                lemma_matched_cost(dm, items[i as int]);
            }
        },
        None => {},
    }
}

proof fn lemma_record_cost(d: DiverView, fields: Seq<(Seq<char>, Shape)>)
    requires
        d.seeking(),
    ensures
        record_cost(d, fields) + 1 <= path_bound(
            Shape::StructVariant { name: Seq::empty(), fields },
            d.keys.subrange(d.next as int, d.keys.len() as int),
        ),
        record_cost(d, fields) <= path_bound(
            Shape::Record { fields },
            d.keys.subrange(d.next as int, d.keys.len() as int),
        ),
    decreases fields, 1nat,
{
    let rest = d.keys.subrange(d.next as int, d.keys.len() as int);
    assert(rest[0] == d.token());
    if rest.len() > 1 {
        assert(rest.drop_first() =~= d.keys.subrange((d.next + 1) as int, d.keys.len() as int));
    }
    let d1 = d.keyed_step().0;
    lemma_fields_cost(d1, fields, 0);
    let j = find_field(fields, d.token(), 0);
    lemma_find_bounds(fields, d.token(), 0);
    if j < fields.len() {
        lemma_matched_cost(d1, fields[j].1);
    }
}

/// The traversal's economy: the announcements it receives are bounded by
/// the widths of the containers on the path, plus one for the target. The
/// contents of branches off the path, however large, are never announced to
/// it.
pub proof fn lemma_traversal_economy(s: Shape, keys: Seq<Seq<char>>, format: IqFormat)
    ensures
        dive_cost(DiverView::start(keys, format), s) <= path_bound(s, keys),
{
    lemma_cost_seeking(DiverView::start(keys, format), s);
    assert(keys.subrange(0, keys.len() as int) =~= keys);
}

} // verus!
