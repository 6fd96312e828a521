//! The references inside an object: finding them and turning them to other numbers.

use vstd::prelude::*;
use crate::object::{array_view, dict_sorted, entry_views, views, Dict, Entries, Obj, Object, ObjectRef};
use super::nats;

verus! {

/// Is there a reference to the object of number `id` in `o`?
pub open spec fn mentions(o: Obj, id: nat) -> bool
    decreases o,
{
    match o {
        Obj::Reference(n, _) => n == id,
        Obj::Array(items) => exists|i: int| 0 <= i < items.len() && mentions(#[trigger] items[i], id),
        Obj::Dictionary(d) => entries_mention(d, id),
        Obj::Stream(d, _) => entries_mention(d, id),
        _ => false,
    }
}

/// Is there a reference to the object of number `id` in the values of a dictionary?
pub open spec fn entries_mention(d: Entries, id: nat) -> bool
    decreases d,
{
    exists|i: int| 0 <= i < d.len() && mentions((#[trigger] d[i]).1, id)
}

/// The number that the table gives `id`. The number of object `n` stands at position `n - 1`; zero
/// stands where the object keeps its number, which it does outside the table too.
pub open spec fn renumbered(table: Seq<nat>, id: nat) -> nat {
    if 1 <= id <= table.len() && table[id - 1] != 0 {
        table[id - 1]
    } else {
        id
    }
}

/// `o` with its references turned to the numbers of the table.
pub open spec fn rename(o: Obj, table: Seq<nat>) -> Obj
    decreases o,
{
    match o {
        Obj::Reference(n, g) => Obj::Reference(renumbered(table, n), g),
        Obj::Array(items) => Obj::Array(
            Seq::new(
                items.len(),
                |i: int|
                    if 0 <= i < items.len() {
                        rename(items[i], table)
                    } else {
                        Obj::Null
                    },
            ),
        ),
        Obj::Dictionary(d) => Obj::Dictionary(rename_entries(d, table)),
        Obj::Stream(d, data) => Obj::Stream(rename_entries(d, table), data),
        _ => o,
    }
}

/// A dictionary with the references in its values turned to the numbers of the table.
pub open spec fn rename_entries(d: Entries, table: Seq<nat>) -> Entries
    decreases d,
{
    Seq::new(
        d.len(),
        |i: int|
            if 0 <= i < d.len() {
                (d[i].0, rename(d[i].1, table))
            } else {
                (seq![], Obj::Null)
            },
    )
}

/// Does the table give any object that `o` refers to another number?
pub open spec fn touches(o: Obj, table: Seq<nat>) -> bool {
    exists|id: nat| #[trigger] mentions(o, id) && 1 <= id <= table.len() && table[id - 1] != 0
}

/// Does the table give any object that the values of a dictionary refer to another number?
pub open spec fn entries_touched(d: Entries, table: Seq<nat>) -> bool {
    exists|id: nat| #[trigger] entries_mention(d, id) && 1 <= id <= table.len() && table[id - 1] != 0
}

/// An object that the table does not touch stays as it is.
pub proof fn rename_untouched(o: Obj, table: Seq<nat>)
    requires
        !touches(o, table),
    ensures
        rename(o, table) == o,
    decreases o,
{
    assert(forall|id: nat|
        1 <= id <= table.len() && table[id - 1] != 0 ==> !#[trigger] mentions(o, id));
    match o {
        Obj::Reference(n, _) => {
            assert(mentions(o, n));
        },
        Obj::Array(items) => {
            assert forall|i: int| 0 <= i < items.len() implies rename(#[trigger] items[i], table)
                == items[i] by {
                assert forall|id: nat| #[trigger]
                    mentions(items[i], id) && 1 <= id <= table.len() && table[id - 1] != 0 implies false by {
                    assert(mentions(o, id));
                }
                rename_untouched(items[i], table);
            }
            assert(rename(o, table)->Array_0 =~= items);
        },
        Obj::Dictionary(d) => {
            assert forall|id: nat| #[trigger]
                entries_mention(d, id) && 1 <= id <= table.len() && table[id - 1] != 0 implies false by {
                assert(mentions(o, id));
            }
            rename_entries_untouched(d, table);
        },
        Obj::Stream(d, data) => {
            assert forall|id: nat| #[trigger]
                entries_mention(d, id) && 1 <= id <= table.len() && table[id - 1] != 0 implies false by {
                assert(mentions(o, id));
            }
            rename_entries_untouched(d, table);
        },
        _ => {},
    }
}

proof fn rename_entries_untouched(d: Entries, table: Seq<nat>)
    requires
        !entries_touched(d, table),
    ensures
        rename_entries(d, table) == d,
    decreases d,
{
    assert forall|i: int| 0 <= i < d.len() implies rename((#[trigger] d[i]).1, table) == d[i].1 by {
        assert forall|id: nat| #[trigger]
            mentions(d[i].1, id) && 1 <= id <= table.len() && table[id - 1] != 0 implies false by {
            assert(entries_mention(d, id));
        }
        rename_untouched(d[i].1, table);
    }
    assert(rename_entries(d, table) =~= d);
}

/// What is referred to after turning the references is what they are turned to.
pub proof fn rename_mentions(o: Obj, table: Seq<nat>, id: nat)
    ensures
        mentions(rename(o, table), id) <==> exists|n: nat| #[trigger]
            mentions(o, n) && renumbered(table, n) == id,
    decreases o,
{
    let r = rename(o, table);
    match o {
        Obj::Reference(n, _) => {
            assert(mentions(o, n));
        },
        Obj::Array(items) => {
            let out = r->Array_0;
            if mentions(r, id) {
                let i = choose|i: int| 0 <= i < out.len() && mentions(#[trigger] out[i], id);
                assert(out[i] == rename(items[i], table));
                rename_mentions(items[i], table, id);
                let n = choose|n: nat| #[trigger] mentions(items[i], n) && renumbered(table, n) == id;
                assert(mentions(o, n));
            }
            if exists|n: nat| #[trigger] mentions(o, n) && renumbered(table, n) == id {
                let n = choose|n: nat| #[trigger] mentions(o, n) && renumbered(table, n) == id;
                let i = choose|i: int| 0 <= i < items.len() && mentions(#[trigger] items[i], n);
                rename_mentions(items[i], table, id);
                assert(mentions(out[i], id));
            }
        },
        Obj::Dictionary(d) => {
            rename_entries_mention(d, table, id);
            dictionary_mentions(o, d);
            dictionary_mentions(r, rename_entries(d, table));
        },
        Obj::Stream(d, data) => {
            rename_entries_mention(d, table, id);
            dictionary_mentions(o, d);
            dictionary_mentions(r, rename_entries(d, table));
        },
        _ => {},
    }
}

proof fn dictionary_mentions(o: Obj, d: Entries)
    requires
        o == Obj::Dictionary(d) || (o is Stream && o->Stream_0 == d),
    ensures
        forall|id: nat| #[trigger] mentions(o, id) <==> entries_mention(d, id),
        forall|id: nat| mentions(o, id) <==> #[trigger] entries_mention(d, id),
{
}

proof fn rename_entries_mention(d: Entries, table: Seq<nat>, id: nat)
    ensures
        entries_mention(rename_entries(d, table), id) <==> exists|n: nat| #[trigger]
            entries_mention(d, n) && renumbered(table, n) == id,
    decreases d,
{
    let out = rename_entries(d, table);
    if entries_mention(out, id) {
        let i = choose|i: int| 0 <= i < out.len() && mentions((#[trigger] out[i]).1, id);
        assert(out[i].1 == rename(d[i].1, table));
        rename_mentions(d[i].1, table, id);
        let n = choose|n: nat| #[trigger] mentions(d[i].1, n) && renumbered(table, n) == id;
        assert(entries_mention(d, n));
    }
    if exists|n: nat| #[trigger] entries_mention(d, n) && renumbered(table, n) == id {
        let n = choose|n: nat| #[trigger] entries_mention(d, n) && renumbered(table, n) == id;
        let i = choose|i: int| 0 <= i < d.len() && mentions((#[trigger] d[i]).1, n);
        rename_mentions(d[i].1, table, id);
        assert(mentions(out[i].1, id));
    }
}

/// Does the table give any object that `o` refers to another number?
pub fn touches_refs(o: &Object, table: &Vec<usize>) -> (r: bool)
    ensures
        r == touches(o@, nats(table@)),
    decreases o@,
{
    broadcast use array_view;

    match o {
        Object::Reference(r) => {
            let hit = 1 <= r.id && r.id <= table.len() && table[r.id - 1] != 0;
            assert(mentions(o@, r.id as nat));
            hit
        },
        Object::Array(a) => {
            let mut i: usize = 0;
            while i < a.len()
                invariant
                    i <= a@.len(),
                    o@ == Obj::Array(views(a@)),
                    forall|j: int| 0 <= j < i ==> !touches((#[trigger] a@[j])@, nats(table@)),
                decreases a@.len() - i,
            {
                assert(decreases_to!(o@ => o@->Array_0));
                assert(decreases_to!(views(a@) => views(a@)[i as int]));
                if touches_refs(&a[i], table) {
                    proof {
                        let t = nats(table@);
                        let id = choose|id: nat| #[trigger]
                            mentions(a@[i as int]@, id) && 1 <= id <= t.len() && t[id - 1] != 0;
                        assert(mentions(views(a@)[i as int], id));
                        assert(mentions(o@, id));
                    }
                    return true;
                }
                i += 1;
            }
            proof {
                let t = nats(table@);
                assert forall|id: nat| #[trigger] mentions(o@, id) implies !(1 <= id <= t.len() && t[id - 1]
                    != 0) by {
                    let items = views(a@);
                    let j = choose|j: int| 0 <= j < items.len() && mentions(#[trigger] items[j], id);
                    assert(!touches(a@[j]@, t));
                }
            }
            false
        },
        Object::Dictionary(d) => {
            assert(decreases_to!(o@ => o@->Dictionary_0));
            proof {
                dictionary_mentions(o@, d@);
            }
            dict_touches(d, table)
        },
        Object::Stream { dict, .. } => {
            assert(decreases_to!(o@ => o@->Stream_0));
            proof {
                dictionary_mentions(o@, dict@);
            }
            dict_touches(dict, table)
        },
        _ => {
            assert(forall|id: nat| !#[trigger] mentions(o@, id));
            false
        },
    }
}

fn dict_touches(d: &Dict, table: &Vec<usize>) -> (r: bool)
    ensures
        r == entries_touched(d@, nats(table@)),
    decreases d@,
{
    let n = d.len();
    let mut i: usize = 0;
    let ghost t = nats(table@);
    while i < n
        invariant
            i <= n == d@.len(),
            t == nats(table@),
            forall|j: int| 0 <= j < i ==> !touches((#[trigger] d@[j]).1, t),
        decreases n - i,
    {
        assert(decreases_to!(d@ => d@[i as int]));
        assert(decreases_to!(d@[i as int] => d@[i as int].1));
        if touches_refs(d.value_at(i), table) {
            proof {
                let id = choose|id: nat| #[trigger]
                    mentions(d@[i as int].1, id) && 1 <= id <= t.len() && t[id - 1] != 0;
                assert(entries_mention(d@, id));
            }
            return true;
        }
        i += 1;
    }
    proof {
        assert forall|id: nat| #[trigger]
            entries_mention(d@, id) && 1 <= id <= t.len() && t[id - 1] != 0 implies false by {
            let j = choose|j: int| 0 <= j < d@.len() && mentions((#[trigger] d@[j]).1, id);
            assert(touches(d@[j].1, t));
        }
    }
    false
}

/// `o` with its references turned to the numbers of the table.
pub fn rename_refs(o: Object, table: &Vec<usize>) -> (r: Object)
    ensures
        r@ == rename(o@, nats(table@)),
{
    match o {
        Object::Stream { dict, data } => {
            let renamed = rename_dict(&dict, table);
            Object::Stream { dict: renamed, data }
        },
        _ => renamed_copy(&o, table),
    }
}

fn renamed_copy(o: &Object, table: &Vec<usize>) -> (r: Object)
    ensures
        r@ == rename(o@, nats(table@)),
    decreases o@,
{
    broadcast use array_view;

    match o {
        Object::Reference(r) => {
            if 1 <= r.id && r.id <= table.len() && table[r.id - 1] != 0 {
                Object::Reference(ObjectRef { id: table[r.id - 1], gen: r.gen })
            } else {
                Object::Reference(ObjectRef { id: r.id, gen: r.gen })
            }
        },
        Object::Array(a) => {
            let mut out: Vec<Object> = Vec::new();
            let mut i: usize = 0;
            while i < a.len()
                invariant
                    i <= a@.len(),
                    out@.len() == i,
                    o@ == Obj::Array(views(a@)),
                    forall|j: int| 0 <= j < i ==> (#[trigger] out@[j])@ == rename(a@[j]@, nats(table@)),
                decreases a@.len() - i,
            {
                assert(decreases_to!(o@ => o@->Array_0));
                assert(decreases_to!(views(a@) => views(a@)[i as int]));
                out.push(renamed_copy(&a[i], table));
                i += 1;
            }
            assert(views(out@) =~= rename(o@, nats(table@))->Array_0);
            Object::Array(out)
        },
        Object::Dictionary(d) => {
            assert(decreases_to!(o@ => o@->Dictionary_0));
            Object::Dictionary(rename_dict(d, table))
        },
        Object::Stream { dict, data } => {
            assert(decreases_to!(o@ => o@->Stream_0));
            let copy = o.clone();
            match copy {
                Object::Stream { data, .. } => Object::Stream { dict: rename_dict(dict, table), data },
                _ => copy,
            }
        },
        _ => o.clone(),
    }
}

fn rename_dict(d: &Dict, table: &Vec<usize>) -> (r: Dict)
    ensures
        r@ == rename_entries(d@, nats(table@)),
    decreases d@,
{
    let n = d.len();
    let mut out: Vec<(String, Object)> = Vec::new();
    let mut i: usize = 0;
    while i < n
        invariant
            i <= n == d@.len(),
            out@.len() == i,
            forall|j: int|
                0 <= j < i ==> (#[trigger] out@[j]).0@ == d@[j].0 && out@[j].1@ == rename(
                    d@[j].1,
                    nats(table@),
                ),
        decreases n - i,
    {
        assert(decreases_to!(d@ => d@[i as int]));
        assert(decreases_to!(d@[i as int] => d@[i as int].1));
        let key = d.key_at(i).clone();
        out.push((key, renamed_copy(d.value_at(i), table)));
        i += 1;
    }
    proof {
        let e = rename_entries(d@, nats(table@));
        assert(entry_views(out@) =~= e);
        assert forall|i: int, j: int| 0 <= i < j < e.len() implies crate::text::key_lt(
            #[trigger] e[i].0,
            #[trigger] e[j].0,
        ) by {
            assert(e[i].0 == d@[i].0 && e[j].0 == d@[j].0);
        }
        assert(dict_sorted(entry_views(out@)));
    }
    Dict::from_sorted(out)
}

} // verus!
