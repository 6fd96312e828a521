//! No signature survives: a rebuilt file has other bytes than those that were signed, so it holds no
//! signature dictionary, wherever in a source one was found.

use vstd::prelude::*;
use crate::object::{
    array_view, dict_get, dict_get_insert, dict_get_remove, dict_has, dict_insert, dict_is_name, dict_remove,
    dict_sorted, entry_views,
    views, Dict, Entries, Obj, Object,
};
use crate::text::key_lt;
use super::dedup::{live, live_count};
use super::refs::{entries_mention, mentions, rename, rename_entries};
use super::{put, Builder, Cell, State};

verus! {

/// Does the value list positions in a file?
pub open spec fn is_range(v: Obj) -> bool {
    v is Array && v->Array_0.len() > 0 && v->Array_0[0] is Integer
}

/// Is it a signature dictionary? It has that type, or says which bytes were signed. An entry of that
/// name which lists no positions itself counts beside the signature only: a resource may have that name
/// too.
pub open spec fn signs(d: Entries) -> bool {
    dict_is_name(d, "Type"@, "Sig"@) || match dict_get(d, "ByteRange"@) {
        Some(v) => is_range(v) || dict_has(d, "Contents"@),
        None => false,
    }
}

/// Is there a signature dictionary in `o`?
pub open spec fn holds_signature(o: Obj) -> bool
    decreases o,
{
    match o {
        Obj::Array(items) => exists|i: int| 0 <= i < items.len() && holds_signature(#[trigger] items[i]),
        Obj::Dictionary(d) => signs(d) || entries_signed(d),
        Obj::Stream(d, _) => entries_signed(d),
        _ => false,
    }
}

/// Is there a signature dictionary in the values of a dictionary?
pub open spec fn entries_signed(d: Entries) -> bool
    decreases d,
{
    exists|i: int| 0 <= i < d.len() && holds_signature((#[trigger] d[i]).1)
}

/// `o` with null in place of each signature dictionary.
pub open spec fn unsigned(o: Obj) -> Obj
    decreases o,
{
    match o {
        Obj::Array(items) => Obj::Array(
            Seq::new(
                items.len(),
                |i: int|
                    if 0 <= i < items.len() {
                        unsigned(items[i])
                    } else {
                        Obj::Null
                    },
            ),
        ),
        Obj::Dictionary(d) => if signs(d) {
            Obj::Null
        } else {
            Obj::Dictionary(unsigned_entries(d))
        },
        Obj::Stream(d, data) => Obj::Stream(unsigned_entries(d), data),
        _ => o,
    }
}

/// A dictionary with null in place of each signature dictionary in its values.
pub open spec fn unsigned_entries(d: Entries) -> Entries
    decreases d,
{
    Seq::new(
        d.len(),
        |i: int|
            if 0 <= i < d.len() {
                (d[i].0, unsigned(d[i].1))
            } else {
                (seq![], Obj::Null)
            },
    )
}

/// A place with null in place of each signature dictionary in its object.
pub open spec fn unsigned_cell(cell: Cell) -> Cell {
    Cell {
        object: match cell.object {
            Some(o) => Some(unsigned(o)),
            None => None,
        },
        pinned: cell.pinned,
    }
}

/// The places with null in place of each signature dictionary in their objects.
pub open spec fn unsigned_cells(slots: Seq<Cell>) -> Seq<Cell> {
    Seq::new(slots.len(), |i: int| unsigned_cell(slots[i]))
}

/// Does no object hold a signature dictionary?
pub open spec fn all_unsigned(slots: Seq<Cell>) -> bool {
    forall|n: nat| #[trigger] live(slots, n) ==> !holds_signature(slots[n - 1].object->0)
}

/// Dictionaries with the same keys have what stands under `k` at the same position.
pub proof fn same_place(a: Entries, b: Entries, k: Seq<char>)
    requires
        a.len() == b.len(),
        forall|i: int| 0 <= i < a.len() ==> (#[trigger] a[i]).0 == b[i].0,
    ensures
        dict_has(a, k) <==> dict_has(b, k),
        dict_has(a, k) ==> exists|i: int|
            0 <= i < a.len() && dict_get(a, k) == Some((#[trigger] a[i]).1) && dict_get(b, k) == Some(b[i].1),
    decreases a.len(),
{
    if a.len() > 0 {
        assert(a[0].0 == b[0].0);
        let (x, y) = (a.skip(1), b.skip(1));
        assert forall|i: int| 0 <= i < x.len() implies (#[trigger] x[i]).0 == y[i].0 by {
            assert(a[i + 1].0 == b[i + 1].0);
        }
        same_place(x, y, k);
        if a[0].0 != k && dict_has(a, k) {
            let i = choose|i: int|
                0 <= i < x.len() && dict_get(x, k) == Some((#[trigger] x[i]).1) && dict_get(y, k) == Some(y[i].1);
            assert(a[i + 1] == x[i] && b[i + 1] == y[i]);
        }
    }
}

/// Of two dictionaries with the same keys, and with positions listed and names at the same places, both
/// sign or neither does.
proof fn same_signs(a: Entries, b: Entries)
    requires
        a.len() == b.len(),
        forall|i: int|
            0 <= i < a.len() ==> (#[trigger] a[i]).0 == b[i].0 && is_range(a[i].1) == is_range(b[i].1) && (
            a[i].1 is Name || b[i].1 is Name ==> a[i].1 == b[i].1),
    ensures
        signs(a) == signs(b),
{
    same_place(a, b, "Type"@);
    same_place(a, b, "ByteRange"@);
    same_place(a, b, "Contents"@);
}

/// No signature dictionary is left in an object from which they were taken.
pub proof fn unsigned_holds_none(o: Obj)
    ensures
        !holds_signature(unsigned(o)),
    decreases o,
{
    match o {
        Obj::Array(items) => {
            let out = unsigned(o)->Array_0;
            assert forall|i: int| 0 <= i < out.len() implies !holds_signature(#[trigger] out[i]) by {
                assert(out[i] == unsigned(items[i]));
                unsigned_holds_none(items[i]);
            }
        },
        Obj::Dictionary(d) => {
            unsigned_entries_hold_none(d);
        },
        Obj::Stream(d, _) => {
            unsigned_entries_hold_none(d);
        },
        _ => {},
    }
}

proof fn unsigned_range(v: Obj)
    ensures
        is_range(unsigned(v)) == is_range(v),
{
    if v is Array && v->Array_0.len() > 0 {
        assert(unsigned(v)->Array_0[0] == unsigned(v->Array_0[0]));
    }
}

proof fn rename_range(v: Obj, table: Seq<nat>)
    ensures
        is_range(rename(v, table)) == is_range(v),
{
    if v is Array && v->Array_0.len() > 0 {
        assert(rename(v, table)->Array_0[0] == rename(v->Array_0[0], table));
    }
}

proof fn unsigned_entries_hold_none(d: Entries)
    ensures
        !entries_signed(unsigned_entries(d)),
        signs(unsigned_entries(d)) == signs(d),
    decreases d,
{
    let out = unsigned_entries(d);
    assert forall|i: int| 0 <= i < out.len() implies !holds_signature((#[trigger] out[i]).1) by {
        assert(out[i].1 == unsigned(d[i].1));
        unsigned_holds_none(d[i].1);
    }
    assert forall|i: int| 0 <= i < out.len() implies (#[trigger] out[i]).0 == d[i].0 && is_range(out[i].1)
        == is_range(d[i].1) && (out[i].1 is Name || d[i].1 is Name ==> out[i].1 == d[i].1) by {
        unsigned_range(d[i].1);
    }
    same_signs(out, d);
}

/// An object without a signature dictionary stays as it is.
pub proof fn unsigned_stays(o: Obj)
    requires
        !holds_signature(o),
    ensures
        unsigned(o) == o,
    decreases o,
{
    match o {
        Obj::Array(items) => {
            assert forall|i: int| 0 <= i < items.len() implies unsigned(#[trigger] items[i]) == items[i] by {
                unsigned_stays(items[i]);
            }
            assert(unsigned(o)->Array_0 =~= items);
        },
        Obj::Dictionary(d) => {
            unsigned_entries_stay(d);
        },
        Obj::Stream(d, _) => {
            unsigned_entries_stay(d);
        },
        _ => {},
    }
}

proof fn unsigned_entries_stay(d: Entries)
    requires
        !entries_signed(d),
    ensures
        unsigned_entries(d) == d,
    decreases d,
{
    assert forall|i: int| 0 <= i < d.len() implies unsigned((#[trigger] d[i]).1) == d[i].1 by {
        unsigned_stays(d[i].1);
    }
    assert(unsigned_entries(d) =~= d);
}

/// Taking signature dictionaries out adds no reference.
pub proof fn unsigned_mentions(o: Obj, id: nat)
    requires
        mentions(unsigned(o), id),
    ensures
        mentions(o, id),
    decreases o,
{
    match o {
        Obj::Array(items) => {
            let out = unsigned(o)->Array_0;
            let i = choose|i: int| 0 <= i < out.len() && mentions(#[trigger] out[i], id);
            assert(out[i] == unsigned(items[i]));
            unsigned_mentions(items[i], id);
        },
        Obj::Dictionary(d) => {
            assert(entries_mention(unsigned_entries(d), id));
            unsigned_entries_mention(d, id);
        },
        Obj::Stream(d, _) => {
            assert(entries_mention(unsigned_entries(d), id));
            unsigned_entries_mention(d, id);
        },
        _ => {},
    }
}

proof fn unsigned_entries_mention(d: Entries, id: nat)
    requires
        entries_mention(unsigned_entries(d), id),
    ensures
        entries_mention(d, id),
    decreases d,
{
    let out = unsigned_entries(d);
    let i = choose|i: int| 0 <= i < out.len() && mentions((#[trigger] out[i]).1, id);
    assert(out[i].1 == unsigned(d[i].1));
    unsigned_mentions(d[i].1, id);
}

/// Turning references to other numbers makes no signature dictionary.
pub proof fn rename_unsigned(o: Obj, table: Seq<nat>)
    requires
        !holds_signature(o),
    ensures
        !holds_signature(rename(o, table)),
    decreases o,
{
    match o {
        Obj::Array(items) => {
            let out = rename(o, table)->Array_0;
            assert forall|i: int| 0 <= i < out.len() implies !holds_signature(#[trigger] out[i]) by {
                assert(out[i] == rename(items[i], table));
                rename_unsigned(items[i], table);
            }
        },
        Obj::Dictionary(d) => {
            rename_entries_unsigned(d, table);
        },
        Obj::Stream(d, _) => {
            rename_entries_unsigned(d, table);
        },
        _ => {},
    }
}

proof fn rename_entries_unsigned(d: Entries, table: Seq<nat>)
    requires
        !entries_signed(d),
    ensures
        !entries_signed(rename_entries(d, table)),
        signs(rename_entries(d, table)) == signs(d),
    decreases d,
{
    let out = rename_entries(d, table);
    assert forall|i: int| 0 <= i < out.len() implies !holds_signature((#[trigger] out[i]).1) by {
        assert(out[i].1 == rename(d[i].1, table));
        rename_unsigned(d[i].1, table);
    }
    assert forall|i: int| 0 <= i < out.len() implies (#[trigger] out[i]).0 == d[i].0 && is_range(out[i].1)
        == is_range(d[i].1) && (out[i].1 is Name || d[i].1 is Name ==> out[i].1 == d[i].1) by {
        rename_range(d[i].1, table);
    }
    same_signs(out, d);
}

/// An empty dictionary is no signature dictionary.
pub proof fn empty_unsigned()
    ensures
        !holds_signature(Obj::Dictionary(Seq::empty())),
{
    let d: Entries = Seq::empty();
    assert(!entries_signed(d));
    assert(!dict_has(d, "ByteRange"@));
    assert(!dict_has(d, "Type"@));
}

/// An entry under a key other than those of a signature makes no signature dictionary.
pub proof fn insert_unsigned(d: Entries, key: Seq<char>, v: Obj)
    requires
        !holds_signature(Obj::Dictionary(d)),
        !holds_signature(v),
        key != "ByteRange"@ && key != "Contents"@,
        key == "Type"@ ==> v != Obj::Name("Sig"@),
    ensures
        !holds_signature(Obj::Dictionary(dict_insert(d, key, v))),
{
    dict_get_insert(d, key, v, "Type"@);
    dict_get_insert(d, key, v, "ByteRange"@);
    dict_get_insert(d, key, v, "Contents"@);
    insert_entries_unsigned(d, key, v);
}

proof fn insert_entries_unsigned(d: Entries, key: Seq<char>, v: Obj)
    requires
        !entries_signed(d),
        !holds_signature(v),
    ensures
        !entries_signed(dict_insert(d, key, v)),
    decreases d.len(),
{
    let e = dict_insert(d, key, v);
    if d.len() > 0 && d[0].0 != key && !key_lt(key, d[0].0) {
        let rest = d.skip(1);
        assert forall|i: int| 0 <= i < rest.len() implies !holds_signature((#[trigger] rest[i]).1) by {
            assert(rest[i] == d[i + 1]);
        }
        insert_entries_unsigned(rest, key, v);
        let more = dict_insert(rest, key, v);
        assert forall|i: int| 0 <= i < e.len() implies !holds_signature((#[trigger] e[i]).1) by {
            if i == 0 {
                assert(e[0] == d[0]);
            } else {
                assert(e[i] == more[i - 1]);
            }
        }
    } else {
        assert forall|i: int| 0 <= i < e.len() implies !holds_signature((#[trigger] e[i]).1) by {
            if i > 0 {
                if d[0].0 == key {
                    assert(e[i] == d[i]);
                } else {
                    assert(e[i] == d[i - 1]);
                }
            }
        }
    }
}

/// Taking an entry out makes no signature dictionary.
pub proof fn remove_unsigned(d: Entries, key: Seq<char>)
    requires
        !holds_signature(Obj::Dictionary(d)),
    ensures
        !holds_signature(Obj::Dictionary(dict_remove(d, key))),
{
    dict_get_remove(d, key, "Type"@);
    dict_get_remove(d, key, "ByteRange"@);
    dict_get_remove(d, key, "Contents"@);
    remove_entries_unsigned(d, key);
}

/// Taking an entry out puts no signature dictionary into the values.
pub proof fn remove_entries_unsigned(d: Entries, key: Seq<char>)
    requires
        !entries_signed(d),
    ensures
        !entries_signed(dict_remove(d, key)),
    decreases d.len(),
{
    if d.len() > 0 {
        let rest = d.skip(1);
        assert forall|i: int| 0 <= i < rest.len() implies !holds_signature((#[trigger] rest[i]).1) by {
            assert(rest[i] == d[i + 1]);
        }
        remove_entries_unsigned(rest, key);
        let e = dict_remove(d, key);
        let less = dict_remove(rest, key);
        assert forall|i: int| 0 <= i < e.len() implies !holds_signature((#[trigger] e[i]).1) by {
            if d[0].0 == key {
                assert(e[i] == less[i]);
            } else if i == 0 {
                assert(e[0] == d[0]);
            } else {
                assert(e[i] == less[i - 1]);
            }
        }
    }
}

/// Taking signature dictionaries out leaves as many objects as there were.
pub proof fn unsigned_count(slots: Seq<Cell>)
    ensures
        live_count(unsigned_cells(slots)) == live_count(slots),
    decreases slots.len(),
{
    if slots.len() > 0 {
        unsigned_count(slots.drop_last());
        assert(unsigned_cells(slots).drop_last() =~= unsigned_cells(slots.drop_last()));
    }
}

/// Is there a signature dictionary in `o`?
fn has_signature(o: &Object) -> (r: bool)
    ensures
        r == holds_signature(o@),
    decreases o@,
{
    broadcast use array_view;

    match o {
        Object::Array(a) => {
            let mut i: usize = 0;
            while i < a.len()
                invariant
                    i <= a@.len(),
                    o@ == Obj::Array(views(a@)),
                    forall|j: int| 0 <= j < i ==> !holds_signature((#[trigger] a@[j])@),
                decreases a@.len() - i,
            {
                assert(decreases_to!(o@ => o@->Array_0));
                assert(decreases_to!(views(a@) => views(a@)[i as int]));
                if has_signature(&a[i]) {
                    assert(holds_signature(views(a@)[i as int]));
                    return true;
                }
                i += 1;
            }
            assert forall|j: int| 0 <= j < views(a@).len() implies !holds_signature(#[trigger] views(a@)[j]) by {
                assert(!holds_signature(a@[j]@));
            }
            false
        },
        Object::Dictionary(d) => {
            assert(decreases_to!(o@ => o@->Dictionary_0));
            is_signature_dict(d) || has_signed_entry(d)
        },
        Object::Stream { dict, .. } => {
            assert(decreases_to!(o@ => o@->Stream_0));
            has_signed_entry(dict)
        },
        _ => false,
    }
}

fn is_signature_dict(d: &Dict) -> (r: bool)
    ensures
        r == signs(d@),
{
    broadcast use array_view;

    if d.is_name("Type", "Sig") {
        return true;
    }
    match d.get("ByteRange") {
        Some(Object::Array(a)) => {
            let ranged = a.len() > 0 && matches!(a[0], Object::Integer(_));
            ranged || d.contains_key("Contents")
        },
        Some(_) => d.contains_key("Contents"),
        None => false,
    }
}

fn has_signed_entry(d: &Dict) -> (r: bool)
    ensures
        r == entries_signed(d@),
    decreases d@,
{
    let n = d.len();
    let mut i: usize = 0;
    while i < n
        invariant
            i <= n == d@.len(),
            forall|j: int| 0 <= j < i ==> !holds_signature((#[trigger] d@[j]).1),
        decreases n - i,
    {
        assert(decreases_to!(d@ => d@[i as int]));
        assert(decreases_to!(d@[i as int] => d@[i as int].1));
        if has_signature(d.value_at(i)) {
            return true;
        }
        i += 1;
    }
    false
}

/// A copy of `o` with null in place of each signature dictionary.
pub fn unsigned_copy(o: &Object) -> (r: Object)
    ensures
        r@ == unsigned(o@),
    decreases o@,
{
    broadcast use array_view;

    match o {
        Object::Array(a) => {
            let mut out: Vec<Object> = Vec::new();
            let mut i: usize = 0;
            while i < a.len()
                invariant
                    i <= a@.len(),
                    out@.len() == i,
                    o@ == Obj::Array(views(a@)),
                    forall|j: int| 0 <= j < i ==> (#[trigger] out@[j])@ == unsigned(a@[j]@),
                decreases a@.len() - i,
            {
                assert(decreases_to!(o@ => o@->Array_0));
                assert(decreases_to!(views(a@) => views(a@)[i as int]));
                out.push(unsigned_copy(&a[i]));
                i += 1;
            }
            assert(views(out@) =~= unsigned(o@)->Array_0);
            Object::Array(out)
        },
        Object::Dictionary(d) => {
            assert(decreases_to!(o@ => o@->Dictionary_0));
            if is_signature_dict(d) {
                Object::Null
            } else {
                Object::Dictionary(unsigned_dict(d))
            }
        },
        Object::Stream { dict, .. } => {
            assert(decreases_to!(o@ => o@->Stream_0));
            let copy = o.clone();
            match copy {
                Object::Stream { data, .. } => Object::Stream { dict: unsigned_dict(dict), data },
                _ => copy,
            }
        },
        _ => o.clone(),
    }
}

fn unsigned_dict(d: &Dict) -> (r: Dict)
    ensures
        r@ == unsigned_entries(d@),
    decreases d@,
{
    let n = d.len();
    let mut out: Vec<(String, Object)> = Vec::new();
    let mut i: usize = 0;
    while i < n
        invariant
            i <= n == d@.len(),
            out@.len() == i,
            forall|j: int|
                0 <= j < i ==> (#[trigger] out@[j]).0@ == d@[j].0 && out@[j].1@ == unsigned(d@[j].1),
        decreases n - i,
    {
        assert(decreases_to!(d@ => d@[i as int]));
        assert(decreases_to!(d@[i as int] => d@[i as int].1));
        let key = d.key_at(i).clone();
        out.push((key, unsigned_copy(d.value_at(i))));
        i += 1;
    }
    proof {
        let e = unsigned_entries(d@);
        assert(entry_views(out@) =~= e);
        assert forall|i: int, j: int| 0 <= i < j < e.len() implies key_lt(
            #[trigger] e[i].0,
            #[trigger] e[j].0,
        ) by {
            assert(e[i].0 == d@[i].0 && e[j].0 == d@[j].0);
        }
        assert(dict_sorted(entry_views(out@)));
    }
    Dict::from_sorted(out)
}

impl<'a> Builder<'a> {
    /// Put null in place of each signature dictionary.
    pub fn drop_signatures(&mut self)
        ensures
            final(self).env() == old(self).env(),
            final(self)@ == (State { slots: unsigned_cells(old(self)@.slots), ..old(self)@ }),
    {
        let n = self.slots.len();
        let ghost slots = old(self)@.slots;
        let ghost after = unsigned_cells(slots);
        let mut i: usize = 0;
        while i < n
            invariant
                i <= n == slots.len(),
                slots == old(self)@.slots,
                after == unsigned_cells(slots),
                self.env() == old(self).env(),
                self@ == (State { slots: self@.slots, ..old(self)@ }),
                self@.slots.len() == n,
                forall|j: int| 0 <= j < i ==> (#[trigger] self@.slots[j]) == after[j],
                forall|j: int| i <= j < n ==> (#[trigger] self@.slots[j]) == slots[j],
            decreases n - i,
        {
            let id: usize = i + 1;
            let ghost prev = self@;
            assert(prev.slots[i as int] == slots[i as int]);
            let taken = self.take(id);
            if let Some(o) = taken {
                if has_signature(&o) {
                    self.put(id, unsigned_copy(&o));
                } else {
                    proof {
                        unsigned_stays(o@);
                    }
                    self.put(id, o);
                }
            }
            assert(self@.slots[i as int] == unsigned_cell(slots[i as int]));
            assert forall|j: int| 0 <= j < n && j != i implies (#[trigger] self@.slots[j]) == prev.slots[j] by {}
            i += 1;
        }
        assert(self@.slots =~= after);
    }
}

} // verus!
