//! Values that hold no references: what a destination, an action or a text of the source holds is
//! taken over without leading back into the source.

use vstd::prelude::*;
use crate::document::PdfDocument;
use crate::object::{array_view, dict_get, dict_insert, dict_sorted, entry_views, views, Dict, Entries, Obj, Object};
use crate::text::key_lt;
use super::copy::keys_of;
use super::refs::{entries_mention, mentions};

verus! {

/// Is it a value without parts that is no reference?
pub open spec fn is_plain(o: Obj) -> bool {
    !(o is Reference) && !(o is Array) && !(o is Dictionary) && !(o is Stream)
}

/// The plain value that `o` is or refers to; null where there is none.
pub open spec fn plain_value(doc: PdfDocument, o: Obj) -> Obj {
    match o {
        Obj::Reference(id, _) => match doc.lookup(id) {
            Some(v) => if is_plain(v) {
                v
            } else {
                Obj::Null
            },
            None => Obj::Null,
        },
        _ => if is_plain(o) {
            o
        } else {
            Obj::Null
        },
    }
}

/// What a reference to the object of number `id` stands for: a plain value, or an array of plain
/// values. Null stands for all else.
pub open spec fn referred_value(doc: PdfDocument, id: nat) -> Obj {
    match doc.lookup(id) {
        Some(Obj::Array(items)) => Obj::Array(items.map_values(|o: Obj| plain_value(doc, o))),
        _ => plain_value(doc, Obj::Reference(id, 0)),
    }
}

/// `o` with what they stand for in place of its references.
pub open spec fn direct(doc: PdfDocument, o: Obj) -> Obj
    decreases o,
{
    match o {
        Obj::Reference(id, _) => referred_value(doc, id),
        Obj::Array(items) => Obj::Array(
            Seq::new(
                items.len(),
                |i: int|
                    if 0 <= i < items.len() {
                        direct(doc, items[i])
                    } else {
                        Obj::Null
                    },
            ),
        ),
        Obj::Dictionary(d) => Obj::Dictionary(direct_entries(doc, d)),
        Obj::Stream(_, _) => Obj::Null,
        _ => o,
    }
}

/// A dictionary with what they stand for in place of the references in its values.
pub open spec fn direct_entries(doc: PdfDocument, d: Entries) -> Entries
    decreases d,
{
    Seq::new(
        d.len(),
        |i: int|
            if 0 <= i < d.len() {
                (d[i].0, direct(doc, d[i].1))
            } else {
                (seq![], Obj::Null)
            },
    )
}

/// `into` with the entries of `from` under the given keys, each without references.
pub open spec fn pick(doc: PdfDocument, from: Entries, keys: Seq<Seq<char>>, into: Entries) -> Entries
    decreases keys.len(),
{
    if keys.len() == 0 {
        into
    } else {
        let out = pick(doc, from, keys.drop_last(), into);
        match dict_get(from, keys.last()) {
            Some(v) => dict_insert(out, keys.last(), direct(doc, v)),
            None => out,
        }
    }
}

/// A value without references refers to nothing.
pub proof fn direct_mentions_none(doc: PdfDocument, o: Obj, m: nat)
    ensures
        !mentions(direct(doc, o), m),
    decreases o,
{
    match o {
        Obj::Reference(id, _) => {
            if let Some(Obj::Array(items)) = doc.lookup(id) {
                let out = direct(doc, o)->Array_0;
                assert forall|i: int| 0 <= i < out.len() implies !mentions(#[trigger] out[i], m) by {
                    assert(out[i] == plain_value(doc, items[i]));
                }
            }
        },
        Obj::Array(items) => {
            let out = direct(doc, o)->Array_0;
            assert forall|i: int| 0 <= i < out.len() implies !mentions(#[trigger] out[i], m) by {
                assert(out[i] == direct(doc, items[i]));
                direct_mentions_none(doc, items[i], m);
            }
        },
        Obj::Dictionary(d) => {
            direct_entries_mention_none(doc, d, m);
        },
        _ => {},
    }
}

/// A dictionary without references refers to nothing.
pub proof fn direct_entries_mention_none(doc: PdfDocument, d: Entries, m: nat)
    ensures
        !entries_mention(direct_entries(doc, d), m),
    decreases d,
{
    let out = direct_entries(doc, d);
    assert forall|i: int| 0 <= i < out.len() implies !mentions((#[trigger] out[i]).1, m) by {
        assert(out[i].1 == direct(doc, d[i].1));
        direct_mentions_none(doc, d[i].1, m);
    }
}

fn plain_value_of(doc: &PdfDocument, o: &Object) -> (r: Object)
    ensures
        r@ == plain_value(*doc, o@),
{
    let found = match o {
        Object::Reference(r) => match doc.load_object(*r) {
            Some(v) => v,
            None => return Object::Null,
        },
        _ => o,
    };
    match found {
        Object::Reference(_) => Object::Null,
        Object::Array(_) => Object::Null,
        Object::Dictionary(_) => Object::Null,
        Object::Stream { .. } => Object::Null,
        _ => found.clone(),
    }
}

/// A copy of `o` without references.
pub fn direct_copy(doc: &PdfDocument, o: &Object) -> (r: Object)
    ensures
        r@ == direct(*doc, o@),
    decreases o@,
{
    broadcast use array_view;

    match o {
        Object::Reference(r) => match doc.load_object(*r) {
            Some(Object::Array(a)) => {
                let mut out: Vec<Object> = Vec::new();
                let mut i: usize = 0;
                while i < a.len()
                    invariant
                        i <= a@.len(),
                        out@.len() == i,
                        forall|j: int| 0 <= j < i ==> (#[trigger] out@[j])@ == plain_value(*doc, a@[j]@),
                    decreases a@.len() - i,
                {
                    out.push(plain_value_of(doc, &a[i]));
                    i += 1;
                }
                assert(views(out@) =~= views(a@).map_values(|o: Obj| plain_value(*doc, o)));
                Object::Array(out)
            },
            _ => plain_value_of(doc, o),
        },
        Object::Array(a) => {
            let mut out: Vec<Object> = Vec::new();
            let mut i: usize = 0;
            while i < a.len()
                invariant
                    i <= a@.len(),
                    out@.len() == i,
                    o@ == Obj::Array(views(a@)),
                    forall|j: int| 0 <= j < i ==> (#[trigger] out@[j])@ == direct(*doc, a@[j]@),
                decreases a@.len() - i,
            {
                assert(decreases_to!(o@ => o@->Array_0));
                assert(decreases_to!(views(a@) => views(a@)[i as int]));
                out.push(direct_copy(doc, &a[i]));
                i += 1;
            }
            assert(views(out@) =~= direct(*doc, o@)->Array_0);
            Object::Array(out)
        },
        Object::Dictionary(d) => {
            assert(decreases_to!(o@ => o@->Dictionary_0));
            Object::Dictionary(direct_dict(doc, d))
        },
        Object::Stream { .. } => Object::Null,
        _ => o.clone(),
    }
}

/// A copy of a dictionary without references.
pub fn direct_dict(doc: &PdfDocument, d: &Dict) -> (r: Dict)
    ensures
        r@ == direct_entries(*doc, d@),
    decreases d@,
{
    let n = d.len();
    let mut out: Vec<(String, Object)> = Vec::new();
    let mut i: usize = 0;
    while i < n
        invariant
            i <= n == d@.len(),
            out@.len() == i,
            forall|j: int|
                0 <= j < i ==> (#[trigger] out@[j]).0@ == d@[j].0 && out@[j].1@ == direct(*doc, d@[j].1),
        decreases n - i,
    {
        assert(decreases_to!(d@ => d@[i as int]));
        assert(decreases_to!(d@[i as int] => d@[i as int].1));
        let key = d.key_at(i).clone();
        out.push((key, direct_copy(doc, d.value_at(i))));
        i += 1;
    }
    proof {
        let e = direct_entries(*doc, d@);
        assert(entry_views(out@) =~= e);
        assert forall|i: int, j: int| 0 <= i < j < e.len() implies key_lt(
            #[trigger] e[i].0,
            #[trigger] e[j].0,
        ) by {
            assert(e[i].0 == d@[i].0 && e[j].0 == d@[j].0);
        }
        assert(dict_sorted(entry_views(out@)));
    }
    Dict::from_sorted(out)
}

/// The entries of `from` under the given keys, put into `into` without references.
pub fn pick_keys(doc: &PdfDocument, from: &Dict, keys: &[&str], into: Dict) -> (r: Dict)
    ensures
        r@ == pick(*doc, from@, keys_of(keys@), into@),
{
    let mut out = into;
    let mut i: usize = 0;
    assert(keys_of(keys@).take(0) =~= Seq::empty());
    while i < keys.len()
        invariant
            i <= keys@.len(),
            out@ == pick(*doc, from@, keys_of(keys@).take(i as int), into@),
        decreases keys@.len() - i,
    {
        proof {
            let t = keys_of(keys@).take(i + 1);
            assert(t.drop_last() =~= keys_of(keys@).take(i as int));
            assert(t.last() == keys@[i as int]@);
        }
        if let Some(v) = from.get(keys[i]) {
            out.insert(keys[i], direct_copy(doc, v));
        }
        i += 1;
    }
    assert(keys_of(keys@).take(i as int) =~= keys_of(keys@));
    out
}

} // verus!
