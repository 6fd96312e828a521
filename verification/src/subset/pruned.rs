//! What a kept outline entry and a kept structure element have of those of the source.

use vstd::prelude::*;
use crate::document::PdfDocument;
use crate::object::{
    dict_get, dict_get_insert, dict_has, dict_insert, dict_ref, new_ref, Entries, Obj,
};
use super::again::{chain_remembers, elem_kids_remember};
use super::copy::{carry, refs};
use super::dests::{catalog, remap_action, remap_dest};
use super::direct::{direct, pick};
use super::faithful::ids_placed;
use super::found::{is_catalog, simple};
use super::kept::{carried, entry_kept};
use super::outlines::{
    entry_dict, entry_keys, outline_chain, outline_dest, outline_item, outlines, siblings,
    with_kids,
};
use super::struct_tree::{
    element_dict, element_keys, finish_root, k_items, k_value, kept_page, mark_page, parent_nums,
    struct_elem, struct_kid, struct_kids, Marks,
};
use super::{has_slot, next_id, object_at, put, set_pin, with_slot, Env, State};

verus! {

proof fn picked(doc: PdfDocument, from: Entries, keys: Seq<Seq<char>>, into: Entries, key: Seq<char>)
    ensures
        keys.contains(key) && !dict_has(into, key) ==> dict_get(pick(doc, from, keys, into), key) == (match dict_get(
            from,
            key,
        ) {
            Some(v) => Some(direct(doc, v)),
            None => None,
        }),
        !keys.contains(key) ==> dict_get(pick(doc, from, keys, into), key) == dict_get(into, key),
    decreases keys.len(),
{
    if keys.len() > 0 {
        let front = keys.drop_last();
        picked(doc, from, front, into, key);
        let out = pick(doc, from, front, into);
        assert(keys[keys.len() - 1] == keys.last());
        assert(keys.contains(key) <==> front.contains(key) || key == keys.last()) by {
            if front.contains(key) {
                let i = choose|i: int| 0 <= i < front.len() && front[i] == key;
                assert(keys[i] == key);
            }
            if keys.contains(key) {
                let i = choose|i: int| 0 <= i < keys.len() && keys[i] == key;
                if i < front.len() {
                    assert(front[i] == key);
                }
            }
        }
        if let Some(v) = dict_get(from, keys.last()) {
            dict_get_insert(out, keys.last(), direct(doc, v), key);
        }
    }
}

/// Does `to` have the key exactly where `from` has it, with the same value? A value that is referred to
/// stands in place of the reference.
pub open spec fn entry_taken(doc: PdfDocument, from: Entries, to: Entries, key: Seq<char>) -> bool {
    &&& dict_has(to, key) <==> dict_has(from, key)
    &&& dict_get(from, key) matches Some(v) ==> {
        &&& simple(v) ==> dict_get(to, key) == Some(v)
        &&& v matches Obj::Array(a) ==> (forall|i: int| 0 <= i < a.len() ==> simple(#[trigger] a[i])) ==> dict_get(to, key)
            == Some(v)
        &&& v matches Obj::Reference(id, _) ==> (doc.lookup(id) matches Some(o) ==> simple(o) ==> dict_get(to, key)
            == Some(o))
    }
}

proof fn direct_taken(doc: PdfDocument, from: Entries, to: Entries, key: Seq<char>)
    requires
        dict_get(to, key) == (match dict_get(from, key) {
            Some(v) => Some(direct(doc, v)),
            None => None,
        }),
    ensures
        entry_taken(doc, from, to, key),
{
    if let Some(Obj::Array(a)) = dict_get(from, key) {
        if forall|i: int| 0 <= i < a.len() ==> simple(#[trigger] a[i]) {
            let b = direct(doc, Obj::Array(a))->Array_0;
            assert forall|i: int| 0 <= i < a.len() implies b[i] == a[i] by {
                assert(simple(a[i]));
                assert(direct(doc, a[i]) == a[i]);
            }
            assert(b =~= a);
        }
    }
}

proof fn entry_words()
    ensures
        ({
            let w = seq!["Title"@, "C"@, "F"@, "Parent"@, "Dest"@, "A"@, "First"@, "Last"@, "Count"@];
            &&& w.no_duplicates()
            &&& w[0] == "Title"@ && w[1] == "C"@ && w[2] == "F"@ && w[3] == "Parent"@ && w[4] == "Dest"@ && w[5] == "A"@
            &&& w[6] == "First"@ && w[7] == "Last"@ && w[8] == "Count"@
        }),
{
    reveal_strlit("Title");
    reveal_strlit("C");
    reveal_strlit("F");
    reveal_strlit("Parent");
    reveal_strlit("Dest");
    reveal_strlit("A");
    reveal_strlit("First");
    reveal_strlit("Last");
    reveal_strlit("Count");
    assert("Title"@.len() == 5 && "Title"@[0] == 'T');
    assert("C"@.len() == 1 && "C"@[0] == 'C' && "F"@.len() == 1 && "F"@[0] == 'F' && "A"@.len() == 1 && "A"@[0] == 'A');
    assert("Parent"@.len() == 6 && "Dest"@.len() == 4 && "Dest"@[0] == 'D' && "Last"@.len() == 4 && "Last"@[0] == 'L');
    assert("First"@.len() == 5 && "First"@[0] == 'F' && "Count"@.len() == 5 && "Count"@[0] == 'C');
}

/// Does the dictionary lead to the given kids: the first, the last, and how many there are?
pub open spec fn leads_to_kids(d: Entries, kids: Seq<nat>) -> bool {
    if kids.len() == 0 {
        !dict_has(d, "First"@) && !dict_has(d, "Last"@) && !dict_has(d, "Count"@)
    } else {
        dict_get(d, "First"@) == Some(new_ref(kids[0])) && dict_get(d, "Last"@) == Some(new_ref(kids.last())) && dict_get(
            d,
            "Count"@,
        ) == Some(Obj::Integer(kids.len() as i64))
    }
}

proof fn kids_led(d: Entries, kids: Seq<nat>, key: Seq<char>)
    ensures
        ({
            let e = with_kids(d, kids);
            &&& dict_get(e, "First"@) == Some(new_ref(kids[0]))
            &&& dict_get(e, "Last"@) == Some(new_ref(kids.last()))
            &&& dict_get(e, "Count"@) == Some(Obj::Integer(kids.len() as i64))
            &&& key != "First"@ && key != "Last"@ && key != "Count"@ ==> dict_get(e, key) == dict_get(d, key)
        }),
{
    entry_words();
    let a = dict_insert(d, "First"@, new_ref(kids[0]));
    let b = dict_insert(a, "Last"@, new_ref(kids.last()));
    let n = Obj::Integer(kids.len() as i64);
    dict_get_insert(d, "First"@, new_ref(kids[0]), "First"@);
    dict_get_insert(a, "Last"@, new_ref(kids.last()), "First"@);
    dict_get_insert(b, "Count"@, n, "First"@);
    dict_get_insert(a, "Last"@, new_ref(kids.last()), "Last"@);
    dict_get_insert(b, "Count"@, n, "Last"@);
    dict_get_insert(b, "Count"@, n, "Count"@);
    dict_get_insert(d, "First"@, new_ref(kids[0]), key);
    dict_get_insert(a, "Last"@, new_ref(kids.last()), key);
    dict_get_insert(b, "Count"@, n, key);
}

/// A kept outline entry has the title, the colour and the style of the source entry, leads back to what
/// it stands under and on to the entries below it that are kept, and leads where the source entry led:
/// by its destination, or without one by its jump.
pub proof fn outline_entry_has_its_entries(env: Env, st: State, src: nat, item: Entries, parent: nat, depth: nat)
    requires
        depth <= 64,
        outline_item(env, st, src, item, parent, depth).1 is Some,
    ensures
        ({
            let doc = env.docs[src as int];
            let (s, n) = outline_item(env, st, src, item, parent, depth);
            let me = next_id(st);
            let kids = outline_chain(
                env,
                set_pin(with_slot(st), me, true),
                src,
                dict_ref(item, "First"@),
                me,
                depth + 1,
            ).1;
            let d = object_at(s, me)->0->Dictionary_0;
            &&& n == Some(me)
            &&& object_at(s, me) is Some
            &&& object_at(s, me)->0 is Dictionary
            &&& dict_get(d, "Parent"@) == Some(new_ref(parent))
            &&& entry_taken(doc, item, d, "Title"@)
            &&& entry_taken(doc, item, d, "C"@)
            &&& entry_taken(doc, item, d, "F"@)
            &&& dict_get(item, "Dest"@) matches Some(dest) ==> dict_get(d, "Dest"@) == remap_dest(env, src, dest)
                && !dict_has(d, "A"@)
            &&& dict_get(item, "Dest"@) is None ==> !dict_has(d, "Dest"@)
            &&& dict_get(item, "Dest"@) is None ==> (dict_get(item, "A"@) matches Some(Obj::Dictionary(a)) ==> dict_get(
                d,
                "A"@,
            ) == (if dict_get(a, "S"@) == Some(Obj::Name("GoTo"@)) {
                remap_action(env, src, Obj::Dictionary(a))
            } else {
                None
            }))
            &&& leads_to_kids(d, kids)
        }),
{
    let doc = env.docs[src as int];
    let me = next_id(st);
    let (s1, kids) = outline_chain(
        env,
        set_pin(with_slot(st), me, true),
        src,
        dict_ref(item, "First"@),
        me,
        depth + 1,
    );
    let dest = outline_dest(env, src, item);
    chain_leaves_room(env, set_pin(with_slot(st), me, true), src, dict_ref(item, "First"@), me, depth + 1);
    let none: Entries = Seq::empty();
    let d0 = dict_insert(none, "Parent"@, new_ref(parent));
    let d1 = pick(doc, item, entry_keys(), d0);
    let d2 = match dest {
        Some((key, value)) => dict_insert(d1, key, value),
        None => d1,
    };
    let d = entry_dict(doc, item, parent, dest, kids);
    entry_words();
    let keys = entry_keys();
    assert(keys[0] == "Title"@ && keys[1] == "C"@ && keys[2] == "F"@);
    assert forall|key: Seq<char>| keys.contains(key) implies key == "Title"@ || key == "C"@ || key == "F"@ by {}
    assert forall|key: Seq<char>|
        #![trigger dict_get(d, key)]
        key == "Title"@ || key == "C"@ || key == "F"@ || key == "Parent"@ || key == "Dest"@ || key == "A"@ || key
            == "First"@ || key == "Last"@ || key == "Count"@ implies dict_get(d, key) == (if kids.len() > 0 && key
        == "First"@ {
        Some(new_ref(kids[0]))
    } else if kids.len() > 0 && key == "Last"@ {
        Some(new_ref(kids.last()))
    } else if kids.len() > 0 && key == "Count"@ {
        Some(Obj::Integer(kids.len() as i64))
    } else if dest is Some && key == (dest->0).0 {
        Some((dest->0).1)
    } else if key == "Parent"@ {
        Some(new_ref(parent))
    } else if keys.contains(key) {
        match dict_get(item, key) {
            Some(v) => Some(direct(doc, v)),
            None => None,
        }
    } else {
        None
    }) by {
        dict_get_insert(none, "Parent"@, new_ref(parent), key);
        assert(!dict_has(none, key));
        picked(doc, item, keys, d0, key);
        if let Some((k, v)) = dest {
            dict_get_insert(d1, k, v, key);
        }
        if kids.len() > 0 {
            kids_led(d2, kids, key);
        }
    }
    assert(keys.contains("Title"@) && keys.contains("C"@) && keys.contains("F"@));
    direct_taken(doc, item, d, "Title"@);
    direct_taken(doc, item, d, "C"@);
    direct_taken(doc, item, d, "F"@);
    assert(dict_get(d, "Dest"@) is Some ==> dest is Some && (dest->0).0 == "Dest"@);
    assert(dict_get(d, "A"@) is Some ==> dest is Some && (dest->0).0 == "A"@);
    assert(dict_get(d, "First"@) is Some ==> kids.len() > 0);
    assert(dict_get(d, "Last"@) is Some ==> kids.len() > 0);
    assert(dict_get(d, "Count"@) is Some ==> kids.len() > 0);
}

/// Building entries takes nothing away.
proof fn chain_leaves_room(env: Env, st: State, src: nat, first: Option<nat>, parent: nat, depth: nat)
    ensures
        outline_chain(env, st, src, first, parent, depth).0.slots.len() >= st.slots.len(),
{
    chain_remembers(env, st, src, first, parent, depth);
}

/// The dictionary of the object of number `id`.
pub open spec fn dict_numbered(doc: PdfDocument, id: nat) -> Option<Entries> {
    match doc.lookup(id) {
        Some(Obj::Dictionary(d)) => Some(d),
        _ => None,
    }
}

/// Do the numbers lead from one entry to the next, each to a dictionary, with the last leading on to
/// none?
pub open spec fn is_row(doc: PdfDocument, path: Seq<nat>) -> bool {
    &&& forall|i: int| 0 <= i < path.len() ==> dict_numbered(doc, #[trigger] path[i]) is Some
    &&& forall|i: int|
        0 <= i < path.len() ==> dict_ref(dict_numbered(doc, #[trigger] path[i])->0, "Next"@) == (if i + 1 < path.len() {
            Some(path[i + 1])
        } else {
            None
        })
    &&& path.no_duplicates()
}

proof fn row_from(doc: PdfDocument, path: Seq<nat>, k: nat, seen: Set<usize>)
    requires
        is_row(doc, path),
        k <= path.len(),
        forall|i: int| k <= i < path.len() ==> !seen.contains(#[trigger] path[i] as usize),
    ensures
        ({
            let items = siblings(
                doc,
                if k < path.len() {
                    Some(path[k as int])
                } else {
                    None
                },
                seen,
            );
            &&& items.len() == path.len() - k
            &&& forall|i: int| k <= i < path.len() ==> items[i - k] == dict_numbered(doc, #[trigger] path[i])->0
        }),
    decreases path.len() - k,
{
    if k < path.len() {
        let id = path[k as int];
        doc.ids_finite();
        let item = dict_numbered(doc, id)->0;
        let more = seen.insert(id as usize);
        assert forall|i: int| k + 1 <= i < path.len() implies !more.contains(#[trigger] path[i] as usize) by {
            assert(path[i] != id);
            assert(dict_numbered(doc, path[i]) is Some);
        }
        row_from(doc, path, k + 1, more);
        let next = if k + 1 < path.len() {
            Some(path[(k + 1) as int])
        } else {
            None
        };
        assert(dict_ref(item, "Next"@) == next);
        let rest = siblings(doc, next, more);
        let items = siblings(doc, Some(id), seen);
        assert(items == seq![item] + rest);
        assert forall|i: int| k <= i < path.len() implies items[i - k] == dict_numbered(doc, #[trigger] path[i])->0 by {
            if i > k {
                assert(rest[i - (k + 1)] == dict_numbered(doc, path[i])->0);
                assert(items[i - k] == rest[i - k - 1]);
            }
        }
    }
}

/// The entries of an outline level are those that its chain leads through, from the first on, each once
/// and in order.
pub proof fn outline_level_is_its_chain(doc: PdfDocument, path: Seq<nat>)
    requires
        is_row(doc, path),
        path.len() > 0,
    ensures
        ({
            let items = siblings(doc, Some(path[0]), Set::empty());
            &&& items.len() == path.len()
            &&& forall|i: int| 0 <= i < items.len() ==> #[trigger] items[i] == dict_numbered(doc, path[i])->0
        }),
{
    row_from(doc, path, 0, Set::empty());
    let items = siblings(doc, Some(path[0]), Set::empty());
    assert forall|i: int| 0 <= i < items.len() implies #[trigger] items[i] == dict_numbered(doc, path[i])->0 by {
        assert(items[i - 0] == dict_numbered(doc, path[i])->0);
    }
}

/// The outline of the output is that under the catalog of the source: it is there where entries of its
/// first level are kept, says that it is one, and leads to them.
pub proof fn outline_leads_to_its_entries(env: Env, st: State, src: nat, cat: Entries, root: nat, gen: u16, d: Entries)
    requires
        is_catalog(env.docs[src as int], cat),
        dict_get(cat, "Outlines"@) == Some(Obj::Reference(root, gen)),
        env.docs[src as int].lookup(root) == Some(Obj::Dictionary(d)),
    ensures
        ({
            let me = next_id(st);
            let kids = outline_chain(env, set_pin(with_slot(st), me, true), src, dict_ref(d, "First"@), me, 0).1;
            let (s, n) = outlines(env, st, src);
            let o = object_at(s, me)->0;
            &&& n is Some <==> kids.len() > 0
            &&& n is Some ==> n == Some(me) && object_at(s, me) is Some && o is Dictionary && dict_get(
                o->Dictionary_0,
                "Type"@,
            ) == Some(Obj::Name("Outlines"@)) && leads_to_kids(o->Dictionary_0, kids)
        }),
{
    let me = next_id(st);
    let (s2, kids) = outline_chain(env, set_pin(with_slot(st), me, true), src, dict_ref(d, "First"@), me, 0);
    chain_leaves_room(env, set_pin(with_slot(st), me, true), src, dict_ref(d, "First"@), me, 0);
    assert(catalog(env.docs[src as int]) == Some(cat));
    let none: Entries = Seq::empty();
    let e = dict_insert(none, "Type"@, Obj::Name("Outlines"@));
    dict_get_insert(none, "Type"@, Obj::Name("Outlines"@), "Type"@);
    reveal_strlit("Type");
    reveal_strlit("First");
    reveal_strlit("Last");
    reveal_strlit("Count");
    assert("Type"@.len() == 4 && "Type"@[0] == 'T' && "Last"@[0] == 'L' && "First"@.len() == 5 && "Count"@.len() == 5);
    kids_led(e, kids, "Type"@);
}

proof fn element_words()
    ensures
        ({
            let w = seq![
                "Alt"@,
                "ActualText"@,
                "Lang"@,
                "T"@,
                "E"@,
                "ID"@,
                "C"@,
                "Type"@,
                "P"@,
                "S"@,
                "Pg"@,
                "K"@,
            ];
            &&& w.no_duplicates()
            &&& w[0] == "Alt"@ && w[1] == "ActualText"@ && w[2] == "Lang"@ && w[3] == "T"@ && w[4] == "E"@ && w[5] == "ID"@
            &&& w[6] == "C"@ && w[7] == "Type"@ && w[8] == "P"@ && w[9] == "S"@ && w[10] == "Pg"@ && w[11] == "K"@
        }),
{
    reveal_strlit("Alt");
    reveal_strlit("ActualText");
    reveal_strlit("Lang");
    reveal_strlit("T");
    reveal_strlit("E");
    reveal_strlit("ID");
    reveal_strlit("C");
    reveal_strlit("Type");
    reveal_strlit("P");
    reveal_strlit("S");
    reveal_strlit("Pg");
    reveal_strlit("K");
    assert("Alt"@.len() == 3 && "ActualText"@.len() == 10);
    assert("Lang"@.len() == 4 && "Lang"@[0] == 'L' && "Type"@.len() == 4 && "Type"@[0] == 'T');
    assert("ID"@.len() == 2 && "ID"@[0] == 'I' && "Pg"@.len() == 2 && "Pg"@[0] == 'P');
    assert("T"@.len() == 1 && "T"@[0] == 'T' && "E"@.len() == 1 && "E"@[0] == 'E' && "C"@.len() == 1 && "C"@[0] == 'C');
    assert("P"@.len() == 1 && "P"@[0] == 'P' && "S"@.len() == 1 && "S"@[0] == 'S' && "K"@.len() == 1 && "K"@[0] == 'K');
}

/// Are `kids` what the `K` entry of the dictionary holds: a single child itself, or an array of them in
/// order?
pub open spec fn holds_kids(d: Entries, kids: Seq<Obj>) -> bool {
    dict_get(d, "K"@) == Some(
        if kids.len() == 1 {
            kids[0]
        } else {
            Obj::Array(kids)
        },
    )
}

/// A kept structure element says that it is one, leads back to the element above it, has the type, the
/// texts, the language, the title, the identifier and the class of the source element, the new page
/// where its page is kept, and its kept children.
pub proof fn structure_element_has_its_entries(
    env: Env,
    st: State,
    marks: Marks,
    src: nat,
    ed: Entries,
    parent: nat,
    depth: nat,
)
    requires
        depth <= 256,
        struct_elem(env, st, marks, src, Obj::Dictionary(ed), parent, depth).2 is Some,
    ensures
        ({
            let doc = env.docs[src as int];
            let (s, m, n) = struct_elem(env, st, marks, src, Obj::Dictionary(ed), parent, depth);
            let me = next_id(st);
            let d = object_at(s, me)->0->Dictionary_0;
            let page = match dict_get(ed, "Pg"@) {
                Some(Obj::Reference(id, _)) => if env.pages.contains_key((src, id)) {
                    Some(env.pages[(src, id)])
                } else {
                    None
                },
                _ => None,
            };
            let items = match dict_get(ed, "K"@) {
                Some(Obj::Array(a)) => a,
                Some(Obj::Reference(id, gen)) => match doc.lookup(id) {
                    Some(Obj::Array(a)) => a,
                    _ => seq![Obj::Reference(id, gen)],
                },
                Some(k) => seq![k],
                None => Seq::empty(),
            };
            let kids = struct_kids(env, with_slot(st), marks, src, items, page, me, depth).2;
            &&& n == Some(me)
            &&& object_at(s, me) is Some
            &&& object_at(s, me)->0 is Dictionary
            &&& dict_get(d, "Type"@) == Some(Obj::Name("StructElem"@))
            &&& dict_get(d, "P"@) == Some(new_ref(parent))
            &&& entry_taken(doc, ed, d, "S"@)
            &&& entry_taken(doc, ed, d, "Alt"@)
            &&& entry_taken(doc, ed, d, "ActualText"@)
            &&& entry_taken(doc, ed, d, "Lang"@)
            &&& entry_taken(doc, ed, d, "T"@)
            &&& entry_taken(doc, ed, d, "E"@)
            &&& entry_taken(doc, ed, d, "ID"@)
            &&& entry_taken(doc, ed, d, "C"@)
            &&& dict_get(d, "Pg"@) == (match page {
                Some(p) => Some(new_ref(p)),
                None => None,
            })
            &&& holds_kids(d, kids)
        }),
{
    let doc = env.docs[src as int];
    let me = next_id(st);
    let page = kept_page(env, src, ed);
    let items = match dict_get(ed, "K"@) {
        Some(k) => k_items(doc, k),
        None => Seq::empty(),
    };
    let (s1, m1, kids) = struct_kids(env, with_slot(st), marks, src, items, page, me, depth);
    elem_kids_remember(env, with_slot(st), marks, src, items, page, me, depth);
    let none: Entries = Seq::empty();
    let kind = Obj::Name("StructElem"@);
    let a = dict_insert(none, "Type"@, kind);
    let d0 = dict_insert(a, "P"@, new_ref(parent));
    let only = seq!["S"@];
    let d1 = pick(doc, ed, only, d0);
    let d2 = match page {
        Some(p) => dict_insert(d1, "Pg"@, new_ref(p)),
        None => d1,
    };
    let keys = element_keys();
    let d3 = pick(doc, ed, keys, d2);
    let d = element_dict(doc, ed, parent, page, kids);
    element_words();
    assert(only[0] == "S"@);
    assert(keys[0] == "Alt"@ && keys[1] == "ActualText"@ && keys[2] == "Lang"@ && keys[3] == "T"@ && keys[4] == "E"@
        && keys[5] == "ID"@ && keys[6] == "C"@);
    assert forall|key: Seq<char>|
        #![trigger dict_get(d, key)]
        {
            ||| key == "Type"@ || key == "P"@ || key == "Pg"@ || key == "K"@ || key == "S"@
            ||| key == "Alt"@ || key == "ActualText"@ || key == "Lang"@ || key == "T"@ || key == "E"@ || key == "ID"@
            ||| key == "C"@
        } implies dict_get(d, key) == (if key == "K"@ {
        Some(k_value(kids))
    } else if key == "Type"@ {
        Some(kind)
    } else if key == "P"@ {
        Some(new_ref(parent))
    } else if key == "Pg"@ {
        match page {
            Some(p) => Some(new_ref(p)),
            None => None,
        }
    } else {
        match dict_get(ed, key) {
            Some(v) => Some(direct(doc, v)),
            None => None,
        }
    }) by {
        assert(!dict_has(none, key));
        dict_get_insert(none, "Type"@, kind, key);
        dict_get_insert(a, "P"@, new_ref(parent), key);
        picked(doc, ed, only, d0, key);
        if let Some(p) = page {
            dict_get_insert(d1, "Pg"@, new_ref(p), key);
        }
        picked(doc, ed, keys, d2, key);
        dict_get_insert(d3, "K"@, k_value(kids), key);
        assert(only.contains(key) <==> key == "S"@);
        assert(keys.contains(key) <==> key == "Alt"@ || key == "ActualText"@ || key == "Lang"@ || key == "T"@ || key
            == "E"@ || key == "ID"@ || key == "C"@);
    }
    direct_taken(doc, ed, d, "S"@);
    direct_taken(doc, ed, d, "Alt"@);
    direct_taken(doc, ed, d, "ActualText"@);
    direct_taken(doc, ed, d, "Lang"@);
    direct_taken(doc, ed, d, "T"@);
    direct_taken(doc, ed, d, "E"@);
    direct_taken(doc, ed, d, "ID"@);
    direct_taken(doc, ed, d, "C"@);
    assert(object_at(struct_elem(env, st, marks, src, Obj::Dictionary(ed), parent, depth).0, me) == Some(
        Obj::Dictionary(d),
    ));
}

/// Marked content that belongs to an element stays with it exactly where its page is kept: a content
/// number of the page of the element, and a reference to marked content, which names its page or takes
/// that of the element. Each that stays is entered for the parent tree. References to whole objects are
/// dropped.
pub proof fn marked_content_stays_on_kept_pages(
    env: Env,
    st: State,
    marks: Marks,
    src: nat,
    page: Option<nat>,
    n: nat,
    depth: nat,
    mcid: i64,
    mcr: Entries,
)
    requires
        depth <= 256,
    ensures
        struct_kid(env, st, marks, src, Obj::Integer(mcid), page, n, depth) == (match page {
            Some(p) => (st, marks.push((p, mcid, n)), Some(Obj::Integer(mcid))),
            None => (st, marks, None),
        }),
        dict_get(mcr, "Type"@) == Some(Obj::Name("OBJR"@)) ==> struct_kid(
            env,
            st,
            marks,
            src,
            Obj::Dictionary(mcr),
            page,
            n,
            depth,
        ) == (st, marks, None::<Obj>),
        dict_get(mcr, "Type"@) == Some(Obj::Name("MCR"@)) && dict_get(mcr, "MCID"@) == Some(Obj::Integer(mcid)) ==> {
            let (s, m, kid) = struct_kid(env, st, marks, src, Obj::Dictionary(mcr), page, n, depth);
            let at = match dict_get(mcr, "Pg"@) {
                Some(Obj::Reference(id, _)) => if env.pages.contains_key((src, id)) {
                    Some(env.pages[(src, id)])
                } else {
                    None
                },
                Some(_) => None,
                None => page,
            };
            &&& s == st
            &&& at is None ==> kid is None && m == marks
            &&& at matches Some(p) ==> {
                let d = kid->0->Dictionary_0;
                &&& m == marks.push((p, mcid, n))
                &&& kid is Some
                &&& kid->0 is Dictionary
                &&& dict_get(d, "Type"@) == Some(Obj::Name("MCR"@))
                &&& dict_get(d, "Pg"@) == Some(new_ref(p))
                &&& dict_get(d, "MCID"@) == Some(Obj::Integer(mcid))
            }
        },
{
    reveal_strlit("OBJR");
    reveal_strlit("MCR");
    reveal_strlit("Type");
    reveal_strlit("Pg");
    reveal_strlit("MCID");
    assert("OBJR"@.len() == 4 && "MCR"@.len() == 3);
    assert("Type"@.len() == 4 && "Type"@[0] == 'T' && "Pg"@.len() == 2 && "MCID"@.len() == 4 && "MCID"@[0] == 'M');
    if let Some(p) = mark_page(env, src, mcr, page) {
        let none: Entries = Seq::empty();
        let kind = Obj::Name("MCR"@);
        let a = dict_insert(none, "Type"@, kind);
        let b = dict_insert(a, "Pg"@, new_ref(p));
        let v = Obj::Integer(mcid);
        dict_get_insert(none, "Type"@, kind, "Type"@);
        dict_get_insert(a, "Pg"@, new_ref(p), "Type"@);
        dict_get_insert(b, "MCID"@, v, "Type"@);
        dict_get_insert(a, "Pg"@, new_ref(p), "Pg"@);
        dict_get_insert(b, "MCID"@, v, "Pg"@);
        dict_get_insert(b, "MCID"@, v, "MCID"@);
    }
}

/// An element among the children of an element is kept as a reference to its copy, where it has one.
pub proof fn elements_below_are_referred_to(
    env: Env,
    st: State,
    marks: Marks,
    src: nat,
    id: nat,
    gen: u16,
    page: Option<nat>,
    n: nat,
    depth: nat,
)
    requires
        depth <= 256,
    ensures
        ({
            let (s, m, kid) = struct_kid(env, st, marks, src, Obj::Reference(id, gen), page, n, depth);
            let (s1, m1, c) = struct_elem(env, st, marks, src, Obj::Reference(id, gen), n, depth + 1);
            &&& s == s1 && m == m1
            &&& kid == (match c {
                Some(c) => Some(new_ref(c)),
                None => None,
            })
        }),
{
}

/// The children of an element stand in the order of the source: one more child leaves those before it as
/// they are.
pub proof fn children_stay_in_order(
    env: Env,
    st: State,
    marks: Marks,
    src: nat,
    items: Seq<Obj>,
    last: Obj,
    page: Option<nat>,
    n: nat,
    depth: nat,
)
    requires
        depth <= 256,
    ensures
        ({
            let (s, m, kids) = struct_kids(env, st, marks, src, items, page, n, depth);
            let more = struct_kids(env, st, marks, src, items.push(last), page, n, depth).2;
            let kid = struct_kid(env, s, m, src, last, page, n, depth).2;
            &&& kids.len() <= more.len() <= kids.len() + 1
            &&& forall|i: int| 0 <= i < kids.len() ==> #[trigger] more[i] == kids[i]
            &&& kid is Some <==> more.len() == kids.len() + 1
            &&& kid matches Some(o) ==> more.last() == o
        }),
{
    assert(items.push(last).drop_last() =~= items);
}

/// A single item below the root, and one that is referred to, count as a list of one; a list that is
/// referred to counts as the list.
pub proof fn kinds_of_children(doc: PdfDocument, items: Seq<Obj>, id: nat, gen: u16)
    ensures
        k_items(doc, Obj::Array(items)) == items,
        doc.lookup(id) == Some(Obj::Array(items)) ==> k_items(doc, Obj::Reference(id, gen)) == items,
        doc.lookup(id) matches Some(Obj::Dictionary(_)) ==> k_items(doc, Obj::Reference(id, gen)) == seq![
            Obj::Reference(id, gen),
        ],
{
}

proof fn root_words()
    ensures
        ({
            let w = seq!["Type"@, "ParentTree"@, "ParentTreeNextKey"@, "K"@, "RoleMap"@, "ClassMap"@];
            &&& w.no_duplicates()
            &&& w[0] == "Type"@ && w[1] == "ParentTree"@ && w[2] == "ParentTreeNextKey"@ && w[3] == "K"@
            &&& w[4] == "RoleMap"@ && w[5] == "ClassMap"@
        }),
{
    reveal_strlit("Type");
    reveal_strlit("ParentTree");
    reveal_strlit("ParentTreeNextKey");
    reveal_strlit("K");
    reveal_strlit("RoleMap");
    reveal_strlit("ClassMap");
    assert("Type"@.len() == 4 && "ParentTree"@.len() == 10 && "ParentTreeNextKey"@.len() == 17 && "K"@.len() == 1);
    assert("RoleMap"@.len() == 7 && "ClassMap"@.len() == 8);
}

/// The root of the structure tree says that it is one, holds its kept elements, leads to the parent tree
/// and counts its rows, and keeps the role map and the class map of the source.
pub proof fn structure_root_has_its_entries(
    env: Env,
    st: State,
    marks: Marks,
    src: nat,
    from: Entries,
    root: nat,
    kids: Seq<nat>,
)
    requires
        ids_placed(st),
        1 <= root <= st.slots.len(),
        kids.len() > 0,
    ensures
        ({
            let s = finish_root(env, st, marks, src, from, root, kids);
            let (s1, nums) = parent_nums(st, marks, st.page_ids, st.page_ids.len());
            let d = object_at(s, root)->0->Dictionary_0;
            let tree = next_id(s1);
            &&& object_at(s, root) is Some
            &&& object_at(s, root)->0 is Dictionary
            &&& dict_get(d, "Type"@) == Some(Obj::Name("StructTreeRoot"@))
            &&& holds_kids(d, kids.map_values(|n: nat| new_ref(n)))
            &&& dict_get(d, "ParentTree"@) == Some(new_ref(tree))
            &&& dict_get(d, "ParentTreeNextKey"@) == Some(Obj::Integer((nums.len() / 2) as i64))
            &&& object_at(s, tree) matches Some(Obj::Dictionary(t)) && dict_get(t, "Nums"@) == Some(Obj::Array(nums))
            &&& entry_kept(env, s.ids, src, from, d, "RoleMap"@, 1)
            &&& entry_kept(env, s.ids, src, from, d, "ClassMap"@, 1)
        }),
{
    let (s1, nums) = parent_nums(st, marks, st.page_ids, st.page_ids.len());
    nums_leave_copies(st, marks, st.page_ids, st.page_ids.len());
    let pt = next_id(s1);
    let none: Entries = Seq::empty();
    let listed = Obj::Array(nums);
    dict_get_insert(none, "Nums"@, listed, "Nums"@);
    let s2 = put(set_pin(with_slot(s1), pt, true), pt, Obj::Dictionary(dict_insert(none, "Nums"@, listed)));
    assert forall|k: (nat, nat)| #[trigger] s2.ids.contains_key(k) implies has_slot(s2, s2.ids[k]) by {
        assert(has_slot(st, st.ids[k]));
    }
    let kind = Obj::Name("StructTreeRoot"@);
    let count = Obj::Integer((nums.len() / 2) as i64);
    let value = k_value(refs(kids));
    let d0 = dict_insert(none, "Type"@, kind);
    let d1 = dict_insert(d0, "ParentTree"@, new_ref(pt));
    let d2 = dict_insert(d1, "ParentTreeNextKey"@, count);
    let d3 = dict_insert(d2, "K"@, value);
    let keys = seq!["RoleMap"@, "ClassMap"@];
    assert(keys[0] == "RoleMap"@ && keys[1] == "ClassMap"@);
    root_words();
    assert forall|key: Seq<char>|
        #![trigger dict_get(d3, key)]
        key == "Type"@ || key == "ParentTree"@ || key == "ParentTreeNextKey"@ || key == "K"@ || key == "RoleMap"@ || key
            == "ClassMap"@ implies dict_get(d3, key) == (if key == "K"@ {
        Some(value)
    } else if key == "ParentTreeNextKey"@ {
        Some(count)
    } else if key == "ParentTree"@ {
        Some(new_ref(pt))
    } else if key == "Type"@ {
        Some(kind)
    } else {
        None
    }) by {
        assert(!dict_has(none, key));
        dict_get_insert(none, "Type"@, kind, key);
        dict_get_insert(d0, "ParentTree"@, new_ref(pt), key);
        dict_get_insert(d1, "ParentTreeNextKey"@, count, key);
        dict_get_insert(d2, "K"@, value, key);
    }
    assert(dict_get(d3, "RoleMap"@) is None && dict_get(d3, "ClassMap"@) is None);
    assert(dict_get(d3, "Type"@) == Some(kind) && dict_get(d3, "ParentTree"@) == Some(new_ref(pt)));
    assert(dict_get(d3, "ParentTreeNextKey"@) == Some(count) && dict_get(d3, "K"@) == Some(value));
    carried(env, s2, src, from, keys, 1, d3, "RoleMap"@);
    carried(env, s2, src, from, keys, 1, d3, "ClassMap"@);
    carried(env, s2, src, from, keys, 1, d3, "Type"@);
    carried(env, s2, src, from, keys, 1, d3, "ParentTree"@);
    carried(env, s2, src, from, keys, 1, d3, "ParentTreeNextKey"@);
    carried(env, s2, src, from, keys, 1, d3, "K"@);
    assert(!keys.contains("Type"@) && !keys.contains("ParentTree"@) && !keys.contains("ParentTreeNextKey"@)
        && !keys.contains("K"@));
    let s3 = carry(env, s2, src, from, keys, 1, d3).0;
    assert(s3.slots[pt - 1] == s2.slots[pt - 1]);
    assert(refs(kids) =~= kids.map_values(|n: nat| new_ref(n)));
}

proof fn nums_leave_copies(st: State, marks: Marks, pages: Seq<nat>, k: nat)
    ensures
        parent_nums(st, marks, pages, k).0.ids == st.ids,
        parent_nums(st, marks, pages, k).0.slots.len() == st.slots.len(),
    decreases k,
{
    if k > 0 {
        nums_leave_copies(st, marks, pages, (k - 1) as nat);
    }
}

} // verus!
