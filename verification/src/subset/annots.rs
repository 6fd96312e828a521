//! What an annotation of the output has of that of the source, and which annotations carry a signature.

use vstd::prelude::*;
use crate::document::{Failure, PdfDocument};
use crate::object::{
    dict_get, dict_get_insert, dict_has, dict_insert, dict_ref, new_ref, Entries, Obj,
};
use crate::text::decimal_text;
use super::acroform::{dict_of, import_form_field, inherited};
use super::copy::{edit, remap_entries};
use super::again::{annots_remember, body_remembers};
use super::dests::{remap_action, remap_dest, sub_array};
use super::faithful::{entries_copied, ids_placed, same_copy, same_copy_extends};
use super::fields::{field_above, field_is_copied};
use super::kept::entry_kept;
use super::found::under;
use super::pages::{
    annot_of, build_page, count_severed, is_signature, keep_plain, navigation, navigation_keys, page_body, place_annot,
    process_annot, process_annots, remove_all, removed_get, signature_keys, signature_warning, signed,
};
use super::unsigned::same_place;
use super::{has_slot, object_at, set_pin, Env, SignaturePolicy, State};

verus! {

/// Is the annotation the entry itself, or what it refers to?
pub open spec fn is_annot(doc: PdfDocument, entry: Obj, annot: Entries) -> bool {
    match entry {
        Obj::Dictionary(d) => d == annot,
        Obj::Reference(id, _) => doc.lookup(id) == Some(Obj::Dictionary(annot)),
        _ => false,
    }
}

/// Is the key one that leads from an annotation to pages, fields or elsewhere?
pub open spec fn leading_key(key: Seq<char>) -> bool {
    key == "Dest"@ || key == "A"@ || key == "Parent"@ || key == "P"@
}

/// Where the annotation `d` leads: as the source annotation does by its destination, or without one by
/// its action, where links are kept and the page is.
pub open spec fn leads_as(env: Env, src: nat, annot: Entries, d: Entries) -> bool {
    if !env.opts.keep_links {
        !dict_has(d, "Dest"@) && !dict_has(d, "A"@)
    } else {
        match dict_get(annot, "Dest"@) {
            Some(dest) => dict_get(d, "Dest"@) == remap_dest(env, src, dest) && !dict_has(d, "A"@),
            None => match dict_get(annot, "A"@) {
                Some(action) => dict_get(d, "A"@) == remap_action(env, src, action) && !dict_has(d, "Dest"@),
                None => !dict_has(d, "Dest"@) && !dict_has(d, "A"@),
            },
        }
    }
}

proof fn leading_words()
    ensures
        ({
            let w = seq!["Dest"@, "A"@, "Parent"@, "P"@];
            w.no_duplicates() && w[0] == "Dest"@ && w[1] == "A"@ && w[2] == "Parent"@ && w[3] == "P"@
        }),
        forall|key: Seq<char>| #[trigger] navigation_keys().contains(key) <==> leading_key(key),
{
    reveal_strlit("Dest");
    reveal_strlit("A");
    reveal_strlit("Parent");
    reveal_strlit("P");
    assert("Dest"@.len() == 4 && "A"@.len() == 1 && "A"@[0] == 'A' && "Parent"@.len() == 6 && "P"@.len() == 1 && "P"@[0]
        == 'P');
    let k = navigation_keys();
    assert(k[0] == "Dest"@ && k[1] == "A"@ && k[2] == "Parent"@ && k[3] == "P"@);
    assert forall|key: Seq<char>| #[trigger] k.contains(key) <==> leading_key(key) by {
        if k.contains(key) {
            let i = choose|i: int| 0 <= i < k.len() && k[i] == key;
            assert(k[i] == key);
        }
    }
}

/// What an annotation has when it was placed.
proof fn placed_entries(
    env: Env,
    st: State,
    src: nat,
    from: Entries,
    nav: Option<(Seq<char>, Obj)>,
    page_id: nat,
    key: Seq<char>,
)
    requires
        ids_placed(st),
        nav is Some ==> (nav->0).0 == "Dest"@ || (nav->0).0 == "A"@,
        !dict_has(from, "Dest"@) && !dict_has(from, "A"@) && !dict_has(from, "Parent"@) && !dict_has(from, "P"@),
    ensures
        ({
            let (s, n) = place_annot(env, st, src, from, nav, page_id);
            let d = object_at(s, n)->0->Dictionary_0;
            &&& n == s.slots.len()
            &&& object_at(s, n) is Some
            &&& object_at(s, n)->0 is Dictionary
            &&& dict_get(d, "P"@) == Some(new_ref(page_id))
            &&& !leading_key(key) ==> entry_kept(env, s.ids, src, from, d, key, 1)
            &&& dict_get(d, "Dest"@) == (if nav is Some && (nav->0).0 == "Dest"@ {
                Some((nav->0).1)
            } else {
                None
            })
            &&& dict_get(d, "A"@) == (if nav is Some && (nav->0).0 == "A"@ {
                Some((nav->0).1)
            } else {
                None
            })
            &&& !dict_has(d, "Parent"@)
        }),
{
    entries_copied(env, st, src, from, 1);
    let (s1, e) = remap_entries(env, st, src, from, 1);
    leading_words();
    let d1 = dict_insert(e, "P"@, new_ref(page_id));
    assert forall|i: int| 0 <= i < from.len() implies (#[trigger] from[i]).0 == e[i].0 by {}
    same_place(from, e, key);
    same_place(from, e, "Dest"@);
    same_place(from, e, "A"@);
    same_place(from, e, "Parent"@);
    dict_get_insert(e, "P"@, new_ref(page_id), key);
    dict_get_insert(e, "P"@, new_ref(page_id), "P"@);
    dict_get_insert(e, "P"@, new_ref(page_id), "Dest"@);
    dict_get_insert(e, "P"@, new_ref(page_id), "A"@);
    dict_get_insert(e, "P"@, new_ref(page_id), "Parent"@);
    if let Some((k, v)) = nav {
        dict_get_insert(d1, k, v, key);
        dict_get_insert(d1, k, v, "P"@);
        dict_get_insert(d1, k, v, "Dest"@);
        dict_get_insert(d1, k, v, "A"@);
        dict_get_insert(d1, k, v, "Parent"@);
    }
    if dict_has(from, key) {
        let i = choose|i: int|
            0 <= i < from.len() && dict_get(from, key) == Some((#[trigger] from[i]).1) && dict_get(e, key) == Some(
                e[i].1,
            );
        assert(same_copy(env, s1.ids, src, from[i].1, e[i].1, 1));
    }
}

proof fn stripped(annot: Entries, key: Seq<char>)
    ensures
        ({
            let bare = remove_all(annot, navigation_keys());
            &&& !dict_has(bare, "Dest"@) && !dict_has(bare, "A"@) && !dict_has(bare, "Parent"@) && !dict_has(bare, "P"@)
            &&& !leading_key(key) ==> dict_get(bare, key) == dict_get(annot, key)
        }),
{
    leading_words();
    removed_get(annot, navigation_keys(), key);
    removed_get(annot, navigation_keys(), "Dest"@);
    removed_get(annot, navigation_keys(), "A"@);
    removed_get(annot, navigation_keys(), "Parent"@);
    removed_get(annot, navigation_keys(), "P"@);
    assert(navigation_keys().contains("Dest"@) && navigation_keys().contains("A"@) && navigation_keys().contains(
        "Parent"@,
    ) && navigation_keys().contains("P"@));
}

/// An annotation that is no form field, nor part of one, is kept: its copy lies on the new page, leads
/// as it did where that is kept, and has all else that it had. A link that leads nowhere any more is
/// counted.
pub proof fn annotation_is_kept(
    env: Env,
    st: State,
    src: nat,
    entry: Obj,
    annot: Entries,
    page_id: nat,
    page_index: nat,
    key: Seq<char>,
)
    requires
        ids_placed(st),
        is_annot(env.docs[src as int], entry, annot),
        dict_get(annot, "Subtype"@) != Some(Obj::Name("Widget"@)),
        !dict_has(annot, "FT"@),
        dict_ref(annot, "Parent"@) is None,
    ensures
        ({
            let r = process_annot(env, st, src, entry, page_id, page_index);
            let s = r->Ok_0.0;
            let n = s.slots.len();
            let d = object_at(s, n)->0->Dictionary_0;
            &&& r is Ok
            &&& r->Ok_0.1 == Some(new_ref(n))
            &&& st.slots.len() < n
            &&& object_at(s, n) is Some
            &&& object_at(s, n)->0 is Dictionary
            &&& dict_get(d, "P"@) == Some(new_ref(page_id))
            &&& leads_as(env, src, annot, d)
            &&& !leading_key(key) ==> entry_kept(env, s.ids, src, annot, d, key, 1)
            &&& !dict_has(d, "Parent"@)
            &&& s.links_severed == st.links_severed + (if (dict_has(annot, "Dest"@) || dict_has(annot, "A"@))
                && !dict_has(d, "Dest"@) && !dict_has(d, "A"@) {
                1nat
            } else {
                0nat
            })
        }),
{
    let nav = navigation(env, src, annot);
    let bare = remove_all(annot, navigation_keys());
    let s1 = count_severed(st, annot, nav);
    leading_words();
    stripped(annot, key);
    other_words();
    stripped(annot, "Subtype"@);
    stripped(annot, "FT"@);
    placed_entries(env, s1, src, bare, nav, page_id, key);
    entries_copied(env, s1, src, bare, 1);
    assert(!is_signature(env.docs[src as int], bare, dict_ref(annot, "Parent"@)));
    assert(keep_plain(env, s1, src, bare, None, nav, page_id) == place_annot(env, s1, src, bare, nav, page_id));
}

proof fn other_words()
    ensures
        !leading_key("Subtype"@),
        !leading_key("FT"@),
        !leading_key("V"@),
{
    reveal_strlit("Subtype");
    reveal_strlit("FT");
    reveal_strlit("V");
    reveal_strlit("Dest");
    reveal_strlit("A");
    reveal_strlit("Parent");
    reveal_strlit("P");
    assert("Subtype"@.len() == 7 && "FT"@.len() == 2 && "V"@.len() == 1 && "V"@[0] == 'V');
    assert("Dest"@.len() == 4 && "A"@.len() == 1 && "A"@[0] == 'A' && "Parent"@.len() == 6 && "P"@.len() == 1 && "P"@[0]
        == 'P');
}

/// A form field that is a widget itself is kept and listed among the fields of the form.
pub proof fn lone_widget_is_listed(
    env: Env,
    st: State,
    src: nat,
    entry: Obj,
    annot: Entries,
    page_id: nat,
    page_index: nat,
    key: Seq<char>,
)
    requires
        ids_placed(st),
        is_annot(env.docs[src as int], entry, annot),
        env.opts.keep_acroform,
        dict_has(annot, "FT"@),
        dict_ref(annot, "Parent"@) is None,
        !signed(env, src, entry),
    ensures
        ({
            let r = process_annot(env, st, src, entry, page_id, page_index);
            let s = r->Ok_0.0;
            let n = s.slots.len();
            let d = object_at(s, n)->0->Dictionary_0;
            &&& r is Ok
            &&& r->Ok_0.1 == Some(new_ref(n))
            &&& object_at(s, n) is Some
            &&& object_at(s, n)->0 is Dictionary
            &&& dict_get(d, "P"@) == Some(new_ref(page_id))
            &&& leads_as(env, src, annot, d)
            &&& !leading_key(key) ==> entry_kept(env, s.ids, src, annot, d, key, 1)
            &&& s.tops == st.tops.push(n)
            &&& s.links == st.links
        }),
{
    let nav = navigation(env, src, annot);
    let bare = remove_all(annot, navigation_keys());
    let s1 = count_severed(st, annot, nav);
    leading_words();
    stripped(annot, key);
    other_words();
    stripped(annot, "FT"@);
    placed_entries(env, s1, src, bare, nav, page_id, key);
    entries_copied(env, s1, src, bare, 1);
}

/// A widget of a field is kept below the copy of that field: it leads back to it, and is entered among
/// its kids.
pub proof fn widget_is_kept_below_its_field(
    env: Env,
    st: State,
    src: nat,
    entry: Obj,
    annot: Entries,
    field: nat,
    page_id: nat,
    page_index: nat,
    key: Seq<char>,
)
    requires
        ids_placed(st),
        is_annot(env.docs[src as int], entry, annot),
        env.opts.keep_acroform,
        dict_ref(annot, "Parent"@) == Some(field),
        !signed(env, src, entry),
    ensures
        ({
            let r = process_annot(env, st, src, entry, page_id, page_index);
            let s = r->Ok_0.0;
            let n = r->Ok_0.1->0->Reference_0;
            let d = object_at(s, n)->0->Dictionary_0;
            &&& r is Ok
            &&& r->Ok_0.1 == Some(new_ref(n))
            &&& st.slots.len() < n <= s.slots.len()
            &&& s.fields.contains_key((src, field))
            &&& s.links.len() > 0 && s.links.last() == (s.fields[(src, field)], n)
            &&& object_at(s, n) is Some
            &&& object_at(s, n)->0 is Dictionary
            &&& dict_get(d, "Parent"@) == Some(new_ref(s.fields[(src, field)]))
            &&& dict_get(d, "P"@) == Some(new_ref(page_id))
            &&& leads_as(env, src, annot, d)
            &&& !leading_key(key) ==> entry_kept(env, s.ids, src, annot, d, key, 1)
        }),
{
    let nav = navigation(env, src, annot);
    let bare = remove_all(annot, navigation_keys());
    let s1 = count_severed(st, annot, nav);
    leading_words();
    stripped(annot, key);
    placed_entries(env, s1, src, bare, nav, page_id, key);
    entries_copied(env, s1, src, bare, 1);
    let (s2, aid) = place_annot(env, s1, src, bare, nav, page_id);
    let t = set_pin(s2, aid, true);
    let (u, f) = import_form_field(env, t, src, field, 0);
    assert(field_above(env.docs[src as int], field, 0) == Some(field));
    assert forall|k: (nat, nat)| #[trigger] t.ids.contains_key(k) implies has_slot(t, t.ids[k]) by {}
    field_is_copied(env, 0, t, src, field, 0, field);
    let d = object_at(s2, aid)->0->Dictionary_0;
    assert(u.slots[aid - 1] == t.slots[aid - 1]);
    let v = State { links: u.links.push((f, aid)), ..u };
    let s = edit(v, aid, "Parent"@, new_ref(f));
    let e = object_at(s, aid)->0->Dictionary_0;
    assert(object_at(s, aid) == Some(Obj::Dictionary(dict_insert(d, "Parent"@, new_ref(f)))));
    dict_get_insert(d, "Parent"@, new_ref(f), "Parent"@);
    dict_get_insert(d, "Parent"@, new_ref(f), "P"@);
    dict_get_insert(d, "Parent"@, new_ref(f), "Dest"@);
    dict_get_insert(d, "Parent"@, new_ref(f), "A"@);
    dict_get_insert(d, "Parent"@, new_ref(f), key);
    if let Some(x) = dict_get(annot, key) {
        if !leading_key(key) {
            same_copy_extends(env, s2.ids, s.ids, src, x, dict_get(d, key)->0, 1);
        }
    }
}

/// A widget carries a signature where it is a signature field, by its own type or by that of the field
/// above it, and where its value is a signature. Any other annotation carries none.
pub proof fn what_carries_a_signature(env: Env, src: nat, entry: Obj, annot: Entries)
    requires
        is_annot(env.docs[src as int], entry, annot),
    ensures
        dict_get(annot, "Subtype"@) != Some(Obj::Name("Widget"@)) ==> !signed(env, src, entry),
        dict_get(annot, "Subtype"@) == Some(Obj::Name("Widget"@)) ==> {
            let doc = env.docs[src as int];
            &&& dict_get(annot, "FT"@) == Some(Obj::Name("Sig"@)) ==> signed(env, src, entry)
            &&& dict_get(annot, "V"@) matches Some(Obj::Dictionary(v)) ==> dict_get(v, "Type"@) == Some(
                Obj::Name("Sig"@),
            ) ==> signed(env, src, entry)
            &&& dict_get(annot, "V"@) matches Some(Obj::Reference(id, _)) ==> (doc.lookup(id) matches Some(
                Obj::Dictionary(v),
            ) ==> dict_get(v, "Type"@) == Some(Obj::Name("Sig"@)) ==> signed(env, src, entry))
            &&& !dict_has(annot, "FT"@) ==> (dict_get(annot, "Parent"@) matches Some(Obj::Reference(id, _)) ==> (
            doc.lookup(id) matches Some(Obj::Dictionary(f)) ==> dict_get(f, "FT"@) == Some(Obj::Name("Sig"@)) ==> signed(
                env,
                src,
                entry,
            )))
            &&& dict_ref(annot, "Parent"@) is None && dict_get(annot, "FT"@) != Some(Obj::Name("Sig"@)) && !dict_has(
                annot,
                "V"@,
            ) ==> !signed(env, src, entry)
        },
{
    let doc = env.docs[src as int];
    other_words();
    stripped(annot, "Subtype"@);
    stripped(annot, "FT"@);
    stripped(annot, "V"@);
    let bare = remove_all(annot, navigation_keys());
    let parent = dict_ref(annot, "Parent"@);
    reveal_with_fuel(inherited, 3);
    assert(annot_of(doc, entry) == Some(annot));
}

/// Do the fields stand one above the other, the first above the annotation?
pub open spec fn stand_above(doc: PdfDocument, annot: Entries, ids: Seq<nat>, fields: Seq<Entries>) -> bool {
    &&& ids.len() == fields.len()
    &&& ids.len() > 0
    &&& dict_ref(annot, "Parent"@) == Some(ids[0])
    &&& forall|i: int| 0 <= i < ids.len() ==> doc.lookup(#[trigger] ids[i]) == Some(Obj::Dictionary(fields[i]))
    &&& forall|i: int|
        0 <= i < ids.len() - 1 ==> dict_ref(#[trigger] fields[i], "Parent"@) == Some(ids[i + 1])
}

proof fn inherited_at(
    doc: PdfDocument,
    annot: Entries,
    ids: Seq<nat>,
    fields: Seq<Entries>,
    i: int,
    k: int,
    d: Entries,
    key: Seq<char>,
    depth: nat,
)
    requires
        stand_above(doc, annot, ids, fields),
        0 <= i <= k < ids.len(),
        depth + (k - i) < 256,
        !dict_has(d, key),
        forall|j: int| i <= j < k ==> !dict_has(#[trigger] fields[j], key),
        dict_has(fields[k], key),
    ensures
        inherited(doc, d, Some(ids[i]), key, depth) == dict_get(fields[k], key),
    decreases k - i,
{
    assert(doc.lookup(ids[i]) == Some(Obj::Dictionary(fields[i])));
    assert(dict_of(doc, ids[i]) == fields[i]);
    if i < k {
        assert(!dict_has(fields[i], key));
        inherited_at(doc, annot, ids, fields, i + 1, k, fields[i], key, depth + 1);
    }
}

proof fn inherited_from(
    doc: PdfDocument,
    annot: Entries,
    ids: Seq<nat>,
    fields: Seq<Entries>,
    i: int,
    d: Entries,
    key: Seq<char>,
    depth: nat,
)
    requires
        stand_above(doc, annot, ids, fields),
        dict_ref(fields.last(), "Parent"@) is None,
        0 <= i < ids.len(),
    ensures
        inherited(doc, d, Some(ids[i]), key, depth) matches Some(v) ==> dict_get(d, key) == Some(v) || exists|j: int|
            i <= j < ids.len() && dict_get(#[trigger] fields[j], key) == Some(v),
    decreases ids.len() - i,
{
    assert(doc.lookup(ids[i]) == Some(Obj::Dictionary(fields[i])));
    assert(dict_of(doc, ids[i]) == fields[i]);
    if i + 1 < ids.len() {
        inherited_from(doc, annot, ids, fields, i + 1, fields[i], key, depth + 1);
    } else {
        assert(fields[i] == fields.last());
    }
}

/// Does the value lead to a signature?
pub open spec fn leads_to_signature(doc: PdfDocument, v: Option<Obj>) -> bool {
    match v {
        Some(Obj::Dictionary(d)) => dict_get(d, "Type"@) == Some(Obj::Name("Sig"@)),
        Some(Obj::Reference(id, _)) => doc.lookup(id) matches Some(Obj::Dictionary(d)) && dict_get(d, "Type"@) == Some(
            Obj::Name("Sig"@),
        ),
        _ => false,
    }
}

/// A widget has the type and the value of the nearest field above it that states one, however far up
/// that is, and carries a signature accordingly.
pub proof fn signature_is_inherited(
    env: Env,
    src: nat,
    entry: Obj,
    annot: Entries,
    ids: Seq<nat>,
    fields: Seq<Entries>,
    k: int,
)
    requires
        is_annot(env.docs[src as int], entry, annot),
        dict_get(annot, "Subtype"@) == Some(Obj::Name("Widget"@)),
        stand_above(env.docs[src as int], annot, ids, fields),
        0 <= k < ids.len(),
        k < 256,
    ensures
        !dict_has(annot, "FT"@) && (forall|j: int| 0 <= j < k ==> !dict_has(#[trigger] fields[j], "FT"@)) && dict_get(
            fields[k],
            "FT"@,
        ) == Some(Obj::Name("Sig"@)) ==> signed(env, src, entry),
        !dict_has(annot, "V"@) && (forall|j: int| 0 <= j < k ==> !dict_has(#[trigger] fields[j], "V"@))
            && leads_to_signature(env.docs[src as int], dict_get(fields[k], "V"@)) ==> signed(env, src, entry),
{
    let doc = env.docs[src as int];
    other_words();
    stripped(annot, "Subtype"@);
    stripped(annot, "FT"@);
    stripped(annot, "V"@);
    let bare = remove_all(annot, navigation_keys());
    assert(annot_of(doc, entry) == Some(annot));
    if !dict_has(annot, "FT"@) && (forall|j: int| 0 <= j < k ==> !dict_has(#[trigger] fields[j], "FT"@)) && dict_get(
        fields[k],
        "FT"@,
    ) == Some(Obj::Name("Sig"@)) {
        inherited_at(doc, annot, ids, fields, 0, k, bare, "FT"@, 0);
    }
    if !dict_has(annot, "V"@) && (forall|j: int| 0 <= j < k ==> !dict_has(#[trigger] fields[j], "V"@))
        && leads_to_signature(doc, dict_get(fields[k], "V"@)) {
        inherited_at(doc, annot, ids, fields, 0, k, bare, "V"@, 0);
    }
}

/// A widget carries no signature where neither it nor any field above it is a signature field or has a
/// signature for its value.
pub proof fn nothing_above_signs(env: Env, src: nat, entry: Obj, annot: Entries, ids: Seq<nat>, fields: Seq<Entries>)
    requires
        is_annot(env.docs[src as int], entry, annot),
        stand_above(env.docs[src as int], annot, ids, fields),
        dict_ref(fields.last(), "Parent"@) is None,
        dict_get(annot, "FT"@) != Some(Obj::Name("Sig"@)),
        !dict_has(annot, "V"@),
        forall|j: int|
            0 <= j < fields.len() ==> dict_get(#[trigger] fields[j], "FT"@) != Some(Obj::Name("Sig"@)) && !dict_has(
                fields[j],
                "V"@,
            ),
    ensures
        !signed(env, src, entry),
{
    let doc = env.docs[src as int];
    other_words();
    stripped(annot, "Subtype"@);
    stripped(annot, "FT"@);
    stripped(annot, "V"@);
    let bare = remove_all(annot, navigation_keys());
    assert(annot_of(doc, entry) == Some(annot));
    inherited_from(doc, annot, ids, fields, 0, bare, "FT"@, 0);
    inherited_from(doc, annot, ids, fields, 0, bare, "V"@, 0);
}

/// The annotations of a page stand in the order of the source, and those that are none are left out:
/// one more entry adds at most one reference, at the end.
pub proof fn annotations_stay_in_order(
    env: Env,
    st: State,
    src: nat,
    entries: Seq<Obj>,
    page_id: nat,
    page_index: nat,
    kept: Seq<Obj>,
)
    requires
        process_annots(env, st, src, entries, page_id, page_index, kept) is Ok,
    ensures
        ({
            let out = process_annots(env, st, src, entries, page_id, page_index, kept)->Ok_0.1;
            &&& out.len() <= kept.len() + entries.len()
            &&& kept.len() <= out.len()
            &&& forall|i: int| 0 <= i < kept.len() ==> #[trigger] out[i] == kept[i]
            &&& (forall|i: int| 0 <= i < entries.len() ==> annot_of(env.docs[src as int], #[trigger] entries[i]) is Some)
                ==> out.len() == kept.len() + entries.len()
        }),
    decreases entries.len(),
{
    if entries.len() > 0 {
        let (s1, o) = process_annot(env, st, src, entries[0], page_id, page_index)->Ok_0;
        let more = match o {
            Some(r) => kept.push(r),
            None => kept,
        };
        let rest = entries.skip(1);
        annotations_stay_in_order(env, s1, src, rest, page_id, page_index, more);
        let out = process_annots(env, s1, src, rest, page_id, page_index, more)->Ok_0.1;
        assert forall|i: int| 0 <= i < kept.len() implies #[trigger] out[i] == kept[i] by {
            assert(out[i] == more[i]);
        }
        if forall|i: int| 0 <= i < entries.len() ==> annot_of(env.docs[src as int], #[trigger] entries[i]) is Some {
            assert(annot_of(env.docs[src as int], entries[0]) is Some);
            assert forall|i: int| 0 <= i < rest.len() implies annot_of(
                env.docs[src as int],
                #[trigger] rest[i],
            ) is Some by {
                assert(rest[i] == entries[i + 1]);
            }
        }
    }
}

/// Is the key one that makes a widget a signature field?
pub open spec fn signing_key(key: Seq<char>) -> bool {
    key == "V"@ || key == "FT"@ || key == "T"@ || key == "TU"@ || key == "Ff"@ || key == "DV"@ || key == "Lock"@ || key
        == "SV"@ || key == "DA"@ || key == "DR"@
}

proof fn signing_words()
    ensures
        forall|key: Seq<char>| #[trigger] signature_keys().contains(key) <==> signing_key(key),
        forall|key: Seq<char>| #[trigger] signing_key(key) ==> !leading_key(key),
{
    let k = signature_keys();
    assert(k[0] == "V"@ && k[1] == "FT"@ && k[2] == "T"@ && k[3] == "TU"@ && k[4] == "Ff"@ && k[5] == "DV"@ && k[6]
        == "Lock"@ && k[7] == "SV"@ && k[8] == "DA"@ && k[9] == "DR"@);
    assert forall|key: Seq<char>| #[trigger] k.contains(key) <==> signing_key(key) by {
        if k.contains(key) {
            let i = choose|i: int| 0 <= i < k.len() && k[i] == key;
            assert(k[i] == key);
        }
    }
    reveal_strlit("V");
    reveal_strlit("FT");
    reveal_strlit("T");
    reveal_strlit("TU");
    reveal_strlit("Ff");
    reveal_strlit("DV");
    reveal_strlit("Lock");
    reveal_strlit("SV");
    reveal_strlit("DA");
    reveal_strlit("DR");
    reveal_strlit("Dest");
    reveal_strlit("A");
    reveal_strlit("Parent");
    reveal_strlit("P");
    assert("V"@.len() == 1 && "V"@[0] == 'V' && "T"@.len() == 1 && "T"@[0] == 'T');
    assert("FT"@.len() == 2 && "TU"@.len() == 2 && "Ff"@.len() == 2 && "DV"@.len() == 2 && "SV"@.len() == 2);
    assert("DA"@.len() == 2 && "DR"@.len() == 2 && "Lock"@.len() == 4 && "Lock"@[0] == 'L');
    assert("Dest"@.len() == 4 && "Dest"@[0] == 'D' && "A"@.len() == 1 && "A"@[0] == 'A' && "Parent"@.len() == 6
        && "P"@.len() == 1 && "P"@[0] == 'P');
}

/// A signature whose look is preserved becomes a plain annotation: it has no value, no type, no name, no
/// flags and nothing else that makes a signature field, belongs to no field, and keeps all else. The
/// report counts it and warns of it.
pub proof fn signature_is_kept_as_a_picture(
    env: Env,
    st: State,
    src: nat,
    entry: Obj,
    annot: Entries,
    page_id: nat,
    page_index: nat,
    key: Seq<char>,
)
    requires
        ids_placed(st),
        is_annot(env.docs[src as int], entry, annot),
        signed(env, src, entry),
        env.opts.on_signature == SignaturePolicy::PreserveVisual,
    ensures
        ({
            let r = process_annot(env, st, src, entry, page_id, page_index);
            let s = r->Ok_0.0;
            let n = s.slots.len();
            let d = object_at(s, n)->0->Dictionary_0;
            &&& r is Ok
            &&& r->Ok_0.1 == Some(new_ref(n))
            &&& object_at(s, n) is Some
            &&& object_at(s, n)->0 is Dictionary
            &&& !dict_has(d, "V"@) && !dict_has(d, "FT"@) && !dict_has(d, "T"@) && !dict_has(d, "TU"@) && !dict_has(
                d,
                "Ff"@,
            )
            &&& !dict_has(d, "DV"@) && !dict_has(d, "Lock"@) && !dict_has(d, "SV"@) && !dict_has(d, "DA"@) && !dict_has(
                d,
                "DR"@,
            )
            &&& !dict_has(d, "Parent"@)
            &&& dict_get(d, "P"@) == Some(new_ref(page_id))
            &&& leads_as(env, src, annot, d)
            &&& !leading_key(key) && !signing_key(key) ==> entry_kept(env, s.ids, src, annot, d, key, 1)
            &&& s.dropped_signatures == st.dropped_signatures + 1
            &&& s.warnings == st.warnings.push(
                "page "@ + decimal_text(page_index)
                    + ": digital signature dropped (rebuild invalidates it); visual appearance preserved"@,
            )
            &&& s.fields == st.fields && s.tops == st.tops && s.links == st.links
        }),
{
    let nav = navigation(env, src, annot);
    let bare = remove_all(annot, navigation_keys());
    let plain = remove_all(bare, signature_keys());
    let s1 = count_severed(st, annot, nav);
    let s2 = State {
        dropped_signatures: s1.dropped_signatures + 1,
        warnings: s1.warnings.push(signature_warning(page_index)),
        ..s1
    };
    leading_words();
    signing_words();
    stripped(annot, key);
    removed_get(bare, signature_keys(), key);
    removed_get(bare, signature_keys(), "Dest"@);
    removed_get(bare, signature_keys(), "A"@);
    removed_get(bare, signature_keys(), "Parent"@);
    removed_get(bare, signature_keys(), "P"@);
    placed_entries(env, s2, src, plain, nav, page_id, key);
    entries_copied(env, s2, src, plain, 1);
    assert forall|k: Seq<char>| #[trigger] signing_key(k) implies !dict_has(
        object_at(place_annot(env, s2, src, plain, nav, page_id).0, place_annot(env, s2, src, plain, nav, page_id).1)->0->Dictionary_0,
        k,
    ) by {
        removed_get(bare, signature_keys(), k);
        placed_entries(env, s2, src, plain, nav, page_id, k);
    }
    assert(signing_key("V"@) && signing_key("FT"@) && signing_key("T"@) && signing_key("TU"@) && signing_key("Ff"@));
    assert(signing_key("DV"@) && signing_key("Lock"@) && signing_key("SV"@) && signing_key("DA"@) && signing_key("DR"@));
}

/// Where signatures are refused, a signature is, in words that name the page.
pub proof fn signature_is_refused_in_words(
    env: Env,
    st: State,
    src: nat,
    entry: Obj,
    annot: Entries,
    page_id: nat,
    page_index: nat,
)
    requires
        is_annot(env.docs[src as int], entry, annot),
        signed(env, src, entry),
        env.opts.on_signature == SignaturePolicy::Refuse,
    ensures
        process_annot(env, st, src, entry, page_id, page_index) == Err::<(State, Option<Obj>), Failure>(
            Failure::InvalidPdf(
                "page "@ + decimal_text(page_index)
                    + " carries a digital signature; subsetting would invalidate it (SignaturePolicy::Refuse)"@,
            ),
        ),
{
}

/// A page that is no dictionary is refused in words that name it, and one that is not there as such.
pub proof fn odd_pages_are_refused_in_words(env: Env, st: State, src: nat, page_index: nat, page_id: nat)
    ensures
        ({
            let doc = env.docs[src as int];
            let built = build_page(env, st, src, page_index, page_id);
            &&& page_index >= doc.page_seq().len() ==> built == Err::<State, Failure>(Failure::PageNotFound(page_index))
            &&& page_index < doc.page_seq().len() && !(doc.page_seq()[page_index as int].object@ is Dictionary)
                && !(doc.page_seq()[page_index as int].object@ is Stream) ==> built == Err::<State, Failure>(
                Failure::InvalidPdf("page "@ + decimal_text(page_index) + " is not a dictionary"@),
            )
        }),
{
}

/// The annotations of a page are those that stand under `Annots`, or are referred to there, and the page
/// that is built lists the copies of them that are kept.
pub proof fn page_lists_its_annotations(
    env: Env,
    st: State,
    src: nat,
    page_index: nat,
    page_id: nat,
    page: Entries,
    entries: Seq<Obj>,
)
    requires
        ids_placed(st),
        1 <= page_id <= st.slots.len(),
        page_index < env.docs[src as int].page_seq().len(),
        env.docs[src as int].page_seq()[page_index as int].object@ == Obj::Dictionary(page),
        under(env.docs[src as int], page, "Annots"@, Obj::Array(entries)),
        build_page(env, st, src, page_index, page_id) is Ok,
    ensures
        ({
            let s1 = page_body(env, st, src, page, env.docs[src as int].page_seq()[page_index as int].content).0;
            let kept = process_annots(env, s1, src, entries, page_id, page_index, Seq::empty())->Ok_0.1;
            let s = build_page(env, st, src, page_index, page_id)->Ok_0;
            let d = object_at(s, page_id)->0->Dictionary_0;
            &&& object_at(s, page_id) is Some
            &&& object_at(s, page_id)->0 is Dictionary
            &&& kept.len() > 0 ==> dict_get(d, "Annots"@) == Some(Obj::Array(kept))
            &&& s.page_ids.len() > 0 && s.page_ids.last() == page_id
        }),
{
    let doc = env.docs[src as int];
    let content = doc.page_seq()[page_index as int].content;
    let (s1, d1) = page_body(env, st, src, page, content);
    assert(sub_array(doc, page, "Annots"@) == Some(entries));
    let (s2, kept) = process_annots(env, s1, src, entries, page_id, page_index, Seq::empty())->Ok_0;
    dict_get_insert(d1, "Annots"@, Obj::Array(kept), "Annots"@);
    body_remembers(env, st, src, page, content);
    annots_remember(env, s1, src, entries, page_id, page_index, Seq::empty());
}

} // verus!
