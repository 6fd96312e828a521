//! What the output has of the document as a whole: its catalog, its information and its form.

use vstd::prelude::*;
use crate::document::PdfDocument;
use crate::object::{
    dict_get, dict_get_insert, dict_get_remove, dict_has, dict_insert, dict_remove, new_ref, Entries, Obj,
};
use super::acroform::{acroform, attach_kids, form_keys};
use super::copy::{carry, load_or_null, refs};
use super::faithful::{ids_placed, import_copies, is_page};
use super::finish::{
    assemble, catalog_dict, extra_keys, gather, gather_extras, import_info, pages_dict, set_parents, with_ref, without,
    Parts,
};
use super::found::is_catalog;
use super::kept::{carried, entry_kept};
use super::named::entries_under;
use super::outlines::outlines;
use super::struct_tree::struct_tree;
use super::whole::pages_dict_entries;
use super::{has_slot, object_at, with_slot, Env, State};

verus! {

proof fn form_keys_are()
    ensures
        form_keys().contains("DR"@),
        form_keys().contains("DA"@),
        form_keys().contains("Q"@),
        form_keys().contains("NeedAppearances"@),
        !form_keys().contains("Fields"@),
        "DR"@ != "Fields"@ && "DA"@ != "Fields"@ && "Q"@ != "Fields"@ && "NeedAppearances"@ != "Fields"@,
{
    let k = form_keys();
    assert(k[0] == "DR"@ && k[1] == "DA"@ && k[2] == "Q"@ && k[3] == "NeedAppearances"@);
    reveal_strlit("DR");
    reveal_strlit("DA");
    reveal_strlit("Q");
    reveal_strlit("NeedAppearances");
    reveal_strlit("Fields");
    assert("DR"@.len() == 2 && "DA"@.len() == 2 && "Q"@.len() == 1 && "NeedAppearances"@.len() == 15 && "Fields"@.len()
        == 6);
    if k.contains("Fields"@) {
        let i = choose|i: int| 0 <= i < k.len() && k[i] == "Fields"@;
        assert(k[i] == "Fields"@);
    }
}

proof fn kids_leave_copies(st: State, n: nat)
    ensures
        attach_kids(st, n).ids == st.ids,
        attach_kids(st, n).slots.len() == st.slots.len(),
    decreases n,
{
    if n > 0 {
        kids_leave_copies(st, (n - 1) as nat);
    }
}

/// The form of the output lists the fields without one above them, in the order in which they were met,
/// and keeps the resources, the look, the alignment and the need of appearances of the form of the
/// source. There is none where no field was kept.
pub proof fn form_lists_its_fields(env: Env, st: State, src: nat, cat: Entries, from: Entries)
    requires
        ids_placed(st),
        is_catalog(env.docs[src as int], cat),
        entries_under(env.docs[src as int], cat, "AcroForm"@) == Some(from),
    ensures
        ({
            let (s, form) = acroform(env, st, src);
            &&& form is Some <==> st.tops.len() > 0
            &&& form matches Some(n) ==> {
                let d = object_at(s, n)->0->Dictionary_0;
                &&& object_at(s, n) is Some
                &&& object_at(s, n)->0 is Dictionary
                &&& dict_get(d, "Fields"@) matches Some(Obj::Array(fields)) && fields.len() == st.tops.len() && forall|
                    i: int,
                |
                    0 <= i < fields.len() ==> #[trigger] fields[i] == new_ref(st.tops[i])
                &&& entry_kept(env, s.ids, src, from, d, "DR"@, 1)
                &&& entry_kept(env, s.ids, src, from, d, "DA"@, 1)
                &&& entry_kept(env, s.ids, src, from, d, "Q"@, 1)
                &&& entry_kept(env, s.ids, src, from, d, "NeedAppearances"@, 1)
            }
        }),
{
    if st.tops.len() > 0 {
        let s1 = attach_kids(st, st.slots.len());
        let none: Entries = Seq::empty();
        let listed = Obj::Array(refs(st.tops));
        let af = dict_insert(none, "Fields"@, listed);
        kids_leave_copies(st, st.slots.len());
        assert forall|k: (nat, nat)| #[trigger] s1.ids.contains_key(k) implies has_slot(s1, s1.ids[k]) by {
            assert(has_slot(st, st.ids[k]));
        }
        form_keys_are();
        assert forall|key: Seq<char>| !#[trigger] dict_has(none, key) by {}
        assert(!dict_has(none, "DR"@) && !dict_has(none, "DA"@) && !dict_has(none, "Q"@) && !dict_has(
            none,
            "NeedAppearances"@,
        ));
        dict_get_insert(none, "Fields"@, listed, "DR"@);
        dict_get_insert(none, "Fields"@, listed, "DA"@);
        dict_get_insert(none, "Fields"@, listed, "Q"@);
        dict_get_insert(none, "Fields"@, listed, "NeedAppearances"@);
        dict_get_insert(none, "Fields"@, listed, "Fields"@);
        carried(env, s1, src, from, form_keys(), 1, af, "DR"@);
        carried(env, s1, src, from, form_keys(), 1, af, "DA"@);
        carried(env, s1, src, from, form_keys(), 1, af, "Q"@);
        carried(env, s1, src, from, form_keys(), 1, af, "NeedAppearances"@);
        carried(env, s1, src, from, form_keys(), 1, af, "Fields"@);
    }
}

proof fn extra_keys_are()
    ensures
        extra_keys().contains("OCProperties"@),
        extra_keys().contains("Lang"@),
        extra_keys().contains("Metadata"@),
        extra_keys().contains("ViewerPreferences"@),
        !extra_keys().contains("Info"@),
        "OCProperties"@ != "Info"@ && "Lang"@ != "Info"@ && "Metadata"@ != "Info"@ && "ViewerPreferences"@ != "Info"@,
{
    let k = extra_keys();
    assert(k[0] == "OCProperties"@ && k[1] == "Lang"@ && k[2] == "Metadata"@ && k[3] == "ViewerPreferences"@);
    reveal_strlit("OCProperties");
    reveal_strlit("Lang");
    reveal_strlit("Metadata");
    reveal_strlit("ViewerPreferences");
    reveal_strlit("Info");
    assert("OCProperties"@.len() == 12 && "Lang"@.len() == 4 && "Metadata"@.len() == 8);
    assert("ViewerPreferences"@.len() == 17 && "Info"@.len() == 4 && "Info"@[0] == 'I' && "Lang"@[0] == 'L');
    if k.contains("Info"@) {
        let i = choose|i: int| 0 <= i < k.len() && k[i] == "Info"@;
        assert(k[i] == "Info"@);
    }
}

/// Of the source's catalog the optional content, the language, the metadata and the viewer preferences
/// are kept for that of the output, and the document information is held with them.
pub proof fn extras_are_kept(env: Env, st: State, info: Option<nat>, cat: Entries)
    requires
        ids_placed(st),
        is_catalog(env.docs[0], cat),
    ensures
        ({
            let (s, n) = gather_extras(env, st, info);
            let d = object_at(s, n)->0->Dictionary_0;
            &&& object_at(s, n) is Some
            &&& object_at(s, n)->0 is Dictionary
            &&& entry_kept(env, s.ids, 0, cat, d, "OCProperties"@, 1)
            &&& entry_kept(env, s.ids, 0, cat, d, "Lang"@, 1)
            &&& entry_kept(env, s.ids, 0, cat, d, "Metadata"@, 1)
            &&& entry_kept(env, s.ids, 0, cat, d, "ViewerPreferences"@, 1)
            &&& dict_get(d, "Info"@) == (match info {
                Some(i) => Some(new_ref(i)),
                None => None,
            })
        }),
{
    let none: Entries = Seq::empty();
    extra_keys_are();
    assert(!dict_has(none, "OCProperties"@) && !dict_has(none, "Lang"@) && !dict_has(none, "Metadata"@) && !dict_has(
        none,
        "ViewerPreferences"@,
    ) && !dict_has(none, "Info"@));
    carried(env, st, 0, cat, extra_keys(), 1, none, "OCProperties"@);
    carried(env, st, 0, cat, extra_keys(), 1, none, "Lang"@);
    carried(env, st, 0, cat, extra_keys(), 1, none, "Metadata"@);
    carried(env, st, 0, cat, extra_keys(), 1, none, "ViewerPreferences"@);
    carried(env, st, 0, cat, extra_keys(), 1, none, "Info"@);
    let d = carry(env, st, 0, cat, extra_keys(), 1, none).1;
    if let Some(i) = info {
        dict_get_insert(d, "Info"@, new_ref(i), "OCProperties"@);
        dict_get_insert(d, "Info"@, new_ref(i), "Lang"@);
        dict_get_insert(d, "Info"@, new_ref(i), "Metadata"@);
        dict_get_insert(d, "Info"@, new_ref(i), "ViewerPreferences"@);
        dict_get_insert(d, "Info"@, new_ref(i), "Info"@);
    }
}

/// The document information of the output is the copy of the object that the source's trailer names,
/// where that is no page.
pub proof fn information_is_copied(env: Env, st: State, trailer: Entries, id: nat, gen: u16)
    requires
        ids_placed(st),
        env.docs[0].root() == Obj::Dictionary(trailer),
        dict_get(trailer, "Info"@) == Some(Obj::Reference(id, gen)),
    ensures
        ({
            let (s, info) = import_info(env, st, 0);
            if env.pages.contains_key((0, id)) || env.severed.contains((0, id)) {
                info is None
            } else {
                &&& info is Some
                &&& s.ids.contains_key((0, id))
                &&& s.ids[(0, id)] == info->0
            }
        }),
{
    if !is_page(env, (0, id)) {
        import_copies(env, st, 0, id, 0);
    }
}

/// What is copied of a source object is what the document has under its number, and null where it has
/// nothing.
pub proof fn missing_objects_are_null(doc: PdfDocument, id: nat)
    ensures
        load_or_null(doc, id) == (match doc.lookup(id) {
            Some(o) => o,
            None => Obj::Null,
        }),
{
}

/// The key of the catalog that holds a part, or what marks it.
pub open spec fn part_key(key: Seq<char>) -> bool {
    key == "Type"@ || key == "Pages"@ || key == "Outlines"@ || key == "StructTreeRoot"@ || key == "MarkInfo"@ || key
        == "AcroForm"@ || key == "Info"@
}

/// The reference to a part, where there is one.
pub open spec fn part_ref(n: Option<nat>) -> Option<Obj> {
    match n {
        Some(n) => Some(new_ref(n)),
        None => None,
    }
}

proof fn catalog_words()
    ensures
        seq!["Type"@, "Pages"@, "Outlines"@, "StructTreeRoot"@, "MarkInfo"@, "AcroForm"@, "Info"@].no_duplicates(),
{
    reveal_strlit("Type");
    reveal_strlit("Pages");
    reveal_strlit("Outlines");
    reveal_strlit("StructTreeRoot");
    reveal_strlit("MarkInfo");
    reveal_strlit("AcroForm");
    reveal_strlit("Info");
    assert("Type"@.len() == 4 && "Type"@[0] == 'T' && "Pages"@.len() == 5);
    assert("Outlines"@.len() == 8 && "Outlines"@[0] == 'O' && "StructTreeRoot"@.len() == 14);
    assert("MarkInfo"@.len() == 8 && "MarkInfo"@[0] == 'M' && "AcroForm"@.len() == 8 && "AcroForm"@[0] == 'A');
    assert("Info"@.len() == 4 && "Info"@[0] == 'I');
}

/// The catalog of the output says that it is one, and leads to the page tree, to the outline, to the
/// structure tree and to the form, as far as there are such; a document with a structure tree is marked.
/// All else that was kept for it is in it.
pub proof fn catalog_leads_to_the_parts(extras: Entries, pages: nat, parts: Parts, key: Seq<char>)
    requires
        !dict_has(extras, "Outlines"@),
        !dict_has(extras, "StructTreeRoot"@),
        !dict_has(extras, "MarkInfo"@),
        !dict_has(extras, "AcroForm"@),
    ensures
        ({
            let d = catalog_dict(extras, pages, parts);
            &&& dict_get(d, "Type"@) == Some(Obj::Name("Catalog"@))
            &&& dict_get(d, "Pages"@) == Some(new_ref(pages))
            &&& dict_get(d, "Outlines"@) == part_ref(parts.outlines)
            &&& dict_get(d, "StructTreeRoot"@) == part_ref(parts.tree)
            &&& dict_get(d, "AcroForm"@) == part_ref(parts.form)
            &&& parts.tree is None ==> !dict_has(d, "MarkInfo"@)
            &&& parts.tree is Some ==> (dict_get(d, "MarkInfo"@) matches Some(Obj::Dictionary(m)) && dict_get(
                m,
                "Marked"@,
            ) == Some(Obj::Boolean(true)))
            &&& !dict_has(d, "Info"@)
            &&& !part_key(key) ==> dict_get(d, key) == dict_get(extras, key)
        }),
{
    catalog_words();
    let w = seq!["Type"@, "Pages"@, "Outlines"@, "StructTreeRoot"@, "MarkInfo"@, "AcroForm"@, "Info"@];
    assert(w[0] == "Type"@ && w[1] == "Pages"@ && w[2] == "Outlines"@ && w[3] == "StructTreeRoot"@ && w[4] == "MarkInfo"@
        && w[5] == "AcroForm"@ && w[6] == "Info"@);
    let none: Entries = Seq::empty();
    dict_get_insert(none, "Marked"@, Obj::Boolean(true), "Marked"@);
    catalog_get(extras, pages, parts, "Type"@);
    catalog_get(extras, pages, parts, "Pages"@);
    catalog_get(extras, pages, parts, "Outlines"@);
    catalog_get(extras, pages, parts, "StructTreeRoot"@);
    catalog_get(extras, pages, parts, "MarkInfo"@);
    catalog_get(extras, pages, parts, "AcroForm"@);
    catalog_get(extras, pages, parts, "Info"@);
    catalog_get(extras, pages, parts, key);
}

proof fn catalog_get(extras: Entries, pages: nat, parts: Parts, key: Seq<char>)
    ensures
        dict_get(catalog_dict(extras, pages, parts), key) == (if key == "AcroForm"@ && parts.form is Some {
            part_ref(parts.form)
        } else if key == "MarkInfo"@ && parts.tree is Some {
            Some(Obj::Dictionary(dict_insert(Seq::empty(), "Marked"@, Obj::Boolean(true))))
        } else if key == "StructTreeRoot"@ && parts.tree is Some {
            part_ref(parts.tree)
        } else if key == "Outlines"@ && parts.outlines is Some {
            part_ref(parts.outlines)
        } else if key == "Pages"@ {
            Some(new_ref(pages))
        } else if key == "Type"@ {
            Some(Obj::Name("Catalog"@))
        } else if key == "Info"@ {
            None
        } else {
            dict_get(extras, key)
        }),
{
    let d0 = dict_remove(extras, "Info"@);
    dict_get_remove(extras, "Info"@, key);
    let kind = Obj::Name("Catalog"@);
    let d1 = dict_insert(d0, "Type"@, kind);
    dict_get_insert(d0, "Type"@, kind, key);
    let d2 = dict_insert(d1, "Pages"@, new_ref(pages));
    dict_get_insert(d1, "Pages"@, new_ref(pages), key);
    let d3 = with_ref(d2, "Outlines"@, parts.outlines);
    if let Some(n) = parts.outlines {
        dict_get_insert(d2, "Outlines"@, new_ref(n), key);
    }
    let d4 = with_ref(d3, "StructTreeRoot"@, parts.tree);
    if let Some(n) = parts.tree {
        dict_get_insert(d3, "StructTreeRoot"@, new_ref(n), key);
    }
    let mark = Obj::Dictionary(dict_insert(Seq::empty(), "Marked"@, Obj::Boolean(true)));
    let d5 = if parts.tree is Some {
        dict_insert(d4, "MarkInfo"@, mark)
    } else {
        d4
    };
    dict_get_insert(d4, "MarkInfo"@, mark, key);
    if let Some(n) = parts.form {
        dict_get_insert(d5, "AcroForm"@, new_ref(n), key);
    }
}

/// The page tree of the output is a single node that lists the pages and counts them.
pub proof fn page_tree_lists_the_pages(page_ids: Seq<nat>)
    ensures
        ({
            let d = pages_dict(page_ids);
            &&& dict_get(d, "Type"@) == Some(Obj::Name("Pages"@))
            &&& dict_get(d, "Count"@) == Some(Obj::Integer(page_ids.len() as i64))
            &&& dict_get(d, "Kids"@) matches Some(Obj::Array(kids)) && kids.len() == page_ids.len() && forall|i: int|
                0 <= i < kids.len() ==> #[trigger] kids[i] == new_ref(page_ids[i])
        }),
{
    pages_dict_entries(page_ids);
}

proof fn parents_leave_room(st: State, page_ids: Seq<nat>, k: nat, pages: nat)
    ensures
        set_parents(st, page_ids, k, pages).slots.len() == st.slots.len(),
    decreases k,
{
    if k > 0 {
        parents_leave_room(st, page_ids, (k - 1) as nat, pages);
    }
}

/// The file is put together under a catalog that has what was kept for it, under a page tree of the
/// pages that were built, and with the document information that was held for it.
pub proof fn catalog_is_put_together(st: State, parts: Parts, d: Entries)
    requires
        object_at(st, parts.extras) == Some(Obj::Dictionary(d)),
        !dict_has(d, "Outlines"@),
        !dict_has(d, "StructTreeRoot"@),
        !dict_has(d, "MarkInfo"@),
        !dict_has(d, "AcroForm"@),
    ensures
        ({
            let (s, cat, info) = assemble(st, parts);
            let c = object_at(s, cat)->0->Dictionary_0;
            let pages = (cat - 1) as nat;
            &&& object_at(s, cat) is Some
            &&& object_at(s, cat)->0 is Dictionary
            &&& dict_get(c, "Type"@) == Some(Obj::Name("Catalog"@))
            &&& dict_get(c, "Pages"@) == Some(new_ref(pages))
            &&& dict_get(c, "Outlines"@) == part_ref(parts.outlines)
            &&& dict_get(c, "StructTreeRoot"@) == part_ref(parts.tree)
            &&& dict_get(c, "AcroForm"@) == part_ref(parts.form)
            &&& dict_get(c, "OCProperties"@) == dict_get(d, "OCProperties"@)
            &&& dict_get(c, "Lang"@) == dict_get(d, "Lang"@)
            &&& dict_get(c, "Metadata"@) == dict_get(d, "Metadata"@)
            &&& dict_get(c, "ViewerPreferences"@) == dict_get(d, "ViewerPreferences"@)
            &&& object_at(s, pages) == Some(Obj::Dictionary(pages_dict(st.page_ids)))
            &&& info == (match dict_get(d, "Info"@) {
                Some(Obj::Reference(i, _)) => Some(i),
                _ => None,
            })
        }),
{
    let s3 = with_slot(with_slot(without(st, parts.extras)));
    let pages = (st.slots.len() + 1) as nat;
    parents_leave_room(s3, st.page_ids, st.page_ids.len(), pages);
    catalog_leads_to_the_parts(d, pages, parts, "OCProperties"@);
    catalog_leads_to_the_parts(d, pages, parts, "Lang"@);
    catalog_leads_to_the_parts(d, pages, parts, "Metadata"@);
    catalog_leads_to_the_parts(d, pages, parts, "ViewerPreferences"@);
    extras_apart();
}

proof fn extras_apart()
    ensures
        !part_key("OCProperties"@),
        !part_key("Lang"@),
        !part_key("Metadata"@),
        !part_key("ViewerPreferences"@),
{
    reveal_strlit("OCProperties");
    reveal_strlit("Lang");
    reveal_strlit("Metadata");
    reveal_strlit("ViewerPreferences");
    reveal_strlit("Type");
    reveal_strlit("Pages");
    reveal_strlit("Outlines");
    reveal_strlit("StructTreeRoot");
    reveal_strlit("MarkInfo");
    reveal_strlit("AcroForm");
    reveal_strlit("Info");
    assert("OCProperties"@.len() == 12 && "Lang"@.len() == 4 && "Lang"@[0] == 'L');
    assert("Metadata"@.len() == 8 && "Metadata"@[0] == 'M' && "Metadata"@[1] == 'e' && "ViewerPreferences"@.len() == 17);
    assert("Type"@.len() == 4 && "Type"@[0] == 'T' && "Pages"@.len() == 5);
    assert("Outlines"@.len() == 8 && "Outlines"@[0] == 'O' && "StructTreeRoot"@.len() == 14);
    assert("MarkInfo"@.len() == 8 && "MarkInfo"@[1] == 'a' && "AcroForm"@.len() == 8 && "AcroForm"@[0] == 'A');
    assert("Info"@.len() == 4 && "Info"@[0] == 'I');
}

/// What is asked for is gathered, and nothing else: the outline and the structure tree come from the
/// first source where they are asked for, and the form where fields were kept.
pub proof fn parts_are_those_asked_for(env: Env, st: State)
    ensures
        ({
            let parts = gather(env, st).1;
            let s1 = import_info(env, st, 0).0;
            let s2 = if env.opts.keep_outlines {
                outlines(env, s1, 0).0
            } else {
                s1
            };
            &&& parts.outlines == (if env.opts.keep_outlines {
                outlines(env, s1, 0).1
            } else {
                None
            })
            &&& parts.tree == (if env.opts.keep_struct_tree {
                struct_tree(env, s2, 0).1
            } else {
                None
            })
            &&& !env.opts.keep_acroform ==> parts.form is None
        }),
{
}

} // verus!
