//! What the file is free of, and what trimming leaves in it.

use vstd::prelude::*;
use crate::document::{Content, Operator, PdfDocument};
use crate::object::{
    dict_get, dict_get_insert, dict_has, Entries, Obj, Object,
};
use super::compact::rank_table;
use super::copy::remap;
use super::defaults::content_need;
use super::direct::direct;
use super::faithful::{extends, ids_placed, remap_copies, same_copy_extends};
use super::found::simple;
use super::kept::entry_kept;
use super::named::{entries_under, keys_once, last_of};
use super::paged::file_has_only_its_pages;
use super::rebuild::{subset, Picks};
use super::refs::renumbered;
use super::resources::{
    categories, form_entries, op_use, trim_categories, trimmed_resources, Category, Used,
};
use super::sound::page_row;
use super::unsigned::{entries_signed, holds_signature};
use super::usage::{all_use, bare_form, drawn, draws, draws_along};
use super::whole::{assembled, file_has_no_signature, file_objects, left_over};
use super::{Env, State, SubsetOptions};

verus! {

/// Is there a signature in `o`: a dictionary of that type, or one that lists the bytes that were
/// signed, itself or beside the signed digest?
pub open spec fn bears_signature(o: Obj) -> bool
    decreases o,
{
    match o {
        Obj::Array(items) => exists|i: int| 0 <= i < items.len() && bears_signature(#[trigger] items[i]),
        Obj::Dictionary(d) => {
            ||| dict_get(d, "Type"@) == Some(Obj::Name("Sig"@))
            ||| match dict_get(d, "ByteRange"@) {
                Some(Obj::Array(a)) => a.len() > 0 && a[0] is Integer || dict_has(d, "Contents"@),
                Some(_) => dict_has(d, "Contents"@),
                None => false,
            }
            ||| values_bear(d)
        },
        Obj::Stream(d, _) => values_bear(d),
        _ => false,
    }
}

/// Is there a signature in a value of the dictionary?
pub open spec fn values_bear(d: Entries) -> bool
    decreases d,
{
    exists|i: int| 0 <= i < d.len() && bears_signature((#[trigger] d[i]).1)
}

proof fn bears_iff_holds(o: Obj)
    ensures
        bears_signature(o) == holds_signature(o),
    decreases o,
{
    match o {
        Obj::Array(items) => {
            assert(decreases_to!(o => o->Array_0));
            assert forall|i: int| 0 <= i < items.len() implies bears_signature(#[trigger] items[i]) == holds_signature(
                items[i],
            ) by {
                assert(decreases_to!(items => items[i]));
                bears_iff_holds(items[i]);
            }
        },
        Obj::Dictionary(d) => {
            assert(decreases_to!(o => o->Dictionary_0));
            values_bear_iff(d);
        },
        Obj::Stream(d, _) => {
            assert(decreases_to!(o => o->Stream_0));
            values_bear_iff(d);
        },
        _ => {},
    }
}

proof fn values_bear_iff(d: Entries)
    ensures
        values_bear(d) == entries_signed(d),
    decreases d,
{
    assert forall|i: int| 0 <= i < d.len() implies bears_signature((#[trigger] d[i]).1) == holds_signature(d[i].1) by {
        assert(decreases_to!(d => d[i]));
        assert(decreases_to!(d[i] => d[i].1));
        bears_iff_holds(d[i].1);
    }
    if values_bear(d) {
        let i = choose|i: int| 0 <= i < d.len() && bears_signature((#[trigger] d[i]).1);
        assert(holds_signature(d[i].1));
    }
    if entries_signed(d) {
        let i = choose|i: int| 0 <= i < d.len() && holds_signature((#[trigger] d[i]).1);
        assert(bears_signature(d[i].1));
    }
}

/// No object of the file bears a signature.
pub proof fn file_bears_no_signature(docs: Seq<PdfDocument>, picks: Picks, opts: SubsetOptions, q: nat)
    requires
        subset(docs, picks, opts) is Ok,
        1 <= q <= file_objects(docs, picks, opts).len(),
    ensures
        !bears_signature(file_objects(docs, picks, opts)[q - 1]),
{
    file_has_no_signature(docs, picks, opts, q);
    bears_iff_holds(file_objects(docs, picks, opts)[q - 1]);
}

/// The objects of the file that say of themselves that they are pages are those that the page tree
/// lists, one for each choice, and one object says that it is the node of a page tree.
pub proof fn file_pages_say_so(docs: Seq<PdfDocument>, picks: Picks, opts: SubsetOptions, q: nat)
    requires
        subset(docs, picks, opts) is Ok,
        1 <= q <= file_objects(docs, picks, opts).len(),
    ensures
        ({
            let o = file_objects(docs, picks, opts)[q - 1];
            let table = rank_table(left_over(docs, picks, opts));
            let kids = page_row(picks.len()).map_values(|n: nat| renumbered(table, n));
            let node = renumbered(table, (assembled(docs, picks, opts).1 - 1) as nat);
            &&& kids.len() == picks.len() && kids.no_duplicates()
            &&& (o is Dictionary && dict_get(o->Dictionary_0, "Type"@) == Some(Obj::Name("Page"@))) <==> kids.contains(q)
            &&& (o is Dictionary && dict_get(o->Dictionary_0, "Type"@) == Some(Obj::Name("Pages"@))) <==> q == node
        }),
{
    file_has_only_its_pages(docs, picks, opts);
}

/// Does the set have each name that the operator uses, with its category?
pub open spec fn names_used(op: Operator, used: Used) -> bool {
    match op {
        Operator::Tf { font, .. } => used.contains((Category::Font, font@)),
        Operator::Do { name } => used.contains((Category::XObject, name@)),
        Operator::SetExtGState { dict_name } => used.contains((Category::ExtGState, dict_name@)),
        Operator::SetFillColorSpace { name } => used.contains((Category::ColorSpace, name@)),
        Operator::SetStrokeColorSpace { name } => used.contains((Category::ColorSpace, name@)),
        Operator::SetFillColorN { name: Some(name), .. } => used.contains((Category::Pattern, name@)),
        Operator::SetStrokeColorN { name: Some(name), .. } => used.contains((Category::Pattern, name@)),
        Operator::PaintShading { name } => used.contains((Category::Shading, name@)),
        Operator::BeginMarkedContentDict { properties: Object::Name(n), .. } => used.contains(
            (Category::Properties, n@),
        ),
        Operator::MarkedContentPointDict { properties: Object::Name(n), .. } => used.contains(
            (Category::Properties, n@),
        ),
        Operator::InlineImage { color_space: Some(name) } => used.contains((Category::ColorSpace, name@)),
        _ => true,
    }
}

proof fn content_names(content: Content, i: int)
    requires
        content is Operators,
        0 <= i < content.operators().len(),
    ensures
        names_used(content.operators()[i], content_need(content)),
{
    let ops = content.operators();
    if let Some(p) = op_use(ops[i]) {
        assert(op_use(ops[i]) == Some(p));
    }
}

/// What content uses has every name that its operators use.
pub proof fn content_uses_what_it_names(doc: PdfDocument, res: Obj, content: Content, i: int)
    requires
        content is Operators,
        0 <= i < content.operators().len(),
    ensures
        names_used(content.operators()[i], all_use(doc, res, content)),
{
    content_names(content, i);
}

/// What content uses has every name that a form uses which it draws and which has no resources of its
/// own.
pub proof fn content_uses_what_its_forms_name(
    doc: PdfDocument,
    res: Entries,
    x: Entries,
    content: Content,
    i: int,
    id: nat,
    gen: u16,
    form: Entries,
    data: Seq<u8>,
    j: int,
)
    requires
        content is Operators,
        0 <= i < content.operators().len(),
        content.operators()[i] is Do,
        entries_under(doc, res, "XObject"@) == Some(x),
        dict_get(x, content.operators()[i]->Do_name@) == Some(Obj::Reference(id, gen)),
        doc.lookup(id) == Some(Obj::Stream(form, data)),
        dict_get(form, "Subtype"@) == Some(Obj::Name("Form"@)),
        !dict_has(form, "Resources"@),
        doc.content_of(id) is Operators,
        0 <= j < doc.content_of(id).operators().len(),
    ensures
        names_used(doc.content_of(id).operators()[j], all_use(doc, Obj::Dictionary(res), content)),
{
    let r = Obj::Dictionary(res);
    let ops = content.operators();
    assert(bare_form(doc, r, ops[i]->Do_name@) == Some(id));
    assert(draws(doc, r, ops, id));
    let path = seq![id];
    assert(draws_along(doc, r, ops, path));
    assert(path.last() == id);
    assert(drawn(doc, r, ops, id));
    content_names(doc.content_of(id), j);
}

/// The categories stand under their names.
pub proof fn categories_have_their_keys()
    ensures
        Category::Font.spec_key() == "Font"@,
        Category::XObject.spec_key() == "XObject"@,
        Category::ExtGState.spec_key() == "ExtGState"@,
        Category::ColorSpace.spec_key() == "ColorSpace"@,
        Category::Pattern.spec_key() == "Pattern"@,
        Category::Shading.spec_key() == "Shading"@,
        Category::Properties.spec_key() == "Properties"@,
{
}

/// Trimmed resources keep the procedure set.
pub proof fn procedure_set_is_kept(env: Env, st: State, src: nat, res: Entries, used: Used, depth: nat)
    ensures
        ({
            let t = trimmed_resources(env, st, src, Obj::Dictionary(res), used, depth).1;
            &&& t is Dictionary
            &&& dict_get(res, "ProcSet"@) matches Some(ps) ==> dict_has(t->Dictionary_0, "ProcSet"@) && (simple(ps)
                ==> dict_get(t->Dictionary_0, "ProcSet"@) == Some(ps))
        }),
{
    let out = trim_categories(env, st, src, res, used, depth, categories().len()).1;
    if let Some(ps) = dict_get(res, "ProcSet"@) {
        dict_get_insert(out, "ProcSet"@, direct(env.docs[src as int], ps), "ProcSet"@);
    }
}

/// A form whose resources are trimmed keeps all else that it has: each key but that of its resources,
/// with the copy of its value.
pub proof fn trimmed_form_keeps_its_entries(env: Env, st: State, src: nat, d: Entries, depth: nat, key: Seq<char>)
    requires
        ids_placed(st),
        keys_once(d),
        key != "Resources"@,
    ensures
        ({
            let (s, e) = form_entries(env, st, src, d, depth);
            &&& ids_placed(s)
            &&& extends(st.ids, s.ids)
            &&& entry_kept(env, s.ids, src, d, e, key, depth)
        }),
    decreases d.len(),
{
    if d.len() > 0 {
        last_of(d, key);
        let front = d.drop_last();
        trimmed_form_keeps_its_entries(env, st, src, front, depth, key);
        let (s1, out) = form_entries(env, st, src, front, depth);
        if d.last().0 != "Resources"@ {
            remap_copies(env, s1, src, d.last().1, depth);
            let (s2, o) = remap(env, s1, src, d.last().1, depth);
            dict_get_insert(out, d.last().0, o, key);
            if d.last().0 != key {
                if let Some(v) = dict_get(front, key) {
                    same_copy_extends(env, s1.ids, s2.ids, src, v, dict_get(out, key)->0, depth);
                }
            }
        }
    } else {
        let none: Entries = Seq::empty();
        assert(dict_get(none, key) is None);
        assert(d =~= none);
    }
}

} // verus!
