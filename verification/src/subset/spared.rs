//! What a subset is spared: resources that nothing names, pages that were not chosen, stated lengths
//! and references back into the source.

use vstd::prelude::*;
use crate::document::{Content, Operator, PdfDocument};
use crate::object::{dict_get, dict_get_insert, dict_get_remove, dict_has, new_ref, Entries, Obj, Object};
use super::again::{form_entries_remember, resources_remember};
use super::copy::remap;
use super::defaults::op_default;
use super::direct::{direct, direct_entries};
use super::resources::{
    form_entries, import_resource, name_kept, op_use, trimmed_resources, trimmed_to_names_in_use, Category,
};
use super::strays::tidy_cells;
use super::usage::{all_use, draws, draws_along, drawn};
use super::{next_id, object_at, with_slot, Cell, Env, State};

verus! {

/// Does the operator name the resource?
pub open spec fn named_by(op: Operator, category: Category, name: Seq<char>) -> bool {
    match category {
        Category::Font => op matches Operator::Tf { font, .. } && font@ == name,
        Category::XObject => op matches Operator::Do { name: n } && n@ == name,
        Category::ExtGState => op matches Operator::SetExtGState { dict_name } && dict_name@ == name,
        Category::Shading => op matches Operator::PaintShading { name: n } && n@ == name,
        Category::ColorSpace => {
            ||| op matches Operator::SetFillColorSpace { name: n } && n@ == name
            ||| op matches Operator::SetStrokeColorSpace { name: n } && n@ == name
            ||| op matches Operator::InlineImage { color_space: Some(n) } && n@ == name
        },
        Category::Pattern => {
            ||| op matches Operator::SetFillColorN { name: Some(n), .. } && n@ == name
            ||| op matches Operator::SetStrokeColorN { name: Some(n), .. } && n@ == name
        },
        Category::Properties => {
            ||| op matches Operator::BeginMarkedContentDict { properties: Object::Name(n), .. } && n@ == name
            ||| op matches Operator::MarkedContentPointDict { properties: Object::Name(n), .. } && n@ == name
        },
    }
}

/// Is the resource a space that stands for a device space?
pub open spec fn stands_for_device(category: Category, name: Seq<char>) -> bool {
    category == Category::ColorSpace && (name == "DefaultGray"@ || name == "DefaultRGB"@ || name == "DefaultCMYK"@)
}

/// Is what the operator draws, if it draws anything, an object with resources of its own?
pub open spec fn draws_on_its_own(doc: PdfDocument, x: Entries, op: Operator) -> bool {
    op matches Operator::Do { name } ==> (dict_get(x, name@) matches Some(Obj::Reference(id, _)) && (doc.lookup(
        id,
    ) matches Some(Obj::Stream(f, _)) && (dict_get(f, "Resources"@) matches Some(r) && r is Dictionary)))
}

/// Do the resources have the dictionary of the objects to be drawn, where there is any?
pub open spec fn has_drawables(res: Obj, x: Entries) -> bool {
    res matches Obj::Dictionary(d) && (dict_get(d, "XObject"@) == Some(Obj::Dictionary(x)) || !dict_has(d, "XObject"@)
        && x.len() == 0)
}

proof fn draws_nothing(doc: PdfDocument, res: Obj, x: Entries, ops: Seq<Operator>, id: nat)
    requires
        has_drawables(res, x),
        forall|j: int| 0 <= j < ops.len() ==> draws_on_its_own(doc, x, #[trigger] ops[j]),
    ensures
        !drawn(doc, res, ops, id),
{
    if drawn(doc, res, ops, id) {
        let path = choose|path: Seq<nat>| #[trigger] draws_along(doc, res, ops, path) && path.last() == id;
        assert(draws(doc, res, ops, path[0]));
    }
}

/// A resource that no operator names is dropped, but for the spaces that stand for device spaces. What
/// the content draws does not count, where it has resources of its own.
pub proof fn unnamed_resources_are_dropped(
    env: Env,
    st: State,
    src: nat,
    res: Obj,
    x: Entries,
    content: Content,
    depth: nat,
    category: Category,
    name: Seq<char>,
)
    requires
        has_drawables(res, x),
        content is Operators,
        forall|j: int|
            0 <= j < content.operators().len() ==> draws_on_its_own(
                env.docs[src as int],
                x,
                #[trigger] content.operators()[j],
            ),
        forall|j: int| 0 <= j < content.operators().len() ==> !named_by(#[trigger] content.operators()[j], category, name),
        !stands_for_device(category, name),
    ensures
        ({
            let used = all_use(env.docs[src as int], res, content);
            let out = trimmed_resources(env, st, src, res, used, depth).1;
            out is Dictionary && !name_kept(out->Dictionary_0, category, name)
        }),
{
    let doc = env.docs[src as int];
    let used = all_use(doc, res, content);
    let ops = content.operators();
    let p = (category, name);
    trimmed_to_names_in_use(env, st, src, res, used, depth, category, name);
    assert forall|id: nat| !(#[trigger] drawn(doc, res, ops, id)) by {
        draws_nothing(doc, res, x, ops, id);
    }
    assert forall|j: int| 0 <= j < ops.len() implies op_use(#[trigger] ops[j]) != Some(p) && !op_default(ops[j], p) by {
        assert(!named_by(ops[j], category, name));
    }
    assert(!used.contains(p));
}

/// A form is copied without the resources that it has and does not name: what stands for it in the output
/// has its data, and none of those names.
pub proof fn forms_are_trimmed(
    env: Env,
    st: State,
    src: nat,
    id: nat,
    gen: u16,
    d: Entries,
    data: Seq<u8>,
    res: Entries,
    x: Entries,
    depth: nat,
    category: Category,
    name: Seq<char>,
)
    requires
        env.opts.trim_forms,
        depth < 256,
        !st.forms.contains_key((src, id)),
        env.docs[src as int].lookup(id) == Some(Obj::Stream(d, data)),
        dict_get(d, "Subtype"@) == Some(Obj::Name("Form"@)),
        dict_get(d, "Resources"@) == Some(Obj::Dictionary(res)),
        has_drawables(Obj::Dictionary(res), x),
        env.docs[src as int].content_of(id) is Operators,
        forall|j: int|
            0 <= j < env.docs[src as int].content_of(id).operators().len() ==> {
                let op = #[trigger] env.docs[src as int].content_of(id).operators()[j];
                draws_on_its_own(env.docs[src as int], x, op) && !named_by(op, category, name)
            },
        !stands_for_device(category, name),
    ensures
        ({
            let (s, o) = import_resource(env, st, src, Obj::Reference(id, gen), Category::XObject, depth);
            &&& o == new_ref(next_id(st))
            &&& object_at(s, next_id(st)) matches Some(Obj::Stream(e, kept)) && kept == data && (dict_get(e, "Resources"@)
                matches Some(Obj::Dictionary(t)) && !name_kept(t, category, name))
        }),
{
    let doc = env.docs[src as int];
    let n = next_id(st);
    let s1 = State { forms: st.forms.insert((src, id), n), ..with_slot(st) };
    let r = Obj::Dictionary(res);
    let used = all_use(doc, r, doc.content_of(id));
    let (s2, nd) = form_entries(env, s1, src, d, depth + 2);
    let (s3, t) = trimmed_resources(env, s2, src, r, used, depth + 2);
    form_entries_remember(env, s1, src, d, depth + 2);
    resources_remember(env, s2, src, r, used, depth + 2);
    unnamed_resources_are_dropped(env, s2, src, r, x, doc.content_of(id), depth + 2, category, name);
    dict_get_insert(nd, "Resources"@, t, "Resources"@);
}

/// Any other resource is copied as it is: one that is no form, and each where forms are not to be trimmed.
pub proof fn other_resources_are_copied(env: Env, st: State, src: nat, v: Obj, category: Category, depth: nat)
    requires
        category != Category::XObject || !env.opts.trim_forms || (v matches Obj::Reference(id, _) ==> (
        env.docs[src as int].lookup(id) matches Some(Obj::Stream(d, _)) && dict_get(d, "Subtype"@) != Some(
            Obj::Name("Form"@),
        ))),
    ensures
        import_resource(env, st, src, v, category, depth) == remap(env, st, src, v, depth + 1),
{
}

/// Pages that were not chosen and nodes of page trees are not written, nor is the length that a stream
/// states. All else stays.
pub proof fn strays_are_dropped(slots: Seq<Cell>, pages: Seq<nat>, i: int, key: Seq<char>)
    requires
        0 <= i < slots.len(),
    ensures
        tidy_cells(slots, pages).len() == slots.len(),
        tidy_cells(slots, pages)[i].pinned == slots[i].pinned,
        match slots[i].object {
            Some(Obj::Dictionary(d)) => tidy_cells(slots, pages)[i].object == Some(
                if (dict_get(d, "Type"@) == Some(Obj::Name("Page"@)) || dict_get(d, "Type"@) == Some(
                    Obj::Name("Pages"@),
                )) && !pages.contains((i + 1) as nat) {
                    Obj::Null
                } else {
                    Obj::Dictionary(d)
                },
            ),
            Some(Obj::Stream(d, data)) => tidy_cells(slots, pages)[i].object matches Some(Obj::Stream(e, kept))
                && kept == data && !dict_has(e, "Length"@) && (key != "Length"@ ==> dict_get(e, key) == dict_get(d, key)),
            other => tidy_cells(slots, pages)[i].object == other,
        },
{
    if let Some(Obj::Stream(d, _)) = slots[i].object {
        dict_get_remove(d, "Length"@, "Length"@);
        dict_get_remove(d, "Length"@, key);
    }
}

/// Is it a value without parts that is no reference?
pub open spec fn has_no_parts(o: Obj) -> bool {
    match o {
        Obj::Reference(_, _) => false,
        Obj::Array(_) => false,
        Obj::Dictionary(_) => false,
        Obj::Stream(_, _) => false,
        _ => true,
    }
}

/// A reference is replaced by the value that it leads to, and by null where that has parts of its own.
pub proof fn references_are_replaced(doc: PdfDocument, id: nat, gen: u16)
    ensures
        match doc.lookup(id) {
            Some(Obj::Array(items)) => direct(doc, Obj::Reference(id, gen)) matches Obj::Array(out) && out.len()
                == items.len() && forall|i: int|
                0 <= i < items.len() && has_no_parts(items[i]) ==> #[trigger] out[i] == items[i],
            Some(v) => direct(doc, Obj::Reference(id, gen)) == (if has_no_parts(v) {
                v
            } else {
                Obj::Null
            }),
            None => direct(doc, Obj::Reference(id, gen)) == Obj::Null,
        },
{
}

/// A value without references is a copy that differs in nothing but them: what has no parts stays, an
/// array keeps its items in order and a dictionary its keys. A stream cannot stand in a value.
pub proof fn values_are_copied_in_place(doc: PdfDocument, o: Obj, i: int)
    ensures
        has_no_parts(o) ==> direct(doc, o) == o,
        o is Stream ==> direct(doc, o) == Obj::Null,
        o matches Obj::Array(items) ==> (direct(doc, o) matches Obj::Array(out) && out.len() == items.len() && (0 <= i
            < items.len() ==> out[i] == direct(doc, items[i]))),
        o matches Obj::Dictionary(d) ==> (direct(doc, o) matches Obj::Dictionary(e) && e.len() == d.len() && (0 <= i
            < d.len() ==> e[i].0 == d[i].0 && e[i].1 == direct(doc, d[i].1))),
{
    if let Obj::Dictionary(d) = o {
        assert(direct(doc, o) == Obj::Dictionary(direct_entries(doc, d)));
    }
}

} // verus!
