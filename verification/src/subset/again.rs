//! A second call for what was copied before: whatever was done in between, it gives the copy that is
//! there and changes nothing.

use vstd::prelude::*;
use crate::document::{resolve, Content, PdfDocument};
use crate::object::{dict_get, dict_has, dict_insert, dict_ref, new_ref, obj_dict, Entries, Obj};
use super::acroform::{acroform, attach_kids, dict_of, field_keys, form_keys, import_form_field, register_widget};
use super::copy::{
    carry, import, levels, load_or_null, refs, remap, remap_entries, remap_items,
};
use super::dests::{catalog, sub_array};
use super::faithful::{extends, is_page};
use super::finish::{extra_keys, gather, gather_extras, import_info};
use super::outlines::{
    link_siblings, outline_chain, outline_item, outline_items, outline_root, outlines, siblings,
    MAX_OUTLINE_DEPTH,
};
use super::pages::{
    annot_of, build_page, count_severed, geometry_keys, is_signature, keep_plain, navigation,
    navigation_keys, page_body, place_annot, process_annot, process_annots, remove_all, signature_keys,
    signature_warning,
};
use super::rebuild::{build_pages, plan, planned, subset, Picks};
use super::resources::{
    categories, form_entries, form_ref, import_form_trimmed, import_resource, sub_dict, trim_categories,
    trim_entries, trimmed_resources, Category, Used,
};
use super::struct_tree::{
    finish_root, k_items, k_value, kept_page, parent_nums, struct_elem, struct_kid, struct_kids,
    struct_root, struct_tops, struct_tree, Marks,
};
use super::usage::all_use;
use super::{next_id, object_at, put, set_pin, with_slot, Env, State, SubsetOptions, MAX_DEPTH};

verus! {

/// Something that can be asked for while a file is built.
pub enum Call {
    /// Copy a source object.
    Import { src: nat, id: nat, depth: nat },
    /// Copy what an object refers to.
    Remap { src: nat, object: Obj, depth: nat },
    /// Copy a form XObject with trimmed resources.
    Form { src: nat, id: nat, depth: nat },
    /// Copy the resources that are in use.
    Resources { src: nat, resources: Obj, used: Used, depth: nat },
    /// Copy a form field.
    Field { src: nat, id: nat, depth: nat },
    /// Enter a widget into the tree of fields.
    Widget { src: nat, annot: Entries, widget: nat, parent: Option<nat> },
    /// Build a page.
    Page { src: nat, page_index: nat, page_id: nat },
    /// Build the outlines.
    Outlines { src: nat },
    /// Build the structure tree.
    StructTree { src: nat },
    /// Build the interactive form.
    AcroForm { src: nat },
}

/// The state after a call. A page that is refused leaves the state as it was.
pub open spec fn after_call(env: Env, st: State, call: Call) -> State {
    match call {
        Call::Import { src, id, depth } => import(env, st, src, id, depth).0,
        Call::Remap { src, object, depth } => remap(env, st, src, object, depth).0,
        Call::Form { src, id, depth } => import_form_trimmed(env, st, src, id, depth).0,
        Call::Resources { src, resources, used, depth } => {
            trimmed_resources(env, st, src, resources, used, depth).0
        },
        Call::Field { src, id, depth } => import_form_field(env, st, src, id, depth).0,
        Call::Widget { src, annot, widget, parent } => register_widget(env, st, src, annot, widget, parent).0,
        Call::Page { src, page_index, page_id } => match build_page(env, st, src, page_index, page_id) {
            Ok(s) => s,
            Err(_) => st,
        },
        Call::Outlines { src } => outlines(env, st, src).0,
        Call::StructTree { src } => struct_tree(env, st, src).0,
        Call::AcroForm { src } => acroform(env, st, src).0,
    }
}

/// The state after some calls, one after the other.
pub open spec fn after_calls(env: Env, st: State, calls: Seq<Call>) -> State
    decreases calls.len(),
{
    if calls.len() == 0 {
        st
    } else {
        after_call(env, after_calls(env, st, calls.drop_last()), calls.last())
    }
}

/// Is all that was copied in `a` known in `b`, under the same numbers, and has each signature that was
/// dropped in between left a warning?
pub open spec fn remembers(a: State, b: State) -> bool {
    &&& a.slots.len() <= b.slots.len()
    &&& b.warnings.len() - a.warnings.len() == b.dropped_signatures - a.dropped_signatures
    &&& extends(a.ids, b.ids)
    &&& extends(a.forms, b.forms)
    &&& extends(a.fields, b.fields)
}

pub proof fn remembers_trans(a: State, b: State, c: State)
    requires
        remembers(a, b),
        remembers(b, c),
    ensures
        remembers(a, c),
{
    assert forall|k: (nat, nat)| #[trigger] a.ids.contains_key(k) implies c.ids.contains_key(k) && c.ids[k]
        == a.ids[k] by {
        assert(b.ids.contains_key(k));
    }
    assert forall|k: (nat, nat)| #[trigger] a.forms.contains_key(k) implies c.forms.contains_key(k)
        && c.forms[k] == a.forms[k] by {
        assert(b.forms.contains_key(k));
    }
    assert forall|k: (nat, nat)| #[trigger] a.fields.contains_key(k) implies c.fields.contains_key(k)
        && c.fields[k] == a.fields[k] by {
        assert(b.fields.contains_key(k));
    }
}

proof fn import_remembers(env: Env, st: State, src: nat, id: nat, depth: nat)
    ensures
        remembers(st, import(env, st, src, id, depth).0),
    decreases levels(depth), 0nat, 0nat,
{
    if !st.ids.contains_key((src, id)) && depth <= MAX_DEPTH {
        let s1 = State { ids: st.ids.insert((src, id), next_id(st)), ..with_slot(st) };
        remap_remembers(env, s1, src, load_or_null(env.docs[src as int], id), depth + 1);
        remembers_trans(st, s1, remap(env, s1, src, load_or_null(env.docs[src as int], id), depth + 1).0);
    }
}

proof fn remap_remembers(env: Env, st: State, src: nat, o: Obj, depth: nat)
    ensures
        remembers(st, remap(env, st, src, o, depth).0),
    decreases levels(depth), 1nat, 0nat,
{
    if depth <= MAX_DEPTH {
        match o {
            Obj::Reference(id, _) => {
                if !is_page(env, (src, id)) {
                    import_remembers(env, st, src, id, depth);
                }
            },
            Obj::Array(items) => {
                items_remember(env, st, src, items, depth + 1);
            },
            Obj::Dictionary(d) => {
                entries_remember(env, st, src, d, depth + 1);
            },
            Obj::Stream(d, _) => {
                entries_remember(env, st, src, d, depth + 1);
            },
            _ => {},
        }
    }
}

proof fn items_remember(env: Env, st: State, src: nat, items: Seq<Obj>, depth: nat)
    ensures
        remembers(st, remap_items(env, st, src, items, depth).0),
    decreases levels(depth), 2nat, items.len(),
{
    if items.len() > 0 {
        items_remember(env, st, src, items.drop_last(), depth);
        let s1 = remap_items(env, st, src, items.drop_last(), depth).0;
        remap_remembers(env, s1, src, items.last(), depth);
        remembers_trans(st, s1, remap(env, s1, src, items.last(), depth).0);
    }
}

proof fn entries_remember(env: Env, st: State, src: nat, d: Entries, depth: nat)
    ensures
        remembers(st, remap_entries(env, st, src, d, depth).0),
    decreases levels(depth), 2nat, d.len(),
{
    if d.len() > 0 {
        entries_remember(env, st, src, d.drop_last(), depth);
        let s1 = remap_entries(env, st, src, d.drop_last(), depth).0;
        remap_remembers(env, s1, src, d.last().1, depth);
        remembers_trans(st, s1, remap(env, s1, src, d.last().1, depth).0);
    }
}

proof fn carry_remembers(
    env: Env,
    st: State,
    src: nat,
    from: Entries,
    keys: Seq<Seq<char>>,
    depth: nat,
    into: Entries,
)
    ensures
        remembers(st, carry(env, st, src, from, keys, depth, into).0),
    decreases keys.len(),
{
    if keys.len() > 0 {
        carry_remembers(env, st, src, from, keys.drop_last(), depth, into);
        let s1 = carry(env, st, src, from, keys.drop_last(), depth, into).0;
        if let Some(v) = dict_get(from, keys.last()) {
            remap_remembers(env, s1, src, v, depth);
            remembers_trans(st, s1, remap(env, s1, src, v, depth).0);
        }
    }
}

pub proof fn resource_remembers(env: Env, st: State, src: nat, v: Obj, category: Category, depth: nat)
    ensures
        remembers(st, import_resource(env, st, src, v, category, depth).0),
    decreases levels(depth), 1nat, 0nat,
{
    if category == Category::XObject && env.opts.trim_forms && depth < MAX_DEPTH && form_ref(
        env.docs[src as int],
        v,
    ) is Some {
        form_remembers(env, st, src, form_ref(env.docs[src as int], v)->0, depth + 1);
    } else {
        remap_remembers(env, st, src, v, depth + 1);
    }
}

pub proof fn trim_entries_remember(
    env: Env,
    st: State,
    src: nat,
    sub: Entries,
    used: Used,
    category: Category,
    depth: nat,
)
    ensures
        remembers(st, trim_entries(env, st, src, sub, used, category, depth).0),
    decreases levels(depth), 2nat, sub.len(),
{
    if sub.len() > 0 {
        trim_entries_remember(env, st, src, sub.drop_last(), used, category, depth);
        let s1 = trim_entries(env, st, src, sub.drop_last(), used, category, depth).0;
        if used.contains((category, sub.last().0)) {
            resource_remembers(env, s1, src, sub.last().1, category, depth);
            remembers_trans(st, s1, import_resource(env, s1, src, sub.last().1, category, depth).0);
        }
    }
}

pub proof fn categories_remember(env: Env, st: State, src: nat, res: Entries, used: Used, depth: nat, n: nat)
    ensures
        remembers(st, trim_categories(env, st, src, res, used, depth, n).0),
    decreases levels(depth), 3nat, n,
{
    if n > 0 {
        categories_remember(env, st, src, res, used, depth, (n - 1) as nat);
        let s1 = trim_categories(env, st, src, res, used, depth, (n - 1) as nat).0;
        let category = categories()[n - 1];
        if let Some(sub) = sub_dict(env.docs[src as int], res, category.spec_key()) {
            trim_entries_remember(env, s1, src, sub, used, category, depth);
            remembers_trans(st, s1, trim_entries(env, s1, src, sub, used, category, depth).0);
        }
    }
}

/// Copying resources keeps what was copied.
pub proof fn resources_remember(env: Env, st: State, src: nat, res: Obj, used: Used, depth: nat)
    ensures
        remembers(st, trimmed_resources(env, st, src, res, used, depth).0),
    decreases levels(depth), 4nat, 0nat,
{
    if let Some(d) = obj_dict(res) {
        categories_remember(env, st, src, d, used, depth, categories().len());
    }
}

/// Copying the entries of a form keeps what was copied.
pub proof fn form_entries_remember(env: Env, st: State, src: nat, d: Entries, depth: nat)
    ensures
        remembers(st, form_entries(env, st, src, d, depth).0),
    decreases d.len(),
{
    if d.len() > 0 {
        form_entries_remember(env, st, src, d.drop_last(), depth);
        let s1 = form_entries(env, st, src, d.drop_last(), depth).0;
        if d.last().0 != "Resources"@ {
            remap_remembers(env, s1, src, d.last().1, depth);
            remembers_trans(st, s1, remap(env, s1, src, d.last().1, depth).0);
        }
    }
}

pub proof fn form_remembers(env: Env, st: State, src: nat, id: nat, depth: nat)
    ensures
        ({
            let (s, n) = import_form_trimmed(env, st, src, id, depth);
            &&& remembers(st, s)
            &&& s.forms.contains_key((src, id))
            &&& s.forms[(src, id)] == n
        }),
    decreases levels(depth), 5nat, 0nat,
{
    if !st.forms.contains_key((src, id)) {
        let doc = env.docs[src as int];
        let n = next_id(st);
        let s1 = State { forms: st.forms.insert((src, id), n), ..with_slot(st) };
        assert(s1.forms.contains_key((src, id)));
        match load_or_null(doc, id) {
            Obj::Stream(d, data) => {
                form_entries_remember(env, s1, src, d, depth + 1);
                let (s2, nd) = form_entries(env, s1, src, d, depth + 1);
                remembers_trans(st, s1, s2);
                let trimmed = match dict_get(d, "Resources"@) {
                    Some(r) => resolve(doc, r),
                    None => None,
                };
                if let Some(res) = trimmed {
                    let used = all_use(doc, res, doc.content_of(id));
                    resources_remember(env, s2, src, res, used, depth + 1);
                    let s3 = trimmed_resources(env, s2, src, res, used, depth + 1).0;
                    remembers_trans(st, s2, s3);
                    remembers_trans(s1, s2, s3);
                }
            },
            o => {
                remap_remembers(env, s1, src, o, depth + 1);
                remembers_trans(st, s1, remap(env, s1, src, o, depth + 1).0);
            },
        }
    }
}

pub proof fn field_remembers(env: Env, st: State, src: nat, id: nat, depth: nat)
    ensures
        ({
            let (s, n) = import_form_field(env, st, src, id, depth);
            &&& remembers(st, s)
            &&& s.fields.contains_key((src, id))
            &&& s.fields[(src, id)] == n
        }),
    decreases levels(depth),
{
    if !st.fields.contains_key((src, id)) {
        let n = next_id(st);
        let s1 = State { fields: st.fields.insert((src, id), n), ..set_pin(with_slot(st), n, true) };
        assert(s1.fields.contains_key((src, id)));
        let fd = dict_of(env.docs[src as int], id);
        carry_remembers(env, s1, src, fd, field_keys(), depth + 1, Seq::empty());
        let s2 = carry(env, s1, src, fd, field_keys(), depth + 1, Seq::empty()).0;
        remembers_trans(st, s1, s2);
        if let Some(p) = dict_ref(fd, "Parent"@) {
            if depth < MAX_DEPTH {
                field_remembers(env, s2, src, p, depth + 1);
                let s3 = import_form_field(env, s2, src, p, depth + 1).0;
                remembers_trans(st, s2, s3);
                remembers_trans(s1, s2, s3);
            }
        }
    }
}

pub proof fn place_remembers(
    env: Env,
    st: State,
    src: nat,
    annot: Entries,
    nav: Option<(Seq<char>, Obj)>,
    page_id: nat,
)
    ensures
        remembers(st, place_annot(env, st, src, annot, nav, page_id).0),
{
    entries_remember(env, st, src, annot, 1);
}

pub proof fn widget_remembers(env: Env, st: State, src: nat, annot: Entries, widget: nat, parent: Option<nat>)
    ensures
        remembers(st, register_widget(env, st, src, annot, widget, parent).0),
{
    if let Some(p) = parent {
        field_remembers(env, st, src, p, 0);
    }
}

proof fn plain_remembers(
    env: Env,
    st: State,
    src: nat,
    annot: Entries,
    parent: Option<nat>,
    nav: Option<(Seq<char>, Obj)>,
    page_id: nat,
)
    ensures
        remembers(st, keep_plain(env, st, src, annot, parent, nav, page_id).0),
{
    place_remembers(env, st, src, annot, nav, page_id);
    let (s1, aid) = place_annot(env, st, src, annot, nav, page_id);
    if env.opts.keep_acroform && (dict_has(annot, "FT"@) || parent is Some) {
        let s2 = set_pin(s1, aid, true);
        widget_remembers(env, s2, src, annot, aid, parent);
        remembers_trans(st, s2, register_widget(env, s2, src, annot, aid, parent).0);
    }
}

proof fn annot_remembers(env: Env, st: State, src: nat, entry: Obj, page_id: nat, page_index: nat)
    requires
        process_annot(env, st, src, entry, page_id, page_index) is Ok,
    ensures
        remembers(st, process_annot(env, st, src, entry, page_id, page_index)->Ok_0.0),
{
    if let Some(annot) = annot_of(env.docs[src as int], entry) {
        let nav = navigation(env, src, annot);
        let plain = remove_all(annot, navigation_keys());
        let parent = dict_ref(annot, "Parent"@);
        let s1 = count_severed(st, annot, nav);
        if !is_signature(env.docs[src as int], plain, parent) {
            plain_remembers(env, s1, src, plain, parent, nav, page_id);
        } else {
            let s2 = State {
                dropped_signatures: s1.dropped_signatures + 1,
                warnings: s1.warnings.push(signature_warning(page_index)),
                ..s1
            };
            place_remembers(env, s2, src, remove_all(plain, signature_keys()), nav, page_id);
        }
    }
}

pub proof fn annots_remember(
    env: Env,
    st: State,
    src: nat,
    entries: Seq<Obj>,
    page_id: nat,
    page_index: nat,
    kept: Seq<Obj>,
)
    requires
        process_annots(env, st, src, entries, page_id, page_index, kept) is Ok,
    ensures
        remembers(st, process_annots(env, st, src, entries, page_id, page_index, kept)->Ok_0.0),
    decreases entries.len(),
{
    if entries.len() > 0 {
        annot_remembers(env, st, src, entries[0], page_id, page_index);
        let (s1, o) = process_annot(env, st, src, entries[0], page_id, page_index)->Ok_0;
        let more = match o {
            Some(r) => kept.push(r),
            None => kept,
        };
        annots_remember(env, s1, src, entries.skip(1), page_id, page_index, more);
        remembers_trans(
            st,
            s1,
            process_annots(env, s1, src, entries.skip(1), page_id, page_index, more)->Ok_0.0,
        );
    }
}

pub proof fn body_remembers(env: Env, st: State, src: nat, page: Entries, content: Content)
    ensures
        remembers(st, page_body(env, st, src, page, content).0),
{
    let d0 = dict_insert(Seq::empty(), "Type"@, Obj::Name("Page"@));
    carry_remembers(env, st, src, page, geometry_keys(), 1, d0);
    let (s1, d1) = carry(env, st, src, page, geometry_keys(), 1, d0);
    let trimmed = match dict_get(page, "Resources"@) {
        Some(r) => resolve(env.docs[src as int], r),
        None => None,
    };
    let (s2, d2) = match trimmed {
        Some(res) => {
            let used = all_use(env.docs[src as int], res, content);
            let (s, t) = trimmed_resources(env, s1, src, res, used, 0);
            (s, dict_insert(d1, "Resources"@, t))
        },
        None => (s1, d1),
    };
    if let Some(res) = trimmed {
        resources_remember(env, s1, src, res, all_use(env.docs[src as int], res, content), 0);
    }
    remembers_trans(st, s1, s2);
    carry_remembers(env, s2, src, page, seq!["Contents"@], 1, d2);
    remembers_trans(st, s2, carry(env, s2, src, page, seq!["Contents"@], 1, d2).0);
}

pub proof fn page_remembers(env: Env, st: State, src: nat, page_index: nat, page_id: nat)
    requires
        build_page(env, st, src, page_index, page_id) is Ok,
    ensures
        remembers(st, build_page(env, st, src, page_index, page_id)->Ok_0),
{
    let doc = env.docs[src as int];
    let page = doc.page_seq()[page_index as int];
    let d = obj_dict(page.object@)->0;
    let content = page.content;
    body_remembers(env, st, src, d, content);
    let s1 = page_body(env, st, src, d, content).0;
    if let Some(entries) = sub_array(doc, d, "Annots"@) {
        annots_remember(env, s1, src, entries, page_id, page_index, Seq::empty());
        let s2 = process_annots(env, s1, src, entries, page_id, page_index, Seq::empty())->Ok_0.0;
        remembers_trans(st, s1, s2);
    }
}

/// Are the numbers of what was copied and the warnings the same, and is there no place less?
pub open spec fn same_numbers(a: State, b: State) -> bool {
    &&& a.slots.len() <= b.slots.len()
    &&& b.ids == a.ids && b.forms == a.forms && b.fields == a.fields
    &&& b.warnings == a.warnings && b.dropped_signatures == a.dropped_signatures
}

proof fn siblings_remember(st: State, ids: Seq<nat>, k: nat)
    ensures
        same_numbers(st, link_siblings(st, ids, k)),
    decreases k,
{
    if k > 0 {
        siblings_remember(st, ids, (k - 1) as nat);
    }
}

proof fn item_remembers(env: Env, st: State, src: nat, item: Entries, parent: nat, depth: nat)
    requires
        depth <= MAX_OUTLINE_DEPTH,
    ensures
        same_numbers(st, outline_item(env, st, src, item, parent, depth).0),
    decreases MAX_OUTLINE_DEPTH + 1 - depth, 1nat, 0nat,
{
    let n = next_id(st);
    chain_remembers(env, set_pin(with_slot(st), n, true), src, dict_ref(item, "First"@), n, depth + 1);
}

proof fn outline_items_remember(env: Env, st: State, src: nat, items: Seq<Entries>, parent: nat, depth: nat)
    requires
        depth <= MAX_OUTLINE_DEPTH,
    ensures
        same_numbers(st, outline_items(env, st, src, items, parent, depth).0),
    decreases MAX_OUTLINE_DEPTH + 1 - depth, 2nat, items.len(),
{
    if items.len() > 0 {
        outline_items_remember(env, st, src, items.drop_last(), parent, depth);
        let s1 = outline_items(env, st, src, items.drop_last(), parent, depth).0;
        item_remembers(env, s1, src, items.last(), parent, depth);
    }
}

pub proof fn chain_remembers(env: Env, st: State, src: nat, first: Option<nat>, parent: nat, depth: nat)
    ensures
        same_numbers(st, outline_chain(env, st, src, first, parent, depth).0),
    decreases MAX_OUTLINE_DEPTH + 1 - depth, 3nat, 0nat,
{
    if depth <= MAX_OUTLINE_DEPTH {
        let items = siblings(env.docs[src as int], first, Set::empty());
        outline_items_remember(env, st, src, items, parent, depth);
        let (s1, ids) = outline_items(env, st, src, items, parent, depth);
        siblings_remember(s1, ids, ids.len());
    }
}

proof fn outlines_remember(env: Env, st: State, src: nat)
    ensures
        same_numbers(st, outlines(env, st, src).0),
{
    if let Some(root) = outline_root(env.docs[src as int]) {
        let n = next_id(st);
        chain_remembers(env, set_pin(with_slot(st), n, true), src, dict_ref(root, "First"@), n, 0);
    }
}

proof fn elem_remembers(env: Env, st: State, marks: Marks, src: nat, item: Obj, parent: nat, depth: nat)
    ensures
        same_numbers(st, struct_elem(env, st, marks, src, item, parent, depth).0),
    decreases MAX_DEPTH + 2 - depth, 0nat, 0nat,
{
    if depth <= MAX_DEPTH && annot_of(env.docs[src as int], item) is Some {
        let ed = annot_of(env.docs[src as int], item)->0;
        let items = match dict_get(ed, "K"@) {
            Some(k) => k_items(env.docs[src as int], k),
            None => Seq::empty(),
        };
        let page = kept_page(env, src, ed);
        elem_kids_remember(env, with_slot(st), marks, src, items, page, next_id(st), depth);
    }
}

pub proof fn elem_kids_remember(
    env: Env,
    st: State,
    marks: Marks,
    src: nat,
    items: Seq<Obj>,
    page: Option<nat>,
    n: nat,
    depth: nat,
)
    requires
        depth <= MAX_DEPTH,
    ensures
        same_numbers(st, struct_kids(env, st, marks, src, items, page, n, depth).0),
    decreases MAX_DEPTH + 1 - depth, 2nat, items.len(),
{
    if items.len() > 0 {
        elem_kids_remember(env, st, marks, src, items.drop_last(), page, n, depth);
        let (s1, m1, kids) = struct_kids(env, st, marks, src, items.drop_last(), page, n, depth);
        elem_remembers(env, s1, m1, src, items.last(), n, depth + 1);
        assert(same_numbers(s1, struct_kid(env, s1, m1, src, items.last(), page, n, depth).0));
    }
}

proof fn tops_remember(env: Env, st: State, src: nat, items: Seq<Obj>, root: nat)
    ensures
        same_numbers(st, struct_tops(env, st, src, items, root).0),
    decreases items.len(),
{
    if items.len() > 0 {
        tops_remember(env, st, src, items.drop_last(), root);
        let (s1, m1, ids) = struct_tops(env, st, src, items.drop_last(), root);
        elem_remembers(env, s1, m1, src, items.last(), root, 0);
    }
}

proof fn nums_remember(st: State, marks: Marks, pages: Seq<nat>, k: nat)
    ensures
        same_numbers(st, parent_nums(st, marks, pages, k).0),
    decreases k,
{
    if k > 0 {
        nums_remember(st, marks, pages, (k - 1) as nat);
    }
}

proof fn tree_remembers(env: Env, st: State, src: nat)
    ensures
        remembers(st, struct_tree(env, st, src).0),
{
    if let Some(source_root) = struct_root(env.docs[src as int]) {
        let n = next_id(st);
        let s1 = set_pin(with_slot(st), n, true);
        let items = match dict_get(source_root, "K"@) {
            Some(k) => k_items(env.docs[src as int], k),
            None => Seq::empty(),
        };
        tops_remember(env, s1, src, items, n);
        let (s2, marks, kids) = struct_tops(env, s1, src, items, n);
        root_remembers(env, s2, marks, src, source_root, n, kids);
    }
}

proof fn root_remembers(
    env: Env,
    st: State,
    marks: Marks,
    src: nat,
    source_root: Entries,
    root: nat,
    kids: Seq<nat>,
)
    ensures
        remembers(st, finish_root(env, st, marks, src, source_root, root, kids)),
{
    nums_remember(st, marks, st.page_ids, st.page_ids.len());
    let (s1, nums) = parent_nums(st, marks, st.page_ids, st.page_ids.len());
    let pt = next_id(s1);
    let o = Obj::Dictionary(dict_insert(Seq::empty(), "Nums"@, Obj::Array(nums)));
    let s2 = put(set_pin(with_slot(s1), pt, true), pt, o);
    let d0 = dict_insert(Seq::empty(), "Type"@, Obj::Name("StructTreeRoot"@));
    let d1 = dict_insert(d0, "ParentTree"@, new_ref(pt));
    let d2 = dict_insert(d1, "ParentTreeNextKey"@, Obj::Integer((nums.len() / 2) as i64));
    let d3 = dict_insert(d2, "K"@, k_value(refs(kids)));
    carry_remembers(env, s2, src, source_root, seq!["RoleMap"@, "ClassMap"@], 1, d3);
}

proof fn kids_remember(st: State, n: nat)
    ensures
        same_numbers(st, attach_kids(st, n)),
    decreases n,
{
    if n > 0 {
        kids_remember(st, (n - 1) as nat);
    }
}

proof fn acroform_remembers(env: Env, st: State, src: nat)
    ensures
        remembers(st, acroform(env, st, src).0),
{
    let s1 = attach_kids(st, st.slots.len());
    kids_remember(st, st.slots.len());
    let af = dict_insert(Seq::empty(), "Fields"@, Obj::Array(refs(st.tops)));
    if let Some(cat) = catalog(env.docs[src as int]) {
        if let Some(src_af) = sub_dict(env.docs[src as int], cat, "AcroForm"@) {
            carry_remembers(env, s1, src, src_af, form_keys(), 1, af);
        }
    }
}

/// No call makes the library forget what was copied.
pub proof fn calls_remember(env: Env, st: State, calls: Seq<Call>)
    ensures
        remembers(st, after_calls(env, st, calls)),
    decreases calls.len(),
{
    if calls.len() > 0 {
        calls_remember(env, st, calls.drop_last());
        let s = after_calls(env, st, calls.drop_last());
        let t = after_call(env, s, calls.last());
        assert(remembers(s, t)) by {
            match calls.last() {
                Call::Import { src, id, depth } => import_remembers(env, s, src, id, depth),
                Call::Remap { src, object, depth } => remap_remembers(env, s, src, object, depth),
                Call::Form { src, id, depth } => form_remembers(env, s, src, id, depth),
                Call::Resources { src, resources, used, depth } => {
                    resources_remember(env, s, src, resources, used, depth);
                },
                Call::Field { src, id, depth } => field_remembers(env, s, src, id, depth),
                Call::Widget { src, annot, widget, parent } => {
                    widget_remembers(env, s, src, annot, widget, parent);
                },
                Call::Page { src, page_index, page_id } => {
                    if build_page(env, s, src, page_index, page_id) is Ok {
                        page_remembers(env, s, src, page_index, page_id);
                    }
                },
                Call::Outlines { src } => outlines_remember(env, s, src),
                Call::StructTree { src } => tree_remembers(env, s, src),
                Call::AcroForm { src } => acroform_remembers(env, s, src),
            }
        }
        remembers_trans(st, s, t);
    }
}

/// Each source object is copied once: whatever was done since, copying it again gives the same number
/// and changes nothing. The first call takes a number that was not in use, and where the object
/// cannot be loaded its copy is null.
pub proof fn object_copied_once(
    env: Env,
    st: State,
    src: nat,
    id: nat,
    depth: nat,
    calls: Seq<Call>,
    again: nat,
)
    ensures
        ({
            let (s1, n) = import(env, st, src, id, depth);
            let s2 = after_calls(env, s1, calls);
            &&& import(env, s2, src, id, again) == (s2, n)
            &&& !st.ids.contains_key((src, id)) ==> {
                &&& n == next_id(st)
                &&& env.docs[src as int].lookup(id) is None ==> object_at(s1, n) == Some(Obj::Null)
            }
        }),
{
    let (s1, n) = import(env, st, src, id, depth);
    if !st.ids.contains_key((src, id)) {
        let s0 = State { ids: st.ids.insert((src, id), next_id(st)), ..with_slot(st) };
        let o = load_or_null(env.docs[src as int], id);
        remap_remembers(env, s0, src, o, depth + 1);
        assert(s0.ids.contains_key((src, id)));
        assert(s1.ids.contains_key((src, id)));
    }
    calls_remember(env, s1, calls);
    assert(after_calls(env, s1, calls).ids.contains_key((src, id)));
}

/// Each form XObject is copied with trimmed resources once: whatever was done since, copying it again
/// gives the same number and changes nothing. The first call takes a number that was not in use.
pub proof fn form_copied_once(
    env: Env,
    st: State,
    src: nat,
    id: nat,
    depth: nat,
    calls: Seq<Call>,
    again: nat,
)
    ensures
        ({
            let (s1, n) = import_form_trimmed(env, st, src, id, depth);
            let s2 = after_calls(env, s1, calls);
            &&& import_form_trimmed(env, s2, src, id, again) == (s2, n)
            &&& !st.forms.contains_key((src, id)) ==> n == next_id(st)
        }),
{
    form_remembers(env, st, src, id, depth);
    let s1 = import_form_trimmed(env, st, src, id, depth).0;
    calls_remember(env, s1, calls);
    assert(after_calls(env, s1, calls).forms.contains_key((src, id)));
}

/// Each form field is copied once: whatever was done since, copying it again gives the same number and
/// changes nothing. The first call takes a number that was not in use.
pub proof fn field_copied_once(
    env: Env,
    st: State,
    src: nat,
    id: nat,
    depth: nat,
    calls: Seq<Call>,
    again: nat,
)
    ensures
        ({
            let (s1, n) = import_form_field(env, st, src, id, depth);
            let s2 = after_calls(env, s1, calls);
            &&& import_form_field(env, s2, src, id, again) == (s2, n)
            &&& !st.fields.contains_key((src, id)) ==> n == next_id(st)
        }),
{
    field_remembers(env, st, src, id, depth);
    let s1 = import_form_field(env, st, src, id, depth).0;
    calls_remember(env, s1, calls);
    assert(after_calls(env, s1, calls).fields.contains_key((src, id)));
}

proof fn pages_remember(env: Env, st: State, picks: Picks, k: nat)
    requires
        build_pages(env, st, picks, k) is Ok,
    ensures
        remembers(st, build_pages(env, st, picks, k)->Ok_0),
    decreases picks.len() - k,
{
    if k < picks.len() {
        let (src, page) = picks[k as int];
        page_remembers(env, st, src, page, k + 1);
        let s = build_page(env, st, src, page, k + 1)->Ok_0;
        pages_remember(env, s, picks, k + 1);
        remembers_trans(st, s, build_pages(env, s, picks, k + 1)->Ok_0);
    }
}

pub proof fn gather_remembers(env: Env, st: State)
    ensures
        remembers(st, gather(env, st).0),
{
    let (s1, info) = import_info(env, st, 0);
    if let Some(t) = obj_dict(env.docs[0].root()) {
        if let Some(id) = dict_ref(t, "Info"@) {
            import_remembers(env, st, 0, id, 0);
        }
    }
    let s2 = if env.opts.keep_outlines {
        outlines(env, s1, 0).0
    } else {
        s1
    };
    outlines_remember(env, s1, 0);
    let s3 = if env.opts.keep_struct_tree {
        struct_tree(env, s2, 0).0
    } else {
        s2
    };
    tree_remembers(env, s2, 0);
    remembers_trans(st, s2, s3);
    let s4 = if env.opts.keep_acroform {
        acroform(env, s3, 0).0
    } else {
        s3
    };
    acroform_remembers(env, s3, 0);
    remembers_trans(st, s3, s4);
    if let Some(cat) = catalog(env.docs[0]) {
        carry_remembers(env, s4, 0, cat, extra_keys(), 1, Seq::empty());
    }
    remembers_trans(st, s4, gather_extras(env, s4, info).0);
}

/// The report has a warning for each signature that was dropped, and no other.
pub proof fn dropped_signatures_are_warned_of(docs: Seq<PdfDocument>, picks: Picks, opts: SubsetOptions)
    requires
        subset(docs, picks, opts) is Ok,
    ensures
        ({
            let report = subset(docs, picks, opts)->Ok_0.1;
            report.warnings.len() == report.dropped_signatures
        }),
{
    let env = plan(docs, picks, opts);
    let start = planned(picks.len());
    pages_remember(env, start, picks, 0);
    let built = build_pages(env, start, picks, 0)->Ok_0;
    gather_remembers(env, built);
}

} // verus!
