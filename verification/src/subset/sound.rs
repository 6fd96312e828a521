//! What every step of a rebuild keeps: the copies that were made stay right, whatever else is built
//! around them.

use vstd::prelude::*;
use crate::document::{resolve, Content, PdfDocument};
use crate::object::{dict_get, dict_has, dict_insert, dict_is_name, dict_ref, new_ref, obj_dict, Entries, Obj};
use super::acroform::{
    acroform, attach_kids, dict_of, field_keys, form_keys, import_form_field, kids_of, register_widget,
};
use super::copy::{carry, edit, levels, load_or_null, refs, remap, remap_entries};
use super::dests::{catalog, sub_array};
use super::faithful::{
    copied_well, copies_apart, entries_copied, extends, ids_placed, import_copies, is_page, remap_copies, same_copy,
    same_copy_extends, well_copied,
};
use super::finish::{extra_keys, gather, gather_extras, import_info};
use super::outlines::{
    entry_dict, link_siblings, outline_chain, outline_dest, outline_item, outline_items, outline_root, outlines,
    siblings, with_kids, MAX_OUTLINE_DEPTH,
};
use super::pages::{
    annot_of, build_page, count_severed, geometry_keys, is_signature, keep_plain, navigation, navigation_keys,
    page_body, place_annot, process_annot, process_annots, remove_all, signature_keys, signature_warning,
};
use super::rebuild::{build_pages, plan, planned, Picks};
use super::resources::{
    categories, form_entries, form_ref, import_form_trimmed, import_resource, sub_dict, trim_categories,
    trim_entries, trimmed_resources, Category, Used,
};
use super::struct_tree::{
    element_dict, finish_root, k_items, k_value, kept_page, marks_on, parent_nums, struct_elem, struct_kid,
    struct_kids, struct_root, struct_tops, struct_tree, Marks,
};
use super::usage::all_use;
use super::{has_slot, next_id, object_at, put, set_pin, with_slot, Cell, Env, State, SubsetOptions, MAX_DEPTH};

verus! {

/// Is `n` a place that holds no copy?
pub open spec fn foreign(st: State, n: nat) -> bool {
    has_slot(st, n) && forall|k: (nat, nat)| #[trigger] st.ids.contains_key(k) ==> st.ids[k] != n
}

/// Was `b` reached from `a` so that the copies that were there are unchanged, and those that were
/// added are right, apart from each other, and of no page?
pub open spec fn advanced(env: Env, a: State, b: State) -> bool {
    &&& a.slots.len() <= b.slots.len()
    &&& b.page_ids == a.page_ids
    &&& extends(a.ids, b.ids)
    &&& ids_placed(b)
    &&& forall|k: (nat, nat)| #[trigger] a.ids.contains_key(k) ==> b.slots[a.ids[k] - 1] == a.slots[a.ids[k]
        - 1]
    &&& forall|k: (nat, nat)| #[trigger]
        b.ids.contains_key(k) && !a.ids.contains_key(k) ==> well_copied(env, b, k) && b.ids[k]
            > a.slots.len() && !is_page(env, k)
    &&& forall|j: (nat, nat), k: (nat, nat)|
        #![trigger b.ids.contains_key(j), b.ids.contains_key(k)]
        b.ids.contains_key(j) && b.ids.contains_key(k) && !a.ids.contains_key(j) && !a.ids.contains_key(k)
            && j != k ==> b.ids[j] != b.ids[k]
}

/// Are the form fields the same in both states?
pub open spec fn same_fields(a: State, b: State) -> bool {
    b.fields == a.fields && b.links == a.links && b.tops == a.tops
}

/// Are the form fields in places that hold no copies?
pub open spec fn fields_foreign(st: State) -> bool {
    &&& forall|k: (nat, nat)| #[trigger] st.fields.contains_key(k) ==> foreign(st, st.fields[k])
    &&& forall|i: int| 0 <= i < st.links.len() ==> foreign(st, (#[trigger] st.links[i]).0)
}

pub proof fn advanced_refl(env: Env, a: State, b: State)
    requires
        ids_placed(a),
        b.slots == a.slots,
        b.ids == a.ids,
        b.page_ids == a.page_ids,
    ensures
        advanced(env, a, b),
{
}

pub proof fn advanced_trans(env: Env, a: State, b: State, c: State)
    requires
        advanced(env, a, b),
        advanced(env, b, c),
        ids_placed(a),
    ensures
        advanced(env, a, c),
{
    assert forall|k: (nat, nat)| #[trigger] a.ids.contains_key(k) implies c.slots[a.ids[k] - 1]
        == a.slots[a.ids[k] - 1] by {
        assert(b.ids.contains_key(k));
    }
    assert forall|k: (nat, nat)| #[trigger]
        c.ids.contains_key(k) && !a.ids.contains_key(k) implies well_copied(env, c, k) && c.ids[k]
        > a.slots.len() && !is_page(env, k) by {
        if b.ids.contains_key(k) {
            copy_stays(env, b, c, k);
        }
    }
    assert forall|j: (nat, nat), k: (nat, nat)|
        #![trigger c.ids.contains_key(j), c.ids.contains_key(k)]
        c.ids.contains_key(j) && c.ids.contains_key(k) && !a.ids.contains_key(j) && !a.ids.contains_key(k)
            && j != k implies c.ids[j] != c.ids[k] by {
        if b.ids.contains_key(j) {
            assert(has_slot(b, b.ids[j]));
        }
        if b.ids.contains_key(k) {
            assert(has_slot(b, b.ids[k]));
        }
    }
}

/// A copy that is right stays right.
pub proof fn copy_stays(env: Env, a: State, b: State, k: (nat, nat))
    requires
        advanced(env, a, b),
        ids_placed(a),
        a.ids.contains_key(k),
        well_copied(env, a, k),
    ensures
        well_copied(env, b, k),
{
    let o = load_or_null(env.docs[k.0 as int], k.1);
    let c = object_at(a, a.ids[k])->0;
    let depth = choose|depth: nat| #[trigger] same_copy(env, a.ids, k.0, o, c, depth);
    same_copy_extends(env, a.ids, b.ids, k.0, o, c, depth);
    assert(has_slot(a, a.ids[k]));
    assert(object_at(b, b.ids[k]) == object_at(a, a.ids[k]));
}

/// A place that holds no copy never gets one.
pub proof fn foreign_stays(env: Env, a: State, b: State, n: nat)
    requires
        advanced(env, a, b),
        foreign(a, n),
    ensures
        foreign(b, n),
{
    assert forall|k: (nat, nat)| #[trigger] b.ids.contains_key(k) implies b.ids[k] != n by {
        if a.ids.contains_key(k) {
            assert(b.ids[k] == a.ids[k]);
        }
    }
}

pub proof fn fields_stay(env: Env, a: State, b: State)
    requires
        advanced(env, a, b),
        same_fields(a, b),
        fields_foreign(a),
    ensures
        fields_foreign(b),
{
    assert forall|k: (nat, nat)| #[trigger] b.fields.contains_key(k) implies foreign(b, b.fields[k]) by {
        foreign_stays(env, a, b, a.fields[k]);
    }
    assert forall|i: int| 0 <= i < b.links.len() implies foreign(b, (#[trigger] b.links[i]).0) by {
        foreign_stays(env, a, b, a.links[i].0);
    }
}

proof fn slot_advances(env: Env, a: State, b: State)
    requires
        ids_placed(a),
        b.slots == a.slots.push(Cell { object: None, pinned: b.slots.last().pinned }),
        b.ids == a.ids,
        b.page_ids == a.page_ids,
    ensures
        advanced(env, a, b),
        foreign(b, next_id(a)),
{
    assert forall|k: (nat, nat)| #[trigger] b.ids.contains_key(k) implies b.ids[k] != next_id(a) by {
        assert(has_slot(a, a.ids[k]));
    }
}

proof fn write_advances(env: Env, a: State, b: State, n: nat)
    requires
        ids_placed(a),
        foreign(a, n),
        b.slots == a.slots.update(n - 1, b.slots[n - 1]),
        b.ids == a.ids,
        b.page_ids == a.page_ids,
    ensures
        advanced(env, a, b),
{
    assert forall|k: (nat, nat)| #[trigger] a.ids.contains_key(k) implies b.slots[a.ids[k] - 1]
        == a.slots[a.ids[k] - 1] by {
        assert(has_slot(a, a.ids[k]));
    }
}

proof fn put_advances(env: Env, a: State, n: nat, o: Obj)
    requires
        ids_placed(a),
        foreign(a, n),
    ensures
        advanced(env, a, put(a, n, o)),
        same_fields(a, put(a, n, o)),
{
    write_advances(env, a, put(a, n, o), n);
}

proof fn pin_advances(env: Env, a: State, n: nat, pinned: bool)
    requires
        ids_placed(a),
        foreign(a, n),
    ensures
        advanced(env, a, set_pin(a, n, pinned)),
        same_fields(a, set_pin(a, n, pinned)),
{
    write_advances(env, a, set_pin(a, n, pinned), n);
}

proof fn edit_advances(env: Env, a: State, n: nat, key: Seq<char>, value: Obj)
    requires
        ids_placed(a),
        foreign(a, n),
    ensures
        advanced(env, a, edit(a, n, key, value)),
        same_fields(a, edit(a, n, key, value)),
{
    match object_at(a, n) {
        Some(Obj::Dictionary(d)) => {
            put_advances(env, a, n, Obj::Dictionary(dict_insert(d, key, value)));
        },
        _ => {
            advanced_refl(env, a, a);
        },
    }
}

proof fn copying_advances(env: Env, a: State, b: State)
    requires
        ids_placed(a),
        copied_well(env, a, b),
    ensures
        advanced(env, a, b),
        same_fields(a, b),
{
    assert forall|k: (nat, nat)| #[trigger] a.ids.contains_key(k) implies b.slots[a.ids[k] - 1]
        == a.slots[a.ids[k] - 1] by {
        assert(has_slot(a, a.ids[k]));
    }
}

pub proof fn remap_advances(env: Env, st: State, src: nat, o: Obj, depth: nat)
    requires
        ids_placed(st),
    ensures
        advanced(env, st, remap(env, st, src, o, depth).0),
        same_fields(st, remap(env, st, src, o, depth).0),
{
    remap_copies(env, st, src, o, depth);
    copying_advances(env, st, remap(env, st, src, o, depth).0);
}

pub proof fn carry_advances(
    env: Env,
    st: State,
    src: nat,
    from: Entries,
    keys: Seq<Seq<char>>,
    depth: nat,
    into: Entries,
)
    requires
        ids_placed(st),
    ensures
        advanced(env, st, carry(env, st, src, from, keys, depth, into).0),
        same_fields(st, carry(env, st, src, from, keys, depth, into).0),
    decreases keys.len(),
{
    if keys.len() == 0 {
        advanced_refl(env, st, st);
    } else {
        carry_advances(env, st, src, from, keys.drop_last(), depth, into);
        let s1 = carry(env, st, src, from, keys.drop_last(), depth, into).0;
        if let Some(v) = dict_get(from, keys.last()) {
            remap_advances(env, s1, src, v, depth);
            advanced_trans(env, st, s1, remap(env, s1, src, v, depth).0);
        }
    }
}

pub proof fn resource_advances(env: Env, st: State, src: nat, v: Obj, category: Category, depth: nat)
    requires
        ids_placed(st),
    ensures
        advanced(env, st, import_resource(env, st, src, v, category, depth).0),
        same_fields(st, import_resource(env, st, src, v, category, depth).0),
    decreases levels(depth), 1nat, 0nat,
{
    if category == Category::XObject && env.opts.trim_forms && depth < MAX_DEPTH && form_ref(
        env.docs[src as int],
        v,
    ) is Some {
        form_advances(env, st, src, form_ref(env.docs[src as int], v)->0, depth + 1);
    } else {
        remap_advances(env, st, src, v, depth + 1);
    }
}

pub proof fn trim_entries_advances(
    env: Env,
    st: State,
    src: nat,
    sub: Entries,
    used: Used,
    category: Category,
    depth: nat,
)
    requires
        ids_placed(st),
    ensures
        advanced(env, st, trim_entries(env, st, src, sub, used, category, depth).0),
        same_fields(st, trim_entries(env, st, src, sub, used, category, depth).0),
    decreases levels(depth), 2nat, sub.len(),
{
    if sub.len() == 0 {
        advanced_refl(env, st, st);
    } else {
        trim_entries_advances(env, st, src, sub.drop_last(), used, category, depth);
        let s1 = trim_entries(env, st, src, sub.drop_last(), used, category, depth).0;
        if used.contains((category, sub.last().0)) {
            resource_advances(env, s1, src, sub.last().1, category, depth);
            advanced_trans(env, st, s1, import_resource(env, s1, src, sub.last().1, category, depth).0);
        }
    }
}

pub proof fn trim_categories_advances(
    env: Env,
    st: State,
    src: nat,
    res: Entries,
    used: Used,
    depth: nat,
    n: nat,
)
    requires
        ids_placed(st),
    ensures
        advanced(env, st, trim_categories(env, st, src, res, used, depth, n).0),
        same_fields(st, trim_categories(env, st, src, res, used, depth, n).0),
    decreases levels(depth), 3nat, n,
{
    if n == 0 {
        advanced_refl(env, st, st);
    } else {
        trim_categories_advances(env, st, src, res, used, depth, (n - 1) as nat);
        let s1 = trim_categories(env, st, src, res, used, depth, (n - 1) as nat).0;
        let category = categories()[n - 1];
        if let Some(sub) = sub_dict(env.docs[src as int], res, category.spec_key()) {
            trim_entries_advances(env, s1, src, sub, used, category, depth);
            advanced_trans(env, st, s1, trim_entries(env, s1, src, sub, used, category, depth).0);
        }
    }
}

pub proof fn resources_advance(env: Env, st: State, src: nat, res: Obj, used: Used, depth: nat)
    requires
        ids_placed(st),
    ensures
        advanced(env, st, trimmed_resources(env, st, src, res, used, depth).0),
        same_fields(st, trimmed_resources(env, st, src, res, used, depth).0),
    decreases levels(depth), 4nat, 0nat,
{
    match obj_dict(res) {
        None => {
            advanced_refl(env, st, st);
        },
        Some(d) => {
            trim_categories_advances(env, st, src, d, used, depth, categories().len());
        },
    }
}

proof fn form_entries_advances(env: Env, st: State, src: nat, d: Entries, depth: nat)
    requires
        ids_placed(st),
    ensures
        advanced(env, st, form_entries(env, st, src, d, depth).0),
        same_fields(st, form_entries(env, st, src, d, depth).0),
    decreases d.len(),
{
    if d.len() == 0 {
        advanced_refl(env, st, st);
    } else {
        form_entries_advances(env, st, src, d.drop_last(), depth);
        let s1 = form_entries(env, st, src, d.drop_last(), depth).0;
        if d.last().0 != "Resources"@ {
            remap_advances(env, s1, src, d.last().1, depth);
            advanced_trans(env, st, s1, remap(env, s1, src, d.last().1, depth).0);
        }
    }
}

proof fn form_advances(env: Env, st: State, src: nat, id: nat, depth: nat)
    requires
        ids_placed(st),
    ensures
        advanced(env, st, import_form_trimmed(env, st, src, id, depth).0),
        same_fields(st, import_form_trimmed(env, st, src, id, depth).0),
    decreases levels(depth), 5nat, 0nat,
{
    if st.forms.contains_key((src, id)) {
        advanced_refl(env, st, st);
    } else {
        let doc = env.docs[src as int];
        let n = next_id(st);
        let s1 = State { forms: st.forms.insert((src, id), n), ..with_slot(st) };
        slot_advances(env, st, s1);
        match load_or_null(doc, id) {
            Obj::Stream(d, data) => {
                form_entries_advances(env, s1, src, d, depth + 1);
                let (s2, nd) = form_entries(env, s1, src, d, depth + 1);
                advanced_trans(env, st, s1, s2);
                foreign_stays(env, s1, s2, n);
                let trimmed = match dict_get(d, "Resources"@) {
                    Some(r) => resolve(doc, r),
                    None => None,
                };
                match trimmed {
                    Some(res) => {
                        let used = all_use(doc, res, doc.content_of(id));
                        resources_advance(env, s2, src, res, used, depth + 1);
                        let (s3, t) = trimmed_resources(env, s2, src, res, used, depth + 1);
                        advanced_trans(env, st, s2, s3);
                        foreign_stays(env, s2, s3, n);
                        let o = Obj::Stream(dict_insert(nd, "Resources"@, t), data);
                        put_advances(env, s3, n, o);
                        advanced_trans(env, st, s3, put(s3, n, o));
                    },
                    None => {
                        put_advances(env, s2, n, Obj::Stream(nd, data));
                        advanced_trans(env, st, s2, put(s2, n, Obj::Stream(nd, data)));
                    },
                }
            },
            o => {
                remap_advances(env, s1, src, o, depth + 1);
                let (s2, r) = remap(env, s1, src, o, depth + 1);
                advanced_trans(env, st, s1, s2);
                foreign_stays(env, s1, s2, n);
                put_advances(env, s2, n, r);
                advanced_trans(env, st, s2, put(s2, n, r));
            },
        }
    }
}

proof fn field_advances(env: Env, st: State, src: nat, id: nat, depth: nat)
    requires
        ids_placed(st),
        fields_foreign(st),
    ensures
        advanced(env, st, import_form_field(env, st, src, id, depth).0),
        fields_foreign(import_form_field(env, st, src, id, depth).0),
        foreign(
            import_form_field(env, st, src, id, depth).0,
            import_form_field(env, st, src, id, depth).1,
        ),
    decreases levels(depth),
{
    if st.fields.contains_key((src, id)) {
        advanced_refl(env, st, st);
    } else {
        let n = next_id(st);
        let s1 = State { fields: st.fields.insert((src, id), n), ..set_pin(with_slot(st), n, true) };
        assert(s1.slots =~= st.slots.push(Cell { object: None, pinned: true }));
        slot_advances(env, st, s1);
        assert forall|k: (nat, nat)| #[trigger] s1.fields.contains_key(k) implies foreign(s1, s1.fields[k]) by {
            if k != (src, id) {
                foreign_stays(env, st, s1, st.fields[k]);
            }
        }
        assert forall|i: int| 0 <= i < s1.links.len() implies foreign(s1, (#[trigger] s1.links[i]).0) by {
            foreign_stays(env, st, s1, st.links[i].0);
        }
        let fd = dict_of(env.docs[src as int], id);
        carry_advances(env, s1, src, fd, field_keys(), depth + 1, Seq::empty());
        let (s2, nd) = carry(env, s1, src, fd, field_keys(), depth + 1, Seq::empty());
        advanced_trans(env, st, s1, s2);
        fields_stay(env, s1, s2);
        foreign_stays(env, s1, s2, n);
        if dict_ref(fd, "Parent"@) is Some && depth < MAX_DEPTH {
            let p = dict_ref(fd, "Parent"@)->0;
            field_advances(env, s2, src, p, depth + 1);
            let (s3, pf) = import_form_field(env, s2, src, p, depth + 1);
            advanced_trans(env, st, s2, s3);
            foreign_stays(env, s2, s3, n);
            let s4 = State { links: s3.links.push((pf, n)), ..s3 };
            let o = Obj::Dictionary(dict_insert(nd, "Parent"@, new_ref(pf)));
            assert(fields_foreign(s4));
            advanced_refl(env, s3, s4);
            put_advances(env, s4, n, o);
            advanced_trans(env, s3, s4, put(s4, n, o));
            advanced_trans(env, st, s3, put(s4, n, o));
            fields_stay(env, s4, put(s4, n, o));
            foreign_stays(env, s4, put(s4, n, o), n);
        } else {
            let s3 = State { tops: s2.tops.push(n), ..s2 };
            let o = Obj::Dictionary(nd);
            assert(fields_foreign(s3));
            advanced_refl(env, s2, s3);
            put_advances(env, s3, n, o);
            advanced_trans(env, s2, s3, put(s3, n, o));
            advanced_trans(env, st, s2, put(s3, n, o));
            fields_stay(env, s3, put(s3, n, o));
            foreign_stays(env, s3, put(s3, n, o), n);
        }
    }
}

proof fn widget_advances(
    env: Env,
    st: State,
    src: nat,
    annot: Entries,
    widget: nat,
    parent: Option<nat>,
)
    requires
        ids_placed(st),
        fields_foreign(st),
    ensures
        advanced(env, st, register_widget(env, st, src, annot, widget, parent).0),
        fields_foreign(register_widget(env, st, src, annot, widget, parent).0),
{
    match parent {
        Some(p) => {
            field_advances(env, st, src, p, 0);
            let (s1, f) = import_form_field(env, st, src, p, 0);
            let s2 = State { links: s1.links.push((f, widget)), ..s1 };
            advanced_refl(env, s1, s2);
            advanced_trans(env, st, s1, s2);
        },
        None => {
            advanced_refl(env, st, register_widget(env, st, src, annot, widget, parent).0);
        },
    }
}

proof fn kids_foreign(st: State, f: nat)
    requires
        fields_foreign(st),
        kids_of(st.links, f).len() > 0,
    ensures
        foreign(st, f),
{
    kid_has_link(st.links, f);
    let i = choose|i: int| 0 <= i < st.links.len() && (#[trigger] st.links[i]).0 == f;
    assert(foreign(st, st.links[i].0));
}

proof fn kid_has_link(links: Seq<(nat, nat)>, f: nat)
    requires
        kids_of(links, f).len() > 0,
    ensures
        exists|i: int| 0 <= i < links.len() && (#[trigger] links[i]).0 == f,
    decreases links.len(),
{
    if links.last().0 == f {
        assert(links[links.len() - 1].0 == f);
    } else {
        kid_has_link(links.drop_last(), f);
        let i = choose|i: int| 0 <= i < links.drop_last().len() && (#[trigger] links.drop_last()[i]).0 == f;
        assert(links[i].0 == f);
    }
}

proof fn kids_advance(env: Env, st: State, n: nat)
    requires
        ids_placed(st),
        fields_foreign(st),
    ensures
        advanced(env, st, attach_kids(st, n)),
        same_fields(st, attach_kids(st, n)),
    decreases n,
{
    if n == 0 {
        advanced_refl(env, st, st);
    } else {
        kids_advance(env, st, (n - 1) as nat);
        let s = attach_kids(st, (n - 1) as nat);
        let kids = kids_of(st.links, n);
        if kids.len() > 0 {
            kids_foreign(st, n);
            foreign_stays(env, st, s, n);
            edit_advances(env, s, n, "Kids"@, Obj::Array(refs(kids)));
            advanced_trans(env, st, s, attach_kids(st, n));
        }
    }
}

proof fn pinned_slot_advances(env: Env, st: State)
    requires
        ids_placed(st),
    ensures
        advanced(env, st, set_pin(with_slot(st), next_id(st), true)),
        same_fields(st, set_pin(with_slot(st), next_id(st), true)),
        foreign(set_pin(with_slot(st), next_id(st), true), next_id(st)),
{
    let s1 = set_pin(with_slot(st), next_id(st), true);
    assert(s1.slots =~= st.slots.push(Cell { object: None, pinned: true }));
    slot_advances(env, st, s1);
}

proof fn pinned_put_advances(env: Env, st: State, o: Obj)
    requires
        ids_placed(st),
    ensures
        advanced(env, st, put(set_pin(with_slot(st), next_id(st), true), next_id(st), o)),
        same_fields(st, put(set_pin(with_slot(st), next_id(st), true), next_id(st), o)),
{
    pinned_slot_advances(env, st);
    let s1 = set_pin(with_slot(st), next_id(st), true);
    put_advances(env, s1, next_id(st), o);
    advanced_trans(env, st, s1, put(s1, next_id(st), o));
}

proof fn acroform_advances(env: Env, st: State, src: nat)
    requires
        ids_placed(st),
        fields_foreign(st),
    ensures
        advanced(env, st, acroform(env, st, src).0),
        acroform(env, st, src).0.fields == st.fields,
{
    if st.tops.len() == 0 {
        advanced_refl(env, st, st);
    } else {
        kids_advance(env, st, st.slots.len());
        let s1 = attach_kids(st, st.slots.len());
        let af = dict_insert(Seq::empty(), "Fields"@, Obj::Array(refs(st.tops)));
        let (s2, af2) = match catalog(env.docs[src as int]) {
            Some(cat) => match sub_dict(env.docs[src as int], cat, "AcroForm"@) {
                Some(src_af) => carry(env, s1, src, src_af, form_keys(), 1, af),
                None => (s1, af),
            },
            None => (s1, af),
        };
        if let Some(cat) = catalog(env.docs[src as int]) {
            if let Some(src_af) = sub_dict(env.docs[src as int], cat, "AcroForm"@) {
                carry_advances(env, s1, src, src_af, form_keys(), 1, af);
            } else {
                advanced_refl(env, s1, s2);
            }
        } else {
            advanced_refl(env, s1, s2);
        }
        advanced_trans(env, st, s1, s2);
        pinned_put_advances(env, s2, Obj::Dictionary(af2));
        advanced_trans(env, st, s2, acroform(env, st, src).0);
    }
}

proof fn annot_advances(
    env: Env,
    st: State,
    src: nat,
    annot: Entries,
    nav: Option<(Seq<char>, Obj)>,
    page_id: nat,
)
    requires
        ids_placed(st),
    ensures
        advanced(env, st, place_annot(env, st, src, annot, nav, page_id).0),
        same_fields(st, place_annot(env, st, src, annot, nav, page_id).0),
        foreign(
            place_annot(env, st, src, annot, nav, page_id).0,
            place_annot(env, st, src, annot, nav, page_id).1,
        ),
{
    entries_copied(env, st, src, annot, 1);
    let (s1, d) = remap_entries(env, st, src, annot, 1);
    copying_advances(env, st, s1);
    let n = next_id(s1);
    let s2 = with_slot(s1);
    slot_advances(env, s1, s2);
    advanced_trans(env, st, s1, s2);
    let s3 = place_annot(env, st, src, annot, nav, page_id).0;
    write_advances(env, s2, s3, n);
    advanced_trans(env, st, s2, s3);
    foreign_stays(env, s2, s3, n);
}

proof fn plain_advances(
    env: Env,
    st: State,
    src: nat,
    annot: Entries,
    parent: Option<nat>,
    nav: Option<(Seq<char>, Obj)>,
    page_id: nat,
)
    requires
        ids_placed(st),
        fields_foreign(st),
    ensures
        advanced(env, st, keep_plain(env, st, src, annot, parent, nav, page_id).0),
        fields_foreign(keep_plain(env, st, src, annot, parent, nav, page_id).0),
{
    annot_advances(env, st, src, annot, nav, page_id);
    let (s1, aid) = place_annot(env, st, src, annot, nav, page_id);
    fields_stay(env, st, s1);
    if env.opts.keep_acroform && (dict_has(annot, "FT"@) || parent is Some) {
        let s2 = set_pin(s1, aid, true);
        pin_advances(env, s1, aid, true);
        advanced_trans(env, st, s1, s2);
        fields_stay(env, s1, s2);
        foreign_stays(env, s1, s2, aid);
        widget_advances(env, s2, src, annot, aid, parent);
        let (s3, field) = register_widget(env, s2, src, annot, aid, parent);
        advanced_trans(env, st, s2, s3);
        foreign_stays(env, s2, s3, aid);
        if let Some(f) = field {
            edit_advances(env, s3, aid, "Parent"@, new_ref(f));
            let s4 = edit(s3, aid, "Parent"@, new_ref(f));
            advanced_trans(env, st, s3, s4);
            fields_stay(env, s3, s4);
        }
    }
}

proof fn process_advances(env: Env, st: State, src: nat, entry: Obj, page_id: nat, page_index: nat)
    requires
        ids_placed(st),
        fields_foreign(st),
        process_annot(env, st, src, entry, page_id, page_index) is Ok,
    ensures
        ({
            let s = process_annot(env, st, src, entry, page_id, page_index)->Ok_0.0;
            advanced(env, st, s) && fields_foreign(s)
        }),
{
    match annot_of(env.docs[src as int], entry) {
        None => {
            advanced_refl(env, st, st);
        },
        Some(annot) => {
            let nav = navigation(env, src, annot);
            let bare = remove_all(annot, navigation_keys());
            let s1 = count_severed(st, annot, nav);
            advanced_refl(env, st, s1);
            fields_stay(env, st, s1);
            if !is_signature(env.docs[src as int], bare, dict_ref(annot, "Parent"@)) {
                let parent = dict_ref(annot, "Parent"@);
                plain_advances(env, s1, src, bare, parent, nav, page_id);
                advanced_trans(env, st, s1, keep_plain(env, s1, src, bare, parent, nav, page_id).0);
            } else {
                let s2 = State {
                    dropped_signatures: s1.dropped_signatures + 1,
                    warnings: s1.warnings.push(signature_warning(page_index)),
                    ..s1
                };
                advanced_refl(env, s1, s2);
                advanced_trans(env, st, s1, s2);
                fields_stay(env, s1, s2);
                let rest = remove_all(bare, signature_keys());
                annot_advances(env, s2, src, rest, nav, page_id);
                let s3 = place_annot(env, s2, src, rest, nav, page_id).0;
                advanced_trans(env, st, s2, s3);
                fields_stay(env, s2, s3);
            }
        },
    }
}

pub proof fn annots_advance(
    env: Env,
    st: State,
    src: nat,
    entries: Seq<Obj>,
    page_id: nat,
    page_index: nat,
    kept: Seq<Obj>,
)
    requires
        ids_placed(st),
        fields_foreign(st),
        process_annots(env, st, src, entries, page_id, page_index, kept) is Ok,
    ensures
        ({
            let s = process_annots(env, st, src, entries, page_id, page_index, kept)->Ok_0.0;
            advanced(env, st, s) && fields_foreign(s)
        }),
    decreases entries.len(),
{
    if entries.len() == 0 {
        advanced_refl(env, st, st);
    } else {
        process_advances(env, st, src, entries[0], page_id, page_index);
        let (s1, o) = process_annot(env, st, src, entries[0], page_id, page_index)->Ok_0;
        let more = match o {
            Some(r) => kept.push(r),
            None => kept,
        };
        annots_advance(env, s1, src, entries.skip(1), page_id, page_index, more);
        advanced_trans(
            env,
            st,
            s1,
            process_annots(env, s1, src, entries.skip(1), page_id, page_index, more)->Ok_0.0,
        );
    }
}

pub proof fn body_advances(env: Env, st: State, src: nat, page: Entries, content: Content)
    requires
        ids_placed(st),
    ensures
        advanced(env, st, page_body(env, st, src, page, content).0),
        same_fields(st, page_body(env, st, src, page, content).0),
{
    let d0 = dict_insert(Seq::empty(), "Type"@, Obj::Name("Page"@));
    carry_advances(env, st, src, page, geometry_keys(), 1, d0);
    let (s1, d1) = carry(env, st, src, page, geometry_keys(), 1, d0);
    let trimmed = match dict_get(page, "Resources"@) {
        Some(r) => resolve(env.docs[src as int], r),
        None => None,
    };
    let (s2, d2) = match trimmed {
        Some(res) => {
            let used = all_use(env.docs[src as int], res, content);
            let (s, t) = trimmed_resources(env, s1, src, res, used, 0);
            (s, dict_insert(d1, "Resources"@, t))
        },
        None => (s1, d1),
    };
    match trimmed {
        Some(res) => {
            resources_advance(env, s1, src, res, all_use(env.docs[src as int], res, content), 0);
        },
        None => {
            advanced_refl(env, s1, s2);
        },
    }
    advanced_trans(env, st, s1, s2);
    carry_advances(env, s2, src, page, seq!["Contents"@], 1, d2);
    advanced_trans(env, st, s2, page_body(env, st, src, page, content).0);
}

/// Building a page adds right copies and leaves those that were there alone.
pub proof fn page_advances(env: Env, st: State, src: nat, page_index: nat, page_id: nat)
    requires
        ids_placed(st),
        fields_foreign(st),
        foreign(st, page_id),
        build_page(env, st, src, page_index, page_id) is Ok,
    ensures
        ({
            let s = build_page(env, st, src, page_index, page_id)->Ok_0;
            &&& advanced(env, st, State { page_ids: st.page_ids, ..s })
            &&& fields_foreign(s)
            &&& s.page_ids == st.page_ids.push(page_id)
        }),
{
    let doc = env.docs[src as int];
    let page = doc.page_seq()[page_index as int];
    let d = obj_dict(page.object@)->0;
    let content = page.content;
    body_advances(env, st, src, d, content);
    let (s1, d1) = page_body(env, st, src, d, content);
    fields_stay(env, st, s1);
    let annots = match sub_array(doc, d, "Annots"@) {
        Some(entries) => process_annots(env, s1, src, entries, page_id, page_index, Seq::empty()),
        None => Ok((s1, Seq::empty())),
    };
    let (s2, kept) = annots->Ok_0;
    match sub_array(doc, d, "Annots"@) {
        Some(entries) => {
            annots_advance(env, s1, src, entries, page_id, page_index, Seq::empty());
        },
        None => {
            advanced_refl(env, s1, s2);
        },
    }
    advanced_trans(env, st, s1, s2);
    foreign_stays(env, st, s2, page_id);
    let d2 = if kept.len() > 0 {
        dict_insert(d1, "Annots"@, Obj::Array(kept))
    } else {
        d1
    };
    let s3 = put(s2, page_id, Obj::Dictionary(d2));
    put_advances(env, s2, page_id, Obj::Dictionary(d2));
    advanced_trans(env, st, s2, s3);
    fields_stay(env, s2, s3);
}

/// Are all numbers those of places without copies?
pub open spec fn all_foreign(st: State, ids: Seq<nat>) -> bool {
    forall|i: int| 0 <= i < ids.len() ==> foreign(st, #[trigger] ids[i])
}

proof fn all_foreign_stays(env: Env, a: State, b: State, ids: Seq<nat>)
    requires
        advanced(env, a, b),
        all_foreign(a, ids),
    ensures
        all_foreign(b, ids),
{
    assert forall|i: int| 0 <= i < ids.len() implies foreign(b, #[trigger] ids[i]) by {
        foreign_stays(env, a, b, ids[i]);
    }
}

proof fn item_advances(env: Env, st: State, src: nat, item: Entries, parent: nat, depth: nat)
    requires
        ids_placed(st),
        depth <= MAX_OUTLINE_DEPTH,
    ensures
        ({
            let (s, id) = outline_item(env, st, src, item, parent, depth);
            &&& advanced(env, st, s)
            &&& same_fields(st, s)
            &&& id is Some ==> foreign(s, id->0)
        }),
    decreases MAX_OUTLINE_DEPTH + 1 - depth, 1nat, 0nat,
{
    let n = next_id(st);
    pinned_slot_advances(env, st);
    let s1 = set_pin(with_slot(st), n, true);
    let first = dict_ref(item, "First"@);
    chain_advances(env, s1, src, first, n, depth + 1);
    let (s2, kids) = outline_chain(env, s1, src, first, n, depth + 1);
    advanced_trans(env, st, s1, s2);
    foreign_stays(env, s1, s2, n);
    let dest = outline_dest(env, src, item);
    if dest is None && kids.len() == 0 {
        pin_advances(env, s2, n, false);
        advanced_trans(env, st, s2, set_pin(s2, n, false));
    } else {
        let o = Obj::Dictionary(entry_dict(env.docs[src as int], item, parent, dest, kids));
        let s3 = put(s2, n, o);
        put_advances(env, s2, n, o);
        advanced_trans(env, st, s2, s3);
        foreign_stays(env, s2, s3, n);
        let s4 = State { outline_entries: s3.outline_entries + 1, ..s3 };
        advanced_refl(env, s3, s4);
        advanced_trans(env, st, s3, s4);
        foreign_stays(env, s3, s4, n);
    }
}

proof fn items_advance(
    env: Env,
    st: State,
    src: nat,
    items: Seq<Entries>,
    parent: nat,
    depth: nat,
)
    requires
        ids_placed(st),
        depth <= MAX_OUTLINE_DEPTH,
    ensures
        ({
            let (s, ids) = outline_items(env, st, src, items, parent, depth);
            &&& advanced(env, st, s)
            &&& same_fields(st, s)
            &&& all_foreign(s, ids)
        }),
    decreases MAX_OUTLINE_DEPTH + 1 - depth, 2nat, items.len(),
{
    if items.len() == 0 {
        advanced_refl(env, st, st);
    } else {
        items_advance(env, st, src, items.drop_last(), parent, depth);
        let (s1, ids) = outline_items(env, st, src, items.drop_last(), parent, depth);
        item_advances(env, s1, src, items.last(), parent, depth);
        let (s2, id) = outline_item(env, s1, src, items.last(), parent, depth);
        advanced_trans(env, st, s1, s2);
        all_foreign_stays(env, s1, s2, ids);
    }
}

proof fn siblings_advance(env: Env, st: State, ids: Seq<nat>, k: nat)
    requires
        ids_placed(st),
        all_foreign(st, ids),
        k <= ids.len(),
    ensures
        advanced(env, st, link_siblings(st, ids, k)),
        same_fields(st, link_siblings(st, ids, k)),
    decreases k,
{
    if k == 0 {
        advanced_refl(env, st, st);
    } else {
        let i = k - 1;
        siblings_advance(env, st, ids, (k - 1) as nat);
        let s = link_siblings(st, ids, (k - 1) as nat);
        assert(foreign(st, ids[i]));
        foreign_stays(env, st, s, ids[i]);
        let s1 = if i > 0 {
            edit(s, ids[i], "Prev"@, new_ref(ids[i - 1]))
        } else {
            s
        };
        if i > 0 {
            edit_advances(env, s, ids[i], "Prev"@, new_ref(ids[i - 1]));
        } else {
            advanced_refl(env, s, s1);
        }
        advanced_trans(env, st, s, s1);
        foreign_stays(env, s, s1, ids[i]);
        if k < ids.len() {
            edit_advances(env, s1, ids[i], "Next"@, new_ref(ids[i + 1]));
            advanced_trans(env, st, s1, link_siblings(st, ids, k));
        }
    }
}

proof fn chain_advances(
    env: Env,
    st: State,
    src: nat,
    first: Option<nat>,
    parent: nat,
    depth: nat,
)
    requires
        ids_placed(st),
    ensures
        advanced(env, st, outline_chain(env, st, src, first, parent, depth).0),
        same_fields(st, outline_chain(env, st, src, first, parent, depth).0),
    decreases MAX_OUTLINE_DEPTH + 1 - depth, 3nat, 0nat,
{
    if depth > MAX_OUTLINE_DEPTH {
        advanced_refl(env, st, st);
    } else {
        let items = siblings(env.docs[src as int], first, Set::empty());
        items_advance(env, st, src, items, parent, depth);
        let (s1, ids) = outline_items(env, st, src, items, parent, depth);
        siblings_advance(env, s1, ids, ids.len());
        advanced_trans(env, st, s1, link_siblings(s1, ids, ids.len()));
    }
}

proof fn outlines_advance(env: Env, st: State, src: nat)
    requires
        ids_placed(st),
    ensures
        advanced(env, st, outlines(env, st, src).0),
        same_fields(st, outlines(env, st, src).0),
{
    match outline_root(env.docs[src as int]) {
        None => {
            advanced_refl(env, st, st);
        },
        Some(root) => {
            let n = next_id(st);
            pinned_slot_advances(env, st);
            let s1 = set_pin(with_slot(st), n, true);
            let first = dict_ref(root, "First"@);
            chain_advances(env, s1, src, first, n, 0);
            let (s2, kids) = outline_chain(env, s1, src, first, n, 0);
            advanced_trans(env, st, s1, s2);
            foreign_stays(env, s1, s2, n);
            if kids.len() == 0 {
                pin_advances(env, s2, n, false);
                advanced_trans(env, st, s2, set_pin(s2, n, false));
            } else {
                let d = dict_insert(Seq::empty(), "Type"@, Obj::Name("Outlines"@));
                let o = Obj::Dictionary(with_kids(d, kids));
                put_advances(env, s2, n, o);
                advanced_trans(env, st, s2, put(s2, n, o));
            }
        },
    }
}

proof fn elem_advances(
    env: Env,
    st: State,
    marks: Marks,
    src: nat,
    item: Obj,
    parent: nat,
    depth: nat,
)
    requires
        ids_placed(st),
    ensures
        advanced(env, st, struct_elem(env, st, marks, src, item, parent, depth).0),
        same_fields(st, struct_elem(env, st, marks, src, item, parent, depth).0),
    decreases MAX_DEPTH + 2 - depth, 0nat, 0nat,
{
    if depth > MAX_DEPTH || annot_of(env.docs[src as int], item) is None {
        advanced_refl(env, st, st);
    } else {
        let ed = annot_of(env.docs[src as int], item)->0;
        let n = next_id(st);
        let page = kept_page(env, src, ed);
        let items = match dict_get(ed, "K"@) {
            Some(k) => k_items(env.docs[src as int], k),
            None => Seq::empty(),
        };
        slot_advances(env, st, with_slot(st));
        elem_kids_advance(env, with_slot(st), marks, src, items, page, n, depth);
        let (s1, m1, kids) = struct_kids(env, with_slot(st), marks, src, items, page, n, depth);
        advanced_trans(env, st, with_slot(st), s1);
        foreign_stays(env, with_slot(st), s1, n);
        if kids.len() > 0 {
            let s2 = set_pin(s1, n, true);
            pin_advances(env, s1, n, true);
            advanced_trans(env, st, s1, s2);
            foreign_stays(env, s1, s2, n);
            let o = Obj::Dictionary(element_dict(env.docs[src as int], ed, parent, page, kids));
            let s3 = put(s2, n, o);
            put_advances(env, s2, n, o);
            advanced_trans(env, st, s2, s3);
            let s4 = State { struct_elements: s3.struct_elements + 1, ..s3 };
            advanced_refl(env, s3, s4);
            advanced_trans(env, st, s3, s4);
        }
    }
}

proof fn elem_kids_advance(
    env: Env,
    st: State,
    marks: Marks,
    src: nat,
    items: Seq<Obj>,
    page: Option<nat>,
    n: nat,
    depth: nat,
)
    requires
        ids_placed(st),
        depth <= MAX_DEPTH,
    ensures
        advanced(env, st, struct_kids(env, st, marks, src, items, page, n, depth).0),
        same_fields(st, struct_kids(env, st, marks, src, items, page, n, depth).0),
    decreases MAX_DEPTH + 1 - depth, 2nat, items.len(),
{
    if items.len() == 0 {
        advanced_refl(env, st, st);
    } else {
        elem_kids_advance(env, st, marks, src, items.drop_last(), page, n, depth);
        let (s1, m1, kids) = struct_kids(env, st, marks, src, items.drop_last(), page, n, depth);
        let item = items.last();
        let (s2, m2, kid) = struct_kid(env, s1, m1, src, item, page, n, depth);
        if item is Integer || (item is Dictionary && (dict_is_name(item->Dictionary_0, "Type"@, "MCR"@)
            || dict_is_name(item->Dictionary_0, "Type"@, "OBJR"@))) {
            advanced_refl(env, s1, s2);
        } else {
            elem_advances(env, s1, m1, src, item, n, depth + 1);
        }
        advanced_trans(env, st, s1, s2);
    }
}

proof fn tops_advance(env: Env, st: State, src: nat, items: Seq<Obj>, root: nat)
    requires
        ids_placed(st),
    ensures
        advanced(env, st, struct_tops(env, st, src, items, root).0),
        same_fields(st, struct_tops(env, st, src, items, root).0),
    decreases items.len(),
{
    if items.len() == 0 {
        advanced_refl(env, st, st);
    } else {
        tops_advance(env, st, src, items.drop_last(), root);
        let (s1, m1, ids) = struct_tops(env, st, src, items.drop_last(), root);
        elem_advances(env, s1, m1, src, items.last(), root, 0);
        advanced_trans(env, st, s1, struct_elem(env, s1, m1, src, items.last(), root, 0).0);
    }
}

proof fn nums_advance(env: Env, st: State, marks: Marks, pages: Seq<nat>, k: nat)
    requires
        ids_placed(st),
        all_foreign(st, pages),
        k <= pages.len(),
    ensures
        advanced(env, st, parent_nums(st, marks, pages, k).0),
        same_fields(st, parent_nums(st, marks, pages, k).0),
    decreases k,
{
    if k == 0 {
        advanced_refl(env, st, st);
    } else {
        nums_advance(env, st, marks, pages, (k - 1) as nat);
        let (s1, nums) = parent_nums(st, marks, pages, (k - 1) as nat);
        let page = pages[k - 1];
        assert(foreign(st, page));
        if marks_on(marks, page).len() > 0 {
            foreign_stays(env, st, s1, page);
            edit_advances(env, s1, page, "StructParents"@, Obj::Integer((nums.len() / 2) as i64));
            advanced_trans(env, st, s1, parent_nums(st, marks, pages, k).0);
        }
    }
}

proof fn root_advances(
    env: Env,
    st: State,
    marks: Marks,
    src: nat,
    source_root: Entries,
    root: nat,
    kids: Seq<nat>,
)
    requires
        ids_placed(st),
        all_foreign(st, st.page_ids),
        foreign(st, root),
    ensures
        advanced(env, st, finish_root(env, st, marks, src, source_root, root, kids)),
        same_fields(st, finish_root(env, st, marks, src, source_root, root, kids)),
{
    nums_advance(env, st, marks, st.page_ids, st.page_ids.len());
    let (s1, nums) = parent_nums(st, marks, st.page_ids, st.page_ids.len());
    let pt = next_id(s1);
    let o = Obj::Dictionary(dict_insert(Seq::empty(), "Nums"@, Obj::Array(nums)));
    pinned_put_advances(env, s1, o);
    let s2 = put(set_pin(with_slot(s1), pt, true), pt, o);
    advanced_trans(env, st, s1, s2);
    let d0 = dict_insert(Seq::empty(), "Type"@, Obj::Name("StructTreeRoot"@));
    let d1 = dict_insert(d0, "ParentTree"@, new_ref(pt));
    let d2 = dict_insert(d1, "ParentTreeNextKey"@, Obj::Integer((nums.len() / 2) as i64));
    let d3 = dict_insert(d2, "K"@, k_value(refs(kids)));
    let keys = seq!["RoleMap"@, "ClassMap"@];
    carry_advances(env, s2, src, source_root, keys, 1, d3);
    let (s3, d4) = carry(env, s2, src, source_root, keys, 1, d3);
    advanced_trans(env, st, s2, s3);
    foreign_stays(env, st, s3, root);
    put_advances(env, s3, root, Obj::Dictionary(d4));
    advanced_trans(env, st, s3, put(s3, root, Obj::Dictionary(d4)));
}

proof fn tree_advances(env: Env, st: State, src: nat)
    requires
        ids_placed(st),
        all_foreign(st, st.page_ids),
    ensures
        advanced(env, st, struct_tree(env, st, src).0),
        same_fields(st, struct_tree(env, st, src).0),
{
    match struct_root(env.docs[src as int]) {
        None => {
            advanced_refl(env, st, st);
        },
        Some(source_root) => {
            let n = next_id(st);
            pinned_slot_advances(env, st);
            let s1 = set_pin(with_slot(st), n, true);
            let items = match dict_get(source_root, "K"@) {
                Some(k) => k_items(env.docs[src as int], k),
                None => Seq::empty(),
            };
            tops_advance(env, s1, src, items, n);
            let (s2, marks, kids) = struct_tops(env, s1, src, items, n);
            advanced_trans(env, st, s1, s2);
            foreign_stays(env, s1, s2, n);
            if kids.len() == 0 {
                pin_advances(env, s2, n, false);
                advanced_trans(env, st, s2, set_pin(s2, n, false));
            } else {
                all_foreign_stays(env, st, s2, st.page_ids);
                root_advances(env, s2, marks, src, source_root, n, kids);
                advanced_trans(env, st, s2, finish_root(env, s2, marks, src, source_root, n, kids));
            }
        },
    }
}

pub proof fn gather_advances(env: Env, st: State)
    requires
        ids_placed(st),
        fields_foreign(st),
        all_foreign(st, st.page_ids),
    ensures
        advanced(env, st, gather(env, st).0),
        gather(env, st).0.fields == st.fields,
{
    let (s1, info) = import_info(env, st, 0);
    let info_ref = match obj_dict(env.docs[0].root()) {
        Some(t) => dict_ref(t, "Info"@),
        None => None,
    };
    match info_ref {
        Some(id) => {
            if is_page(env, (0, id)) {
                advanced_refl(env, st, s1);
            } else {
                import_copies(env, st, 0, id, 0);
                copying_advances(env, st, s1);
            }
        },
        None => {
            advanced_refl(env, st, s1);
        },
    }
    fields_stay(env, st, s1);
    let (s2, o2) = if env.opts.keep_outlines {
        outlines(env, s1, 0)
    } else {
        (s1, None)
    };
    outlines_advance(env, s1, 0);
    advanced_refl(env, s1, s1);
    advanced_trans(env, st, s1, s2);
    fields_stay(env, s1, s2);
    all_foreign_stays(env, st, s2, st.page_ids);
    let (s3, o3) = if env.opts.keep_struct_tree {
        struct_tree(env, s2, 0)
    } else {
        (s2, None)
    };
    tree_advances(env, s2, 0);
    advanced_refl(env, s2, s2);
    advanced_trans(env, st, s2, s3);
    fields_stay(env, s2, s3);
    let (s4, o4) = if env.opts.keep_acroform {
        acroform(env, s3, 0)
    } else {
        (s3, None)
    };
    acroform_advances(env, s3, 0);
    advanced_refl(env, s3, s3);
    advanced_trans(env, st, s3, s4);
    extras_advance(env, s4, info);
    advanced_trans(env, st, s4, gather(env, st).0);
}

proof fn extras_advance(env: Env, st: State, info: Option<nat>)
    requires
        ids_placed(st),
    ensures
        advanced(env, st, gather_extras(env, st, info).0),
        gather_extras(env, st, info).0.fields == st.fields,
{
    let (s1, d) = match catalog(env.docs[0]) {
        Some(cat) => carry(env, st, 0, cat, extra_keys(), 1, Seq::empty()),
        None => (st, Seq::empty()),
    };
    match catalog(env.docs[0]) {
        Some(cat) => {
            carry_advances(env, st, 0, cat, extra_keys(), 1, Seq::empty());
        },
        None => {
            advanced_refl(env, st, s1);
        },
    }
    let d1 = match info {
        Some(i) => dict_insert(d, "Info"@, new_ref(i)),
        None => d,
    };
    pinned_put_advances(env, s1, Obj::Dictionary(d1));
    advanced_trans(env, st, s1, gather_extras(env, st, info).0);
}

/// The numbers of the first `k` pages: one, two, and so on.
pub open spec fn page_row(k: nat) -> Seq<nat> {
    Seq::new(k, |i: int| (i + 1) as nat)
}

/// Is every copy right, of an object of its own, and of no page? Are the pages the
/// first objects, in the order in which they were chosen, and no copies?
pub open spec fn copied_right(env: Env, st: State, pages: nat, built: nat) -> bool {
    &&& ids_placed(st)
    &&& copies_apart(st)
    &&& fields_foreign(st)
    &&& forall|k: (nat, nat)| #[trigger]
        st.ids.contains_key(k) ==> well_copied(env, st, k) && !is_page(env, k)
    &&& all_foreign(st, page_row(pages))
    &&& st.page_ids == page_row(built)
}

proof fn right_stays(env: Env, a: State, b: State, pages: nat, built: nat)
    requires
        copied_right(env, a, pages, built),
        advanced(env, a, b),
        fields_foreign(b),
    ensures
        copied_right(env, b, pages, built),
{
    assert forall|k: (nat, nat)| #[trigger] b.ids.contains_key(k) implies well_copied(env, b, k)
        && !is_page(env, k) by {
        if a.ids.contains_key(k) {
            copy_stays(env, a, b, k);
        }
    }
    assert forall|j: (nat, nat), k: (nat, nat)|
        #![trigger b.ids.contains_key(j), b.ids.contains_key(k)]
        b.ids.contains_key(j) && b.ids.contains_key(k) && j != k implies b.ids[j] != b.ids[k] by {
        if a.ids.contains_key(j) {
            assert(has_slot(a, a.ids[j]));
        }
        if a.ids.contains_key(k) {
            assert(has_slot(a, a.ids[k]));
        }
    }
    all_foreign_stays(env, a, b, page_row(pages));
}

/// Building the next page leaves all copies right.
pub proof fn page_stays_right(env: Env, st: State, picks: Picks, k: nat)
    requires
        k < picks.len(),
        copied_right(env, st, picks.len(), k),
        build_page(env, st, picks[k as int].0, picks[k as int].1, k + 1) is Ok,
    ensures
        ({
            let s = build_page(env, st, picks[k as int].0, picks[k as int].1, k + 1)->Ok_0;
            copied_right(env, s, picks.len(), k + 1) && extends(st.ids, s.ids)
        }),
{
    let (src, page) = picks[k as int];
    let id = (k + 1) as nat;
    assert(foreign(st, page_row(picks.len())[k as int]));
    page_advances(env, st, src, page, id);
    let s = build_page(env, st, src, page, id)->Ok_0;
    let s0 = State { page_ids: st.page_ids, ..s };
    assert(fields_foreign(s0)) by {
        assert forall|f: (nat, nat)| #[trigger] s0.fields.contains_key(f) implies foreign(s0, s0.fields[f]) by {
            assert(foreign(s, s.fields[f]));
        }
        assert forall|i: int| 0 <= i < s0.links.len() implies foreign(s0, (#[trigger] s0.links[i]).0) by {
            assert(foreign(s, s.links[i].0));
        }
    }
    right_stays(env, st, s0, picks.len(), k);
    assert(s.page_ids =~= page_row(id));
    assert forall|c: (nat, nat)| #[trigger] s.ids.contains_key(c) implies well_copied(env, s, c)
        && !is_page(env, c) by {
        assert(well_copied(env, s0, c));
        assert(object_at(s, s.ids[c]) == object_at(s0, s0.ids[c]));
    }
    assert forall|i: int| 0 <= i < page_row(picks.len()).len() implies foreign(
        s,
        #[trigger] page_row(picks.len())[i],
    ) by {
        assert(foreign(s0, page_row(picks.len())[i]));
    }
}

/// Building the pages leaves all copies right.
pub proof fn pages_right(env: Env, st: State, picks: Picks, k: nat)
    requires
        k <= picks.len(),
        copied_right(env, st, picks.len(), k),
        build_pages(env, st, picks, k) is Ok,
    ensures
        copied_right(env, build_pages(env, st, picks, k)->Ok_0, picks.len(), picks.len()),
    decreases picks.len() - k,
{
    if k < picks.len() {
        let (src, page) = picks[k as int];
        page_stays_right(env, st, picks, k);
        let s = build_page(env, st, src, page, k + 1)->Ok_0;
        pages_right(env, s, picks, k + 1);
    }
}

/// When all pages and all that belongs to the document was copied, each copy has the shape of its
/// source, two source objects have two copies, no page was copied as an object, the copies stand
/// behind the pages, and there is one page for each choice, in the order of the choices.
pub proof fn subset_copies_right(docs: Seq<PdfDocument>, picks: Picks, opts: SubsetOptions)
    requires
        build_pages(plan(docs, picks, opts), planned(picks.len()), picks, 0) is Ok,
    ensures
        ({
            let env = plan(docs, picks, opts);
            let built = build_pages(env, planned(picks.len()), picks, 0)->Ok_0;
            let st = gather(env, built).0;
            &&& forall|k: (nat, nat)| #[trigger]
                st.ids.contains_key(k) ==> well_copied(env, st, k) && !is_page(env, k) && st.ids[k] > picks.len()
            &&& copies_apart(st)
            &&& st.page_ids == page_row(picks.len())
        }),
{
    let env = plan(docs, picks, opts);
    let start = planned(picks.len());
    assert(start.page_ids =~= page_row(0));
    pages_right(env, start, picks, 0);
    let built = build_pages(env, start, picks, 0)->Ok_0;
    gather_advances(env, built);
    let st = gather(env, built).0;
    assert forall|k: (nat, nat)| #[trigger] st.ids.contains_key(k) implies well_copied(env, st, k)
        && !is_page(env, k) && st.ids[k] > picks.len() by {
        let row = page_row(picks.len());
        if picks.len() > 0 {
            assert(has_slot(built, row[picks.len() - 1]));
        }
        if built.ids.contains_key(k) {
            copy_stays(env, built, st, k);
            if built.ids[k] <= picks.len() {
                assert(foreign(built, row[built.ids[k] - 1]));
            }
        }
    }
    assert forall|j: (nat, nat), k: (nat, nat)|
        #![trigger st.ids.contains_key(j), st.ids.contains_key(k)]
        st.ids.contains_key(j) && st.ids.contains_key(k) && j != k implies st.ids[j] != st.ids[k] by {
        if built.ids.contains_key(j) {
            assert(has_slot(built, built.ids[j]));
        }
        if built.ids.contains_key(k) {
            assert(has_slot(built, built.ids[k]));
        }
    }
}

} // verus!
