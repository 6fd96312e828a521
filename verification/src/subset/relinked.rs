//! The rebuilt tree of form fields is linked both ways: each field lists its kids, and each kid
//! names its field.

use vstd::prelude::*;
use crate::document::{resolve, Content, PdfDocument};
use crate::object::{dict_get, dict_get_insert, dict_has, dict_insert, dict_ref, new_ref, obj_dict, Entries, Obj};
use super::acroform::{dict_of, field_keys, import_form_field, register_widget};
use super::copy::{carry, levels, load_or_null, remap, remap_entries};
use super::dests::sub_array;
use super::faithful::{entries_copied, ids_placed, remap_copies};
use super::pages::{
    annot_of, build_page, count_severed, geometry_keys, is_signature, keep_plain, navigation, navigation_keys,
    page_body, place_annot, process_annot, process_annots, remove_all, signature_keys, signature_warning,
};
use super::rebuild::{build_pages, plan, planned, Picks};
use super::resources::{
    categories, form_entries, form_ref, import_form_trimmed, import_resource, sub_dict,
    trim_categories, trim_entries, trimmed_resources, Category, Used,
};
use super::usage::all_use;
use super::{has_slot, next_id, object_at, put, set_pin, with_slot, Cell, Env, State, SubsetOptions, MAX_DEPTH};

verus! {

/// Is everything of `a` still in its place in `b`, and does each source object that was copied
/// have a place?
pub open spec fn added(a: State, b: State) -> bool {
    &&& a.slots.len() <= b.slots.len()
    &&& forall|i: int| 0 <= i < a.slots.len() ==> (#[trigger] b.slots[i]) == a.slots[i]
    &&& ids_placed(b)
}

/// Are the links between fields and kids the same in both states?
pub open spec fn same_links(a: State, b: State) -> bool {
    b.links == a.links && b.fields == a.fields
}

proof fn added_trans(a: State, b: State, c: State)
    requires
        added(a, b),
        added(b, c),
    ensures
        added(a, c),
{
    assert forall|i: int| 0 <= i < a.slots.len() implies (#[trigger] c.slots[i]) == a.slots[i] by {
        assert(b.slots[i] == a.slots[i]);
    }
}

proof fn slot_added(a: State, b: State)
    requires
        ids_placed(a),
        b.slots == a.slots.push(Cell { object: None, pinned: b.slots.last().pinned }),
        b.ids == a.ids,
    ensures
        added(a, b),
{
    assert forall|k: (nat, nat)| #[trigger] b.ids.contains_key(k) implies has_slot(b, b.ids[k]) by {
        assert(has_slot(a, a.ids[k]));
    }
}

/// A place that is new since `a` may be filled.
proof fn put_added(a: State, b: State, n: nat, o: Obj)
    requires
        added(a, b),
        n > a.slots.len(),
    ensures
        added(a, put(b, n, o)),
        same_links(b, put(b, n, o)),
{
    let s = put(b, n, o);
    assert forall|i: int| 0 <= i < a.slots.len() implies (#[trigger] s.slots[i]) == a.slots[i] by {
        assert(b.slots[i] == a.slots[i]);
    }
    assert forall|k: (nat, nat)| #[trigger] s.ids.contains_key(k) implies has_slot(s, s.ids[k]) by {
        assert(has_slot(b, b.ids[k]));
    }
}

proof fn remap_adds(env: Env, st: State, src: nat, o: Obj, depth: nat)
    requires
        ids_placed(st),
    ensures
        added(st, remap(env, st, src, o, depth).0),
        same_links(st, remap(env, st, src, o, depth).0),
{
    remap_copies(env, st, src, o, depth);
}

proof fn carry_adds(
    env: Env,
    st: State,
    src: nat,
    from: Entries,
    keys: Seq<Seq<char>>,
    depth: nat,
    into: Entries,
)
    requires
        ids_placed(st),
    ensures
        added(st, carry(env, st, src, from, keys, depth, into).0),
        same_links(st, carry(env, st, src, from, keys, depth, into).0),
    decreases keys.len(),
{
    if keys.len() > 0 {
        carry_adds(env, st, src, from, keys.drop_last(), depth, into);
        let s1 = carry(env, st, src, from, keys.drop_last(), depth, into).0;
        if let Some(v) = dict_get(from, keys.last()) {
            remap_adds(env, s1, src, v, depth);
            added_trans(st, s1, remap(env, s1, src, v, depth).0);
        }
    }
}

proof fn resource_adds(env: Env, st: State, src: nat, v: Obj, category: Category, depth: nat)
    requires
        ids_placed(st),
    ensures
        added(st, import_resource(env, st, src, v, category, depth).0),
        same_links(st, import_resource(env, st, src, v, category, depth).0),
    decreases levels(depth), 1nat, 0nat,
{
    if category == Category::XObject && env.opts.trim_forms && depth < MAX_DEPTH && form_ref(
        env.docs[src as int],
        v,
    ) is Some {
        form_adds(env, st, src, form_ref(env.docs[src as int], v)->0, depth + 1);
    } else {
        remap_adds(env, st, src, v, depth + 1);
    }
}

proof fn trim_entries_adds(
    env: Env,
    st: State,
    src: nat,
    sub: Entries,
    used: Used,
    category: Category,
    depth: nat,
)
    requires
        ids_placed(st),
    ensures
        added(st, trim_entries(env, st, src, sub, used, category, depth).0),
        same_links(st, trim_entries(env, st, src, sub, used, category, depth).0),
    decreases levels(depth), 2nat, sub.len(),
{
    if sub.len() > 0 {
        trim_entries_adds(env, st, src, sub.drop_last(), used, category, depth);
        let s1 = trim_entries(env, st, src, sub.drop_last(), used, category, depth).0;
        if used.contains((category, sub.last().0)) {
            resource_adds(env, s1, src, sub.last().1, category, depth);
            added_trans(st, s1, import_resource(env, s1, src, sub.last().1, category, depth).0);
        }
    }
}

proof fn trim_categories_adds(
    env: Env,
    st: State,
    src: nat,
    res: Entries,
    used: Used,
    depth: nat,
    n: nat,
)
    requires
        ids_placed(st),
    ensures
        added(st, trim_categories(env, st, src, res, used, depth, n).0),
        same_links(st, trim_categories(env, st, src, res, used, depth, n).0),
    decreases levels(depth), 3nat, n,
{
    if n > 0 {
        trim_categories_adds(env, st, src, res, used, depth, (n - 1) as nat);
        let s1 = trim_categories(env, st, src, res, used, depth, (n - 1) as nat).0;
        let category = categories()[n - 1];
        if let Some(sub) = sub_dict(env.docs[src as int], res, category.spec_key()) {
            trim_entries_adds(env, s1, src, sub, used, category, depth);
            added_trans(st, s1, trim_entries(env, s1, src, sub, used, category, depth).0);
        }
    }
}

proof fn resources_add(env: Env, st: State, src: nat, res: Obj, used: Used, depth: nat)
    requires
        ids_placed(st),
    ensures
        added(st, trimmed_resources(env, st, src, res, used, depth).0),
        same_links(st, trimmed_resources(env, st, src, res, used, depth).0),
    decreases levels(depth), 4nat, 0nat,
{
    if let Some(d) = obj_dict(res) {
        trim_categories_adds(env, st, src, d, used, depth, categories().len());
    }
}

proof fn form_entries_add(env: Env, st: State, src: nat, d: Entries, depth: nat)
    requires
        ids_placed(st),
    ensures
        added(st, form_entries(env, st, src, d, depth).0),
        same_links(st, form_entries(env, st, src, d, depth).0),
    decreases d.len(),
{
    if d.len() > 0 {
        form_entries_add(env, st, src, d.drop_last(), depth);
        let s1 = form_entries(env, st, src, d.drop_last(), depth).0;
        if d.last().0 != "Resources"@ {
            remap_adds(env, s1, src, d.last().1, depth);
            added_trans(st, s1, remap(env, s1, src, d.last().1, depth).0);
        }
    }
}

proof fn form_adds(env: Env, st: State, src: nat, id: nat, depth: nat)
    requires
        ids_placed(st),
    ensures
        added(st, import_form_trimmed(env, st, src, id, depth).0),
        same_links(st, import_form_trimmed(env, st, src, id, depth).0),
    decreases levels(depth), 5nat, 0nat,
{
    if !st.forms.contains_key((src, id)) {
        let doc = env.docs[src as int];
        let n = next_id(st);
        let s1 = State { forms: st.forms.insert((src, id), n), ..with_slot(st) };
        slot_added(st, s1);
        match load_or_null(doc, id) {
            Obj::Stream(d, data) => {
                form_entries_add(env, s1, src, d, depth + 1);
                let (s2, nd) = form_entries(env, s1, src, d, depth + 1);
                added_trans(st, s1, s2);
                let trimmed = match dict_get(d, "Resources"@) {
                    Some(r) => resolve(doc, r),
                    None => None,
                };
                match trimmed {
                    Some(res) => {
                        let used = all_use(doc, res, doc.content_of(id));
                        resources_add(env, s2, src, res, used, depth + 1);
                        let (s3, t) = trimmed_resources(env, s2, src, res, used, depth + 1);
                        added_trans(st, s2, s3);
                        put_added(st, s3, n, Obj::Stream(dict_insert(nd, "Resources"@, t), data));
                    },
                    None => {
                        put_added(st, s2, n, Obj::Stream(nd, data));
                    },
                }
            },
            o => {
                remap_adds(env, s1, src, o, depth + 1);
                let (s2, r) = remap(env, s1, src, o, depth + 1);
                added_trans(st, s1, s2);
                put_added(st, s2, n, r);
            },
        }
    }
}

/// Does the kid of a link name its field as its parent?
pub open spec fn points_back(st: State, link: (nat, nat)) -> bool {
    match object_at(st, link.1) {
        Some(Obj::Dictionary(d)) => dict_get(d, "Parent"@) == Some(new_ref(link.0)),
        _ => false,
    }
}

/// Does every kid name its field as its parent?
pub open spec fn all_point_back(st: State) -> bool {
    forall|i: int| 0 <= i < st.links.len() ==> points_back(st, #[trigger] st.links[i])
}

/// Are the links of `a` those of `b` but for new ones, whose kids are new too, and does every kid
/// in `b` name its field?
pub open spec fn relinked(a: State, b: State) -> bool {
    &&& added(a, b)
    &&& a.links.len() <= b.links.len()
    &&& forall|i: int| 0 <= i < a.links.len() ==> (#[trigger] b.links[i]) == a.links[i]
    &&& forall|i: int| a.links.len() <= i < b.links.len() ==> (#[trigger] b.links[i]).1 > a.slots.len()
    &&& all_point_back(b)
}

proof fn points_back_stays(a: State, b: State, link: (nat, nat))
    requires
        added(a, b),
        points_back(a, link),
    ensures
        points_back(b, link),
        link.1 <= a.slots.len(),
{
    assert(b.slots[link.1 - 1] == a.slots[link.1 - 1]);
}

proof fn added_relinks(a: State, b: State)
    requires
        all_point_back(a),
        added(a, b),
        same_links(a, b),
    ensures
        relinked(a, b),
{
    assert forall|i: int| 0 <= i < b.links.len() implies points_back(b, #[trigger] b.links[i]) by {
        points_back_stays(a, b, a.links[i]);
    }
}

proof fn relinked_trans(a: State, b: State, c: State)
    requires
        relinked(a, b),
        relinked(b, c),
    ensures
        relinked(a, c),
{
    added_trans(a, b, c);
    assert forall|i: int| 0 <= i < a.links.len() implies (#[trigger] c.links[i]) == a.links[i] by {
        assert(b.links[i] == a.links[i]);
    }
    assert forall|i: int| a.links.len() <= i < c.links.len() implies (#[trigger] c.links[i]).1
        > a.slots.len() by {
        if i < b.links.len() {
            assert(c.links[i] == b.links[i]);
        }
    }
}

/// A new place is linked below a field and filled with a dictionary that names the field.
proof fn linked_relinks(a: State, b: State, f: nat, n: nat, d: Entries)
    requires
        relinked(a, b),
        a.slots.len() < n <= b.slots.len(),
        dict_get(d, "Parent"@) == Some(new_ref(f)),
        forall|i: int| 0 <= i < b.links.len() ==> (#[trigger] b.links[i]).1 != n,
    ensures
        relinked(a, put(State { links: b.links.push((f, n)), ..b }, n, Obj::Dictionary(d))),
{
    let b1 = State { links: b.links.push((f, n)), ..b };
    let o = Obj::Dictionary(d);
    let s = put(b1, n, o);
    put_added(a, b, n, o);
    assert(s.slots == put(b, n, o).slots);
    assert forall|k: (nat, nat)| #[trigger] s.ids.contains_key(k) implies has_slot(s, s.ids[k]) by {
        assert(has_slot(b, b.ids[k]));
    }
    assert forall|i: int| 0 <= i < s.links.len() implies points_back(s, #[trigger] s.links[i]) by {
        if i < b.links.len() {
            assert(s.links[i] == b.links[i]);
            assert(points_back(b, b.links[i]));
            assert(b.links[i].1 != n);
        }
    }
    assert forall|i: int| 0 <= i < a.links.len() implies (#[trigger] s.links[i]) == a.links[i] by {
        assert(b.links[i] == a.links[i]);
    }
    assert forall|i: int| a.links.len() <= i < s.links.len() implies (#[trigger] s.links[i]).1
        > a.slots.len() by {
        if i < b.links.len() {
            assert(s.links[i] == b.links[i]);
        }
    }
}

/// The kids that were there before a place was made are not that place, nor are those that came
/// after it.
proof fn fresh_is_no_kid(a: State, m: State, b: State, n: nat)
    requires
        all_point_back(a),
        m.links == a.links,
        a.slots.len() < n <= m.slots.len(),
        relinked(m, b),
    ensures
        forall|i: int| 0 <= i < b.links.len() ==> (#[trigger] b.links[i]).1 != n,
{
    assert forall|i: int| 0 <= i < b.links.len() implies (#[trigger] b.links[i]).1 != n by {
        if i < m.links.len() {
            assert(b.links[i] == a.links[i]);
            assert(points_back(a, a.links[i]));
        }
    }
}

proof fn field_relinks(env: Env, st: State, src: nat, id: nat, depth: nat)
    requires
        ids_placed(st),
        all_point_back(st),
    ensures
        relinked(st, import_form_field(env, st, src, id, depth).0),
    decreases levels(depth),
{
    if !st.fields.contains_key((src, id)) {
        let n = next_id(st);
        let s1 = State { fields: st.fields.insert((src, id), n), ..set_pin(with_slot(st), n, true) };
        assert(s1.slots =~= st.slots.push(Cell { object: None, pinned: true }));
        slot_added(st, s1);
        let fd = dict_of(env.docs[src as int], id);
        carry_adds(env, s1, src, fd, field_keys(), depth + 1, Seq::empty());
        let (s2, nd) = carry(env, s1, src, fd, field_keys(), depth + 1, Seq::empty());
        added_trans(st, s1, s2);
        assert forall|i: int| 0 <= i < s2.links.len() implies points_back(s2, #[trigger] s2.links[i]) by {
            points_back_stays(st, s2, st.links[i]);
        }
        assert(relinked(st, s2));
        if dict_ref(fd, "Parent"@) is Some && depth < MAX_DEPTH {
            let p = dict_ref(fd, "Parent"@)->0;
            field_relinks(env, s2, src, p, depth + 1);
            let (s3, pf) = import_form_field(env, s2, src, p, depth + 1);
            relinked_trans(st, s2, s3);
            fresh_is_no_kid(st, s2, s3, n);
            dict_get_insert(nd, "Parent"@, new_ref(pf), "Parent"@);
            linked_relinks(st, s3, pf, n, dict_insert(nd, "Parent"@, new_ref(pf)));
        } else {
            let s3 = State { tops: s2.tops.push(n), ..s2 };
            let o = Obj::Dictionary(nd);
            put_added(st, s2, n, o);
            let s = put(s3, n, o);
            assert(s.slots == put(s2, n, o).slots);
            assert forall|k: (nat, nat)| #[trigger] s.ids.contains_key(k) implies has_slot(s, s.ids[k]) by {
                assert(has_slot(s2, s2.ids[k]));
            }
            assert forall|i: int| 0 <= i < s.links.len() implies points_back(s, #[trigger] s.links[i]) by {
                points_back_stays(st, s, st.links[i]);
            }
        }
    }
}

proof fn annot_adds(
    env: Env,
    st: State,
    src: nat,
    annot: Entries,
    nav: Option<(Seq<char>, Obj)>,
    page_id: nat,
)
    requires
        ids_placed(st),
    ensures
        ({
            let (s, n) = place_annot(env, st, src, annot, nav, page_id);
            &&& added(st, s)
            &&& same_links(st, s)
            &&& n == s.slots.len() > st.slots.len()
            &&& object_at(s, n) is Some
            &&& object_at(s, n)->0 is Dictionary
        }),
{
    entries_copied(env, st, src, annot, 1);
    let (s1, d) = remap_entries(env, st, src, annot, 1);
    let s2 = with_slot(s1);
    slot_added(s1, s2);
    added_trans(st, s1, s2);
    let d1 = dict_insert(d, "P"@, new_ref(page_id));
    let d2 = match nav {
        Some((key, value)) => dict_insert(d1, key, value),
        None => d1,
    };
    put_added(st, s2, next_id(s1), Obj::Dictionary(d2));
}

proof fn plain_relinks(
    env: Env,
    st: State,
    src: nat,
    annot: Entries,
    parent: Option<nat>,
    nav: Option<(Seq<char>, Obj)>,
    page_id: nat,
)
    requires
        ids_placed(st),
        all_point_back(st),
    ensures
        relinked(st, keep_plain(env, st, src, annot, parent, nav, page_id).0),
{
    annot_adds(env, st, src, annot, nav, page_id);
    let (s1, aid) = place_annot(env, st, src, annot, nav, page_id);
    added_relinks(st, s1);
    if env.opts.keep_acroform && (dict_has(annot, "FT"@) || parent is Some) {
        let s2 = set_pin(s1, aid, true);
        assert forall|i: int| 0 <= i < st.slots.len() implies (#[trigger] s2.slots[i]) == st.slots[i] by {
            assert(s1.slots[i] == st.slots[i]);
        }
        assert forall|k: (nat, nat)| #[trigger] s2.ids.contains_key(k) implies has_slot(s2, s2.ids[k]) by {
            assert(has_slot(s1, s1.ids[k]));
        }
        added_relinks(st, s2);
        let d = object_at(s1, aid)->0->Dictionary_0;
        assert(object_at(s2, aid) == Some(Obj::Dictionary(d)));
        match parent {
            Some(p) => {
                field_relinks(env, s2, src, p, 0);
                let (s3, f) = import_form_field(env, s2, src, p, 0);
                relinked_trans(st, s2, s3);
                fresh_is_no_kid(st, s2, s3, aid);
                assert(s3.slots[aid - 1] == s2.slots[aid - 1]);
                dict_get_insert(d, "Parent"@, new_ref(f), "Parent"@);
                linked_relinks(st, s3, f, aid, dict_insert(d, "Parent"@, new_ref(f)));
            },
            None => {
                let s3 = register_widget(env, s2, src, annot, aid, parent).0;
                assert(added(st, s3)) by {
                    assert forall|k: (nat, nat)| #[trigger] s3.ids.contains_key(k) implies has_slot(
                        s3,
                        s3.ids[k],
                    ) by {
                        assert(has_slot(s2, s2.ids[k]));
                    }
                }
                added_relinks(st, s3);
            },
        }
    }
}

proof fn counted_relinks(a: State, b: State)
    requires
        ids_placed(a),
        all_point_back(a),
        b.slots == a.slots,
        b.ids == a.ids,
        b.links == a.links,
        b.fields == a.fields,
    ensures
        relinked(a, b),
{
    assert(added(a, b)) by {
        assert forall|k: (nat, nat)| #[trigger] b.ids.contains_key(k) implies has_slot(b, b.ids[k]) by {
            assert(has_slot(a, a.ids[k]));
        }
    }
    added_relinks(a, b);
}

proof fn process_relinks(env: Env, st: State, src: nat, entry: Obj, page_id: nat, page_index: nat)
    requires
        ids_placed(st),
        all_point_back(st),
        process_annot(env, st, src, entry, page_id, page_index) is Ok,
    ensures
        relinked(st, process_annot(env, st, src, entry, page_id, page_index)->Ok_0.0),
{
    match annot_of(env.docs[src as int], entry) {
        None => {
            counted_relinks(st, st);
        },
        Some(annot) => {
            let nav = navigation(env, src, annot);
            let plain = remove_all(annot, navigation_keys());
            let parent = dict_ref(annot, "Parent"@);
            let s1 = count_severed(st, annot, nav);
            counted_relinks(st, s1);
            if !is_signature(env.docs[src as int], plain, parent) {
                plain_relinks(env, s1, src, plain, parent, nav, page_id);
                relinked_trans(st, s1, keep_plain(env, s1, src, plain, parent, nav, page_id).0);
            } else {
                let s2 = State {
                    dropped_signatures: s1.dropped_signatures + 1,
                    warnings: s1.warnings.push(signature_warning(page_index)),
                    ..s1
                };
                counted_relinks(s1, s2);
                relinked_trans(st, s1, s2);
                let rest = remove_all(plain, signature_keys());
                annot_adds(env, s2, src, rest, nav, page_id);
                let s3 = place_annot(env, s2, src, rest, nav, page_id).0;
                added_relinks(s2, s3);
                relinked_trans(st, s2, s3);
            }
        },
    }
}

proof fn annots_relink(
    env: Env,
    st: State,
    src: nat,
    entries: Seq<Obj>,
    page_id: nat,
    page_index: nat,
    kept: Seq<Obj>,
)
    requires
        ids_placed(st),
        all_point_back(st),
        process_annots(env, st, src, entries, page_id, page_index, kept) is Ok,
    ensures
        relinked(st, process_annots(env, st, src, entries, page_id, page_index, kept)->Ok_0.0),
    decreases entries.len(),
{
    if entries.len() == 0 {
        counted_relinks(st, st);
    } else {
        process_relinks(env, st, src, entries[0], page_id, page_index);
        let (s1, o) = process_annot(env, st, src, entries[0], page_id, page_index)->Ok_0;
        let more = match o {
            Some(r) => kept.push(r),
            None => kept,
        };
        annots_relink(env, s1, src, entries.skip(1), page_id, page_index, more);
        relinked_trans(
            st,
            s1,
            process_annots(env, s1, src, entries.skip(1), page_id, page_index, more)->Ok_0.0,
        );
    }
}

pub proof fn body_adds(env: Env, st: State, src: nat, page: Entries, content: Content)
    requires
        ids_placed(st),
    ensures
        added(st, page_body(env, st, src, page, content).0),
        same_links(st, page_body(env, st, src, page, content).0),
{
    let d0 = dict_insert(Seq::empty(), "Type"@, Obj::Name("Page"@));
    carry_adds(env, st, src, page, geometry_keys(), 1, d0);
    let (s1, d1) = carry(env, st, src, page, geometry_keys(), 1, d0);
    let trimmed = match dict_get(page, "Resources"@) {
        Some(r) => resolve(env.docs[src as int], r),
        None => None,
    };
    let (s2, d2) = match trimmed {
        Some(res) => {
            let used = all_use(env.docs[src as int], res, content);
            let (s, t) = trimmed_resources(env, s1, src, res, used, 0);
            (s, dict_insert(d1, "Resources"@, t))
        },
        None => (s1, d1),
    };
    if let Some(res) = trimmed {
        resources_add(env, s1, src, res, all_use(env.docs[src as int], res, content), 0);
    }
    added_trans(st, s1, s2);
    carry_adds(env, s2, src, page, seq!["Contents"@], 1, d2);
    added_trans(st, s2, page_body(env, st, src, page, content).0);
}

/// Are the kids of all links no pages, and do they name their fields?
pub open spec fn forms_linked(st: State, pages: nat) -> bool {
    &&& ids_placed(st)
    &&& pages <= st.slots.len()
    &&& all_point_back(st)
    &&& forall|i: int| 0 <= i < st.links.len() ==> (#[trigger] st.links[i]).1 > pages
}

/// Building a page fills its place and changes no other that was there.
pub proof fn page_links(env: Env, st: State, src: nat, page_index: nat, page_id: nat, pages: nat)
    requires
        forms_linked(st, pages),
        1 <= page_id <= pages,
        build_page(env, st, src, page_index, page_id) is Ok,
    ensures
        forms_linked(build_page(env, st, src, page_index, page_id)->Ok_0, pages),
        forall|i: int|
            0 <= i < st.slots.len() && i != page_id - 1 ==> (#[trigger] build_page(
                env,
                st,
                src,
                page_index,
                page_id,
            )->Ok_0.slots[i]) == st.slots[i],
{
    let doc = env.docs[src as int];
    let page = doc.page_seq()[page_index as int];
    let d = obj_dict(page.object@)->0;
    let content = page.content;
    body_adds(env, st, src, d, content);
    let (s1, d1) = page_body(env, st, src, d, content);
    added_relinks(st, s1);
    let annots = match sub_array(doc, d, "Annots"@) {
        Some(entries) => process_annots(env, s1, src, entries, page_id, page_index, Seq::empty()),
        None => Ok((s1, Seq::empty())),
    };
    let (s2, kept) = annots->Ok_0;
    match sub_array(doc, d, "Annots"@) {
        Some(entries) => {
            annots_relink(env, s1, src, entries, page_id, page_index, Seq::empty());
        },
        None => {
            counted_relinks(s1, s2);
        },
    }
    relinked_trans(st, s1, s2);
    let s = build_page(env, st, src, page_index, page_id)->Ok_0;
    assert forall|i: int| 0 <= i < s.links.len() implies (#[trigger] s.links[i]).1 > pages by {
        assert(s2.links[i].1 > pages) by {
            if i < st.links.len() {
                assert(s2.links[i] == st.links[i]);
            }
        }
    }
    assert forall|i: int| 0 <= i < s.links.len() implies points_back(s, #[trigger] s.links[i]) by {
        assert(points_back(s2, s2.links[i]));
        assert(s.links[i].1 > pages);
        assert(object_at(s, s.links[i].1) == object_at(s2, s2.links[i].1));
    }
    assert forall|k: (nat, nat)| #[trigger] s.ids.contains_key(k) implies has_slot(s, s.ids[k]) by {
        assert(has_slot(s2, s2.ids[k]));
    }
}

proof fn pages_link(env: Env, st: State, picks: Picks, k: nat)
    requires
        k <= picks.len(),
        forms_linked(st, picks.len()),
        build_pages(env, st, picks, k) is Ok,
    ensures
        forms_linked(build_pages(env, st, picks, k)->Ok_0, picks.len()),
    decreases picks.len() - k,
{
    if k < picks.len() {
        let (src, page) = picks[k as int];
        page_links(env, st, src, page, k + 1, picks.len());
        pages_link(env, build_page(env, st, src, page, k + 1)->Ok_0, picks, k + 1);
    }
}

/// When the pages are built, every widget and field that is the kid of a form field names that
/// field as its parent.
pub proof fn kids_name_their_fields(docs: Seq<PdfDocument>, picks: Picks, opts: SubsetOptions)
    requires
        build_pages(plan(docs, picks, opts), planned(picks.len()), picks, 0) is Ok,
    ensures
        all_point_back(build_pages(plan(docs, picks, opts), planned(picks.len()), picks, 0)->Ok_0),
{
    pages_link(plan(docs, picks, opts), planned(picks.len()), picks, 0);
}

} // verus!
