//! No reference leads nowhere: what an object of the output refers to is in the output too.

use vstd::prelude::*;
use crate::document::{resolve, Content, PdfDocument};
use crate::object::{
    dict_get, dict_get_some, dict_has, dict_insert, dict_ref, dict_remove, new_ref, obj_dict,
    Entries, Obj,
};
use crate::text::key_lt;
use super::acroform::{
    acroform, attach_kids, dict_of, field_keys, form_keys, import_form_field, kids_of, register_widget,
};
use super::copy::{carry, edit, import, levels, load_or_null, refs, remap, remap_entries, remap_items};
use super::dedup::live;
use super::dests::{catalog, dest_array, dest_page, remap_action, remap_dest, sub_array};
use super::direct::{direct, direct_entries, direct_entries_mention_none, direct_mentions_none};
use super::faithful::extends;
use super::pages::{
    annot_of, build_page, count_severed, geometry_keys, is_signature, keep_plain, navigation, navigation_keys,
    page_body, place_annot, process_annot, process_annots, remove_all, signature_keys, signature_warning,
};
use super::refs::{entries_mention, mentions};
use super::resources::{
    categories, form_entries, form_ref, import_form_trimmed, import_resource, sub_dict, trim_categories,
    trim_entries, trimmed_resources, Category, Used,
};
use super::usage::{all_use, resources_of};
use super::{has_slot, next_id, object_at, put, set_pin, with_slot, Cell, Env, State, MAX_DEPTH};

verus! {

/// Is there an object of number `n`, or is one awaited?
pub open spec fn known(st: State, awaited: Set<nat>, n: nat) -> bool {
    live(st.slots, n) || awaited.contains(n)
}

/// Does every reference in `o` lead to an object that is there or awaited?
pub open spec fn leads(st: State, awaited: Set<nat>, o: Obj) -> bool {
    forall|m: nat| #[trigger] mentions(o, m) ==> known(st, awaited, m)
}

/// Does every reference in the values of a dictionary lead to an object that is there or awaited?
pub open spec fn entries_lead(st: State, awaited: Set<nat>, d: Entries) -> bool {
    forall|m: nat| #[trigger] entries_mention(d, m) ==> known(st, awaited, m)
}

/// Is every object that anything refers to there or awaited?
pub open spec fn closed(st: State, awaited: Set<nat>) -> bool {
    &&& forall|n: nat| #[trigger] live(st.slots, n) ==> leads(st, awaited, st.slots[n - 1].object->0)
    &&& forall|k: (nat, nat)| #[trigger] st.ids.contains_key(k) ==> known(st, awaited, st.ids[k])
    &&& forall|k: (nat, nat)| #[trigger] st.forms.contains_key(k) ==> known(st, awaited, st.forms[k])
    &&& forall|k: (nat, nat)| #[trigger] st.fields.contains_key(k) ==> known(st, awaited, st.fields[k])
    &&& forall|i: int|
        0 <= i < st.links.len() ==> known(st, awaited, (#[trigger] st.links[i]).0) && known(
            st,
            awaited,
            st.links[i].1,
        )
    &&& forall|i: int| 0 <= i < st.tops.len() ==> known(st, awaited, #[trigger] st.tops[i])
}

/// Are the objects of `a` still there in `b`, those pinned still pinned, the pages the same, and
/// the copies of forms and of form fields those of `a` and more?
pub open spec fn grown(a: State, b: State) -> bool {
    &&& a.slots.len() <= b.slots.len()
    &&& b.page_ids == a.page_ids
    &&& extends(a.forms, b.forms)
    &&& extends(a.fields, b.fields)
    &&& forall|n: nat| #[trigger] live(a.slots, n) ==> live(b.slots, n)
    &&& forall|i: int| 0 <= i < a.slots.len() && (#[trigger] a.slots[i]).pinned ==> b.slots[i].pinned
}

pub proof fn grown_trans(a: State, b: State, c: State)
    requires
        grown(a, b),
        grown(b, c),
    ensures
        grown(a, c),
{
    assert forall|i: int| 0 <= i < a.slots.len() && (#[trigger] a.slots[i]).pinned implies c.slots[i].pinned by {
        assert(b.slots[i].pinned);
    }
}

pub proof fn leads_stays(a: State, b: State, awaited: Set<nat>, o: Obj)
    requires
        grown(a, b),
        leads(a, awaited, o),
    ensures
        leads(b, awaited, o),
{
}

pub proof fn entries_stay(a: State, b: State, awaited: Set<nat>, d: Entries)
    requires
        grown(a, b),
        entries_lead(a, awaited, d),
    ensures
        entries_lead(b, awaited, d),
{
}

/// To await more is no harm.
pub proof fn closed_more(st: State, awaited: Set<nat>, more: Set<nat>)
    requires
        closed(st, awaited),
        awaited.subset_of(more),
    ensures
        closed(st, more),
{
    assert forall|n: nat| #[trigger] live(st.slots, n) implies leads(st, more, st.slots[n - 1].object->0) by {
        assert(leads(st, awaited, st.slots[n - 1].object->0));
    }
}

pub proof fn insert_leads(st: State, awaited: Set<nat>, d: Entries, key: Seq<char>, v: Obj)
    requires
        entries_lead(st, awaited, d),
        leads(st, awaited, v),
    ensures
        entries_lead(st, awaited, dict_insert(d, key, v)),
{
    assert forall|m: nat| #[trigger] entries_mention(dict_insert(d, key, v), m) implies known(st, awaited, m) by {
        insert_mentions(d, key, v, m);
        if mentions(v, m) {
            assert(known(st, awaited, m));
        }
    }
}

/// What a dictionary refers to with an entry stored is referred to by the entry or was before.
pub proof fn insert_mentions(d: Entries, key: Seq<char>, v: Obj, m: nat)
    requires
        entries_mention(dict_insert(d, key, v), m),
    ensures
        entries_mention(d, m) || mentions(v, m),
    decreases d.len(),
{
    let e = dict_insert(d, key, v);
    let i = choose|i: int| 0 <= i < e.len() && mentions((#[trigger] e[i]).1, m);
    if d.len() == 0 {
    } else if d[0].0 == key {
        if i > 0 {
            assert(e[i] == d[i]);
        }
    } else if key_lt(key, d[0].0) {
        if i > 0 {
            assert(e[i] == d[i - 1]);
        }
    } else {
        let rest = dict_insert(d.skip(1), key, v);
        if i > 0 {
            assert(e[i] == rest[i - 1]);
            assert(entries_mention(rest, m));
            insert_mentions(d.skip(1), key, v, m);
            if entries_mention(d.skip(1), m) {
                let j = choose|j: int| 0 <= j < d.skip(1).len() && mentions((#[trigger] d.skip(1)[j]).1, m);
                assert(d[j + 1] == d.skip(1)[j]);
            }
        } else {
            assert(e[0] == d[0]);
        }
    }
}

/// What a dictionary refers to without an entry it refers to with it.
pub proof fn remove_mentions(d: Entries, key: Seq<char>, m: nat)
    requires
        entries_mention(dict_remove(d, key), m),
    ensures
        entries_mention(d, m),
    decreases d.len(),
{
    let e = dict_remove(d, key);
    if d.len() > 0 {
        let rest = dict_remove(d.skip(1), key);
        let i = choose|i: int| 0 <= i < e.len() && mentions((#[trigger] e[i]).1, m);
        if d[0].0 != key && i == 0 {
            assert(e[0] == d[0]);
        } else {
            if d[0].0 != key {
                assert(e[i] == rest[i - 1]);
            }
            assert(entries_mention(rest, m));
            remove_mentions(d.skip(1), key, m);
            let j = choose|j: int| 0 <= j < d.skip(1).len() && mentions((#[trigger] d.skip(1)[j]).1, m);
            assert(d[j + 1] == d.skip(1)[j]);
        }
    }
}

/// What the value of an entry refers to the dictionary refers to.
pub proof fn get_mentions(d: Entries, key: Seq<char>, m: nat)
    requires
        dict_get(d, key) is Some,
        mentions(dict_get(d, key)->0, m),
    ensures
        entries_mention(d, m),
{
    let i = dict_get_some(d, key);
    assert(mentions(d[i].1, m));
}

/// A place that is reserved takes the object that was awaited there.
pub proof fn filled(st: State, awaited: Set<nat>, n: nat, o: Obj)
    requires
        closed(st, awaited.insert(n)),
        has_slot(st, n),
        leads(st, awaited.insert(n), o),
    ensures
        closed(put(st, n, o), awaited),
        grown(st, put(st, n, o)),
        live(put(st, n, o).slots, n),
{
    let s = put(st, n, o);
    assert forall|m: nat| known(st, awaited.insert(n), m) implies #[trigger] known(s, awaited, m) by {
        if live(st.slots, m) {
            assert(live(s.slots, m));
        }
    }
    assert forall|k: nat| #[trigger] live(s.slots, k) implies leads(s, awaited, s.slots[k - 1].object->0) by {
        if k != n {
            assert(live(st.slots, k));
            assert(leads(st, awaited.insert(n), st.slots[k - 1].object->0));
        }
    }
    assert forall|m: nat| #[trigger] live(st.slots, m) implies live(s.slots, m) by {}
}

pub proof fn rewritten(st: State, awaited: Set<nat>, n: nat, o: Obj)
    requires
        closed(st, awaited),
        has_slot(st, n),
        leads(st, awaited, o),
    ensures
        closed(put(st, n, o), awaited),
        grown(st, put(st, n, o)),
        live(put(st, n, o).slots, n),
{
    closed_more(st, awaited, awaited.insert(n));
    filled(st, awaited, n, o);
}

/// A place that is reserved changes nothing.
pub proof fn slot_closed(st: State, awaited: Set<nat>, b: State)
    requires
        closed(st, awaited),
        b.slots == st.slots.push(Cell { object: None, pinned: b.slots.last().pinned }),
        b == (State { slots: b.slots, ..st }),
    ensures
        closed(b, awaited),
        grown(st, b),
{
    assert forall|n: nat| #[trigger] live(st.slots, n) implies live(b.slots, n) by {}
    assert forall|n: nat| #[trigger] live(b.slots, n) implies leads(b, awaited, b.slots[n - 1].object->0) by {
        assert(live(st.slots, n));
        assert(leads(st, awaited, st.slots[n - 1].object->0));
    }
}

pub proof fn pin_closed(st: State, awaited: Set<nat>, n: nat, pinned: bool)
    requires
        closed(st, awaited),
    ensures
        closed(set_pin(st, n, pinned), awaited),
        pinned ==> grown(st, set_pin(st, n, pinned)),
{
    let s = set_pin(st, n, pinned);
    assert forall|m: nat| #[trigger] live(st.slots, m) <==> live(s.slots, m) by {}
    assert forall|k: nat| #[trigger] live(s.slots, k) implies leads(s, awaited, s.slots[k - 1].object->0) by {
        assert(live(st.slots, k));
        assert(leads(st, awaited, st.slots[k - 1].object->0));
    }
}

pub proof fn edit_closed(st: State, awaited: Set<nat>, n: nat, key: Seq<char>, v: Obj)
    requires
        closed(st, awaited),
        leads(st, awaited, v),
    ensures
        closed(edit(st, n, key, v), awaited),
        grown(st, edit(st, n, key, v)),
{
    match object_at(st, n) {
        Some(Obj::Dictionary(d)) => {
            assert(live(st.slots, n));
            let o = Obj::Dictionary(dict_insert(d, key, v));
            assert(entries_lead(st, awaited, d)) by {
                assert forall|m: nat| #[trigger] entries_mention(d, m) implies known(st, awaited, m) by {
                    assert(mentions(st.slots[n - 1].object->0, m));
                }
            }
            insert_leads(st, awaited, d, key, v);
            dict_leads(st, awaited, dict_insert(d, key, v));
            rewritten(st, awaited, n, o);
        },
        _ => {},
    }
}

pub proof fn dict_leads(st: State, awaited: Set<nat>, d: Entries)
    requires
        entries_lead(st, awaited, d),
    ensures
        leads(st, awaited, Obj::Dictionary(d)),
        forall|data: Seq<u8>| #[trigger] leads(st, awaited, Obj::Stream(d, data)),
{
    assert forall|m: nat| #[trigger] mentions(Obj::Dictionary(d), m) implies known(st, awaited, m) by {
        assert(entries_mention(d, m));
    }
    assert forall|data: Seq<u8>| #[trigger] leads(st, awaited, Obj::Stream(d, data)) by {
        assert forall|m: nat| #[trigger] mentions(Obj::Stream(d, data), m) implies known(st, awaited, m) by {
            assert(entries_mention(d, m));
        }
    }
}

pub proof fn refs_lead(st: State, awaited: Set<nat>, ids: Seq<nat>)
    requires
        forall|i: int| 0 <= i < ids.len() ==> known(st, awaited, #[trigger] ids[i]),
    ensures
        leads(st, awaited, Obj::Array(refs(ids))),
{
    let a = refs(ids);
    assert forall|m: nat| #[trigger] mentions(Obj::Array(a), m) implies known(st, awaited, m) by {
        let i = choose|i: int| 0 <= i < a.len() && mentions(#[trigger] a[i], m);
        assert(a[i] == new_ref(ids[i]));
        assert(known(st, awaited, ids[i]));
    }
}

pub proof fn import_closed(env: Env, st: State, awaited: Set<nat>, src: nat, id: nat, depth: nat)
    requires
        closed(st, awaited),
        pages_awaited(env, awaited),
    ensures
        closed(import(env, st, src, id, depth).0, awaited),
        grown(st, import(env, st, src, id, depth).0),
        known(import(env, st, src, id, depth).0, awaited, import(env, st, src, id, depth).1),
    decreases levels(depth), 0nat, 0nat,
{
    if !st.ids.contains_key((src, id)) {
        let n = next_id(st);
        let s0 = with_slot(st);
        slot_closed(st, awaited, s0);
        let s1 = State { ids: st.ids.insert((src, id), n), ..s0 };
        let more = awaited.insert(n);
        closed_more(s0, awaited, more);
        assert(closed(s1, more)) by {
            assert forall|k: nat| #[trigger] live(s1.slots, k) implies leads(s1, more, s1.slots[k - 1].object->0) by {
                assert(live(s0.slots, k));
                assert(leads(s0, more, s0.slots[k - 1].object->0));
            }
        }
        let (s2, o) = if depth > MAX_DEPTH {
            (s1, Obj::Null)
        } else {
            remap(env, s1, src, load_or_null(env.docs[src as int], id), depth + 1)
        };
        if depth <= MAX_DEPTH {
            remap_closed(env, s1, more, src, load_or_null(env.docs[src as int], id), depth + 1);
        }
        filled(s2, awaited, n, o);
        grown_trans(st, s1, s2);
        grown_trans(st, s2, put(s2, n, o));
    }
}

proof fn remap_closed(env: Env, st: State, awaited: Set<nat>, src: nat, o: Obj, depth: nat)
    requires
        closed(st, awaited),
        pages_awaited(env, awaited),
    ensures
        closed(remap(env, st, src, o, depth).0, awaited),
        grown(st, remap(env, st, src, o, depth).0),
        leads(remap(env, st, src, o, depth).0, awaited, remap(env, st, src, o, depth).1),
    decreases levels(depth), 1nat, 0nat,
{
    if depth <= MAX_DEPTH {
        match o {
            Obj::Reference(id, _) => {
                if env.pages.contains_key((src, id)) {
                    assert(page_number(env, env.pages[(src, id)]));
                } else if !env.severed.contains((src, id)) {
                    import_closed(env, st, awaited, src, id, depth);
                }
            },
            Obj::Array(items) => {
                items_closed(env, st, awaited, src, items, depth + 1);
            },
            Obj::Dictionary(d) => {
                entries_closed(env, st, awaited, src, d, depth + 1);
                let (s1, out) = remap_entries(env, st, src, d, depth + 1);
                dict_leads(s1, awaited, out);
            },
            Obj::Stream(d, _) => {
                entries_closed(env, st, awaited, src, d, depth + 1);
                let (s1, out) = remap_entries(env, st, src, d, depth + 1);
                dict_leads(s1, awaited, out);
            },
            _ => {},
        }
    }
}

proof fn items_closed(env: Env, st: State, awaited: Set<nat>, src: nat, items: Seq<Obj>, depth: nat)
    requires
        closed(st, awaited),
        pages_awaited(env, awaited),
    ensures
        ({
            let (s, out) = remap_items(env, st, src, items, depth);
            closed(s, awaited) && grown(st, s) && leads(s, awaited, Obj::Array(out))
        }),
    decreases levels(depth), 2nat, items.len(),
{
    if items.len() > 0 {
        items_closed(env, st, awaited, src, items.drop_last(), depth);
        let (s1, out1) = remap_items(env, st, src, items.drop_last(), depth);
        remap_closed(env, s1, awaited, src, items.last(), depth);
        let (s2, o) = remap(env, s1, src, items.last(), depth);
        grown_trans(st, s1, s2);
        leads_stays(s1, s2, awaited, Obj::Array(out1));
        let out = out1.push(o);
        let whole = Obj::Array(out1);
        assert(whole->Array_0 == out1);
        assert forall|m: nat| #[trigger] mentions(Obj::Array(out), m) implies known(s2, awaited, m) by {
            let i = choose|i: int| 0 <= i < out.len() && mentions(#[trigger] out[i], m);
            if i < out1.len() {
                assert(mentions(out1[i], m));
                assert(mentions(whole, m));
            } else {
                assert(mentions(o, m));
            }
        }
    }
}

proof fn entries_closed(env: Env, st: State, awaited: Set<nat>, src: nat, d: Entries, depth: nat)
    requires
        closed(st, awaited),
        pages_awaited(env, awaited),
    ensures
        ({
            let (s, out) = remap_entries(env, st, src, d, depth);
            closed(s, awaited) && grown(st, s) && entries_lead(s, awaited, out)
        }),
    decreases levels(depth), 2nat, d.len(),
{
    if d.len() > 0 {
        entries_closed(env, st, awaited, src, d.drop_last(), depth);
        let (s1, out1) = remap_entries(env, st, src, d.drop_last(), depth);
        remap_closed(env, s1, awaited, src, d.last().1, depth);
        let (s2, o) = remap(env, s1, src, d.last().1, depth);
        grown_trans(st, s1, s2);
        entries_stay(s1, s2, awaited, out1);
        let out = out1.push((d.last().0, o));
        assert forall|m: nat| #[trigger] entries_mention(out, m) implies known(s2, awaited, m) by {
            let i = choose|i: int| 0 <= i < out.len() && mentions((#[trigger] out[i]).1, m);
            if i < out1.len() {
                assert(mentions(out1[i].1, m));
                assert(entries_mention(out1, m));
            } else {
                assert(mentions(o, m));
            }
        }
    }
}

pub proof fn carry_closed(
    env: Env,
    st: State,
    awaited: Set<nat>,
    src: nat,
    from: Entries,
    keys: Seq<Seq<char>>,
    depth: nat,
    into: Entries,
)
    requires
        closed(st, awaited),
        pages_awaited(env, awaited),
        entries_lead(st, awaited, into),
    ensures
        ({
            let (s, out) = carry(env, st, src, from, keys, depth, into);
            closed(s, awaited) && grown(st, s) && entries_lead(s, awaited, out)
        }),
    decreases keys.len(),
{
    if keys.len() > 0 {
        carry_closed(env, st, awaited, src, from, keys.drop_last(), depth, into);
        let (s1, out) = carry(env, st, src, from, keys.drop_last(), depth, into);
        if let Some(v) = dict_get(from, keys.last()) {
            remap_closed(env, s1, awaited, src, v, depth);
            let (s2, o) = remap(env, s1, src, v, depth);
            grown_trans(st, s1, s2);
            entries_stay(s1, s2, awaited, out);
            insert_leads(s2, awaited, out, keys.last(), o);
        }
    }
}

proof fn resource_closed(
    env: Env,
    st: State,
    awaited: Set<nat>,
    src: nat,
    v: Obj,
    category: Category,
    depth: nat,
)
    requires
        closed(st, awaited),
        pages_awaited(env, awaited),
    ensures
        ({
            let (s, o) = import_resource(env, st, src, v, category, depth);
            closed(s, awaited) && grown(st, s) && leads(s, awaited, o)
        }),
    decreases levels(depth), 1nat, 0nat,
{
    if category == Category::XObject && env.opts.trim_forms && depth < MAX_DEPTH && form_ref(
        env.docs[src as int],
        v,
    ) is Some {
        form_closed(env, st, awaited, src, form_ref(env.docs[src as int], v)->0, depth + 1);
    } else {
        remap_closed(env, st, awaited, src, v, depth + 1);
    }
}

proof fn trim_entries_closed(
    env: Env,
    st: State,
    awaited: Set<nat>,
    src: nat,
    sub: Entries,
    used: Used,
    category: Category,
    depth: nat,
)
    requires
        closed(st, awaited),
        pages_awaited(env, awaited),
    ensures
        ({
            let (s, out) = trim_entries(env, st, src, sub, used, category, depth);
            closed(s, awaited) && grown(st, s) && entries_lead(s, awaited, out)
        }),
    decreases levels(depth), 2nat, sub.len(),
{
    if sub.len() > 0 {
        trim_entries_closed(env, st, awaited, src, sub.drop_last(), used, category, depth);
        let (s1, out) = trim_entries(env, st, src, sub.drop_last(), used, category, depth);
        if used.contains((category, sub.last().0)) {
            resource_closed(env, s1, awaited, src, sub.last().1, category, depth);
            let (s2, o) = import_resource(env, s1, src, sub.last().1, category, depth);
            grown_trans(st, s1, s2);
            entries_stay(s1, s2, awaited, out);
            insert_leads(s2, awaited, out, sub.last().0, o);
        }
    }
}

proof fn trim_categories_closed(
    env: Env,
    st: State,
    awaited: Set<nat>,
    src: nat,
    res: Entries,
    used: Used,
    depth: nat,
    n: nat,
)
    requires
        closed(st, awaited),
        pages_awaited(env, awaited),
    ensures
        ({
            let (s, out) = trim_categories(env, st, src, res, used, depth, n);
            closed(s, awaited) && grown(st, s) && entries_lead(s, awaited, out)
        }),
    decreases levels(depth), 3nat, n,
{
    if n > 0 {
        trim_categories_closed(env, st, awaited, src, res, used, depth, (n - 1) as nat);
        let (s1, out) = trim_categories(env, st, src, res, used, depth, (n - 1) as nat);
        let category = categories()[n - 1];
        if let Some(sub) = sub_dict(env.docs[src as int], res, category.spec_key()) {
            trim_entries_closed(env, s1, awaited, src, sub, used, category, depth);
            let (s2, kept) = trim_entries(env, s1, src, sub, used, category, depth);
            grown_trans(st, s1, s2);
            entries_stay(s1, s2, awaited, out);
            dict_leads(s2, awaited, kept);
            insert_leads(s2, awaited, out, category.spec_key(), Obj::Dictionary(kept));
        }
    }
}

proof fn resources_closed(
    env: Env,
    st: State,
    awaited: Set<nat>,
    src: nat,
    res: Obj,
    used: Used,
    depth: nat,
)
    requires
        closed(st, awaited),
        pages_awaited(env, awaited),
    ensures
        ({
            let (s, o) = trimmed_resources(env, st, src, res, used, depth);
            closed(s, awaited) && grown(st, s) && leads(s, awaited, o)
        }),
    decreases levels(depth), 4nat, 0nat,
{
    match obj_dict(res) {
        None => {
            dict_leads(st, awaited, Seq::empty());
        },
        Some(d) => {
            trim_categories_closed(env, st, awaited, src, d, used, depth, categories().len());
            let (s1, out) = trim_categories(env, st, src, d, used, depth, categories().len());
            match dict_get(d, "ProcSet"@) {
                Some(ps) => {
                    let v = direct(env.docs[src as int], ps);
                    direct_leads(env.docs[src as int], s1, awaited, ps);
                    insert_leads(s1, awaited, out, "ProcSet"@, v);
                    dict_leads(s1, awaited, dict_insert(out, "ProcSet"@, v));
                },
                None => {
                    dict_leads(s1, awaited, out);
                },
            }
        },
    }
}

proof fn form_entries_closed(env: Env, st: State, awaited: Set<nat>, src: nat, d: Entries, depth: nat)
    requires
        closed(st, awaited),
        pages_awaited(env, awaited),
    ensures
        ({
            let (s, out) = form_entries(env, st, src, d, depth);
            closed(s, awaited) && grown(st, s) && entries_lead(s, awaited, out)
        }),
    decreases d.len(),
{
    if d.len() > 0 {
        form_entries_closed(env, st, awaited, src, d.drop_last(), depth);
        let (s1, out) = form_entries(env, st, src, d.drop_last(), depth);
        if d.last().0 != "Resources"@ {
            remap_closed(env, s1, awaited, src, d.last().1, depth);
            let (s2, o) = remap(env, s1, src, d.last().1, depth);
            grown_trans(st, s1, s2);
            entries_stay(s1, s2, awaited, out);
            insert_leads(s2, awaited, out, d.last().0, o);
        }
    }
}

proof fn form_closed(env: Env, st: State, awaited: Set<nat>, src: nat, id: nat, depth: nat)
    requires
        closed(st, awaited),
        pages_awaited(env, awaited),
    ensures
        ({
            let (s, n) = import_form_trimmed(env, st, src, id, depth);
            &&& closed(s, awaited) && grown(st, s) && known(s, awaited, n)
            &&& s.forms.contains_key((src, id)) && s.forms[(src, id)] == n
        }),
    decreases levels(depth), 5nat, 0nat,
{
    if !st.forms.contains_key((src, id)) {
        let doc = env.docs[src as int];
        let n = next_id(st);
        let s0 = with_slot(st);
        slot_closed(st, awaited, s0);
        let s1 = State { forms: st.forms.insert((src, id), n), ..s0 };
        let more = awaited.insert(n);
        closed_more(s0, awaited, more);
        assert(closed(s1, more)) by {
            assert forall|k: nat| #[trigger] live(s1.slots, k) implies leads(s1, more, s1.slots[k - 1].object->0) by {
                assert(live(s0.slots, k));
                assert(leads(s0, more, s0.slots[k - 1].object->0));
            }
        }
        let key = (src, id);
        assert(s1.forms.contains_key(key) && s1.forms[key] == n);
        match load_or_null(doc, id) {
            Obj::Stream(d, data) => {
                form_entries_closed(env, s1, more, src, d, depth + 1);
                let (s2, nd) = form_entries(env, s1, src, d, depth + 1);
                grown_trans(st, s1, s2);
                assert(s2.forms.contains_key(key) && s2.forms[key] == n);
                match resources_of(doc, d) {
                    Some(res) => {
                        let used = all_use(doc, res, doc.content_of(id));
                        resources_closed(env, s2, more, src, res, used, depth + 1);
                        let (s3, t) = trimmed_resources(env, s2, src, res, used, depth + 1);
                        grown_trans(st, s2, s3);
                        assert(s3.forms.contains_key(key) && s3.forms[key] == n);
                        entries_stay(s2, s3, more, nd);
                        insert_leads(s3, more, nd, "Resources"@, t);
                        dict_leads(s3, more, dict_insert(nd, "Resources"@, t));
                        let o = Obj::Stream(dict_insert(nd, "Resources"@, t), data);
                        filled(s3, awaited, n, o);
                        grown_trans(st, s3, put(s3, n, o));
                    },
                    None => {
                        dict_leads(s2, more, nd);
                        let o = Obj::Stream(nd, data);
                        filled(s2, awaited, n, o);
                        grown_trans(st, s2, put(s2, n, o));
                    },
                }
            },
            o => {
                remap_closed(env, s1, more, src, o, depth + 1);
                let (s2, r) = remap(env, s1, src, o, depth + 1);
                grown_trans(st, s1, s2);
                assert(s2.forms.contains_key(key) && s2.forms[key] == n);
                filled(s2, awaited, n, r);
                grown_trans(st, s2, put(s2, n, r));
            },
        }
    }
}

proof fn field_closed(env: Env, st: State, awaited: Set<nat>, src: nat, id: nat, depth: nat)
    requires
        closed(st, awaited),
        pages_awaited(env, awaited),
    ensures
        ({
            let (s, n) = import_form_field(env, st, src, id, depth);
            &&& closed(s, awaited) && grown(st, s) && known(s, awaited, n)
            &&& s.fields.contains_key((src, id)) && s.fields[(src, id)] == n
        }),
    decreases levels(depth),
{
    if !st.fields.contains_key((src, id)) {
        let n = next_id(st);
        let s0 = set_pin(with_slot(st), n, true);
        pinned_slot_closed(st, awaited);
        let s1 = State { fields: st.fields.insert((src, id), n), ..s0 };
        let more = awaited.insert(n);
        closed_more(s0, awaited, more);
        assert(closed(s1, more)) by {
            assert forall|k: nat| #[trigger] live(s1.slots, k) implies leads(s1, more, s1.slots[k - 1].object->0) by {
                assert(live(s0.slots, k));
                assert(leads(s0, more, s0.slots[k - 1].object->0));
            }
        }
        let fd = dict_of(env.docs[src as int], id);
        carry_closed(env, s1, more, src, fd, field_keys(), depth + 1, Seq::empty());
        let (s2, nd) = carry(env, s1, src, fd, field_keys(), depth + 1, Seq::empty());
        grown_trans(st, s1, s2);
        let key = (src, id);
        assert(s1.fields.contains_key(key) && s1.fields[key] == n);
        assert(s2.fields.contains_key(key) && s2.fields[key] == n);
        if dict_ref(fd, "Parent"@) is Some && depth < MAX_DEPTH {
            let p = dict_ref(fd, "Parent"@)->0;
            field_closed(env, s2, more, src, p, depth + 1);
            let (s3, pf) = import_form_field(env, s2, src, p, depth + 1);
            grown_trans(st, s2, s3);
            assert(s3.fields.contains_key(key) && s3.fields[key] == n);
            let s4 = State { links: s3.links.push((pf, n)), ..s3 };
            assert(closed(s4, more)) by {
                assert forall|k: nat| #[trigger] live(s4.slots, k) implies leads(s4, more, s4.slots[k - 1].object->0) by {
                    assert(live(s3.slots, k));
                    assert(leads(s3, more, s3.slots[k - 1].object->0));
                }
            }
            entries_stay(s2, s4, more, nd);
            insert_leads(s4, more, nd, "Parent"@, new_ref(pf));
            dict_leads(s4, more, dict_insert(nd, "Parent"@, new_ref(pf)));
            let o = Obj::Dictionary(dict_insert(nd, "Parent"@, new_ref(pf)));
            filled(s4, awaited, n, o);
            grown_trans(st, s4, put(s4, n, o));
        } else {
            let s3 = State { tops: s2.tops.push(n), ..s2 };
            assert(closed(s3, more)) by {
                assert forall|k: nat| #[trigger] live(s3.slots, k) implies leads(s3, more, s3.slots[k - 1].object->0) by {
                    assert(live(s2.slots, k));
                    assert(leads(s2, more, s2.slots[k - 1].object->0));
                }
            }
            entries_stay(s2, s3, more, nd);
            dict_leads(s3, more, nd);
            let o = Obj::Dictionary(nd);
            filled(s3, awaited, n, o);
            grown_trans(st, s3, put(s3, n, o));
        }
    }
}

pub proof fn pinned_slot_closed(st: State, awaited: Set<nat>)
    requires
        closed(st, awaited),
    ensures
        closed(set_pin(with_slot(st), next_id(st), true), awaited),
        grown(st, set_pin(with_slot(st), next_id(st), true)),
{
    slot_closed(st, awaited, with_slot(st));
    pin_closed(with_slot(st), awaited, next_id(st), true);
    grown_trans(st, with_slot(st), set_pin(with_slot(st), next_id(st), true));
}

proof fn widget_closed(
    env: Env,
    st: State,
    awaited: Set<nat>,
    src: nat,
    annot: Entries,
    widget: nat,
    parent: Option<nat>,
)
    requires
        closed(st, awaited),
        pages_awaited(env, awaited),
        known(st, awaited, widget),
    ensures
        ({
            let (s, f) = register_widget(env, st, src, annot, widget, parent);
            closed(s, awaited) && grown(st, s) && (f is Some ==> known(s, awaited, f->0))
        }),
{
    let (s, f) = register_widget(env, st, src, annot, widget, parent);
    match parent {
        Some(p) => {
            field_closed(env, st, awaited, src, p, 0);
            let (s1, f1) = import_form_field(env, st, src, p, 0);
            assert(closed(s, awaited)) by {
                assert forall|k: nat| #[trigger] live(s.slots, k) implies leads(s, awaited, s.slots[k - 1].object->0) by {
                    assert(live(s1.slots, k));
                    assert(leads(s1, awaited, s1.slots[k - 1].object->0));
                }
            }
        },
        None => {
            assert(closed(s, awaited)) by {
                assert forall|k: nat| #[trigger] live(s.slots, k) implies leads(s, awaited, s.slots[k - 1].object->0) by {
                    assert(live(st.slots, k));
                    assert(leads(st, awaited, st.slots[k - 1].object->0));
                }
            }
        },
    }
}

proof fn kids_known(st: State, awaited: Set<nat>, links: Seq<(nat, nat)>, f: nat)
    requires
        forall|i: int| 0 <= i < links.len() ==> known(st, awaited, (#[trigger] links[i]).1),
    ensures
        forall|i: int| 0 <= i < kids_of(links, f).len() ==> known(st, awaited, #[trigger] kids_of(links, f)[i]),
    decreases links.len(),
{
    if links.len() > 0 {
        let front = links.drop_last();
        assert forall|i: int| 0 <= i < front.len() implies known(st, awaited, (#[trigger] front[i]).1) by {
            assert(links[i] == front[i]);
        }
        kids_known(st, awaited, front, f);
        assert(links[links.len() - 1] == links.last());
        let before = kids_of(front, f);
        let kids = kids_of(links, f);
        assert forall|i: int| 0 <= i < kids.len() implies known(st, awaited, #[trigger] kids[i]) by {
            if i < before.len() {
                assert(kids[i] == before[i]);
            }
        }
    }
}

proof fn kids_closed(st: State, awaited: Set<nat>, n: nat)
    requires
        closed(st, awaited),
    ensures
        closed(attach_kids(st, n), awaited),
        grown(st, attach_kids(st, n)),
    decreases n,
{
    if n > 0 {
        kids_closed(st, awaited, (n - 1) as nat);
        let s = attach_kids(st, (n - 1) as nat);
        let kids = kids_of(st.links, n);
        if kids.len() > 0 {
            kids_known(st, awaited, st.links, n);
            refs_lead(s, awaited, kids);
            edit_closed(s, awaited, n, "Kids"@, Obj::Array(refs(kids)));
            grown_trans(st, s, attach_kids(st, n));
        }
    }
}

/// Is there an object of number `n` that is not collapsed into another?
pub open spec fn settled(st: State, n: nat) -> bool {
    live(st.slots, n) && st.slots[n - 1].pinned
}

pub proof fn pinned_put_closed(st: State, awaited: Set<nat>, o: Obj)
    requires
        closed(st, awaited),
        leads(st, awaited, o),
    ensures
        ({
            let s = put(set_pin(with_slot(st), next_id(st), true), next_id(st), o);
            closed(s, awaited) && grown(st, s) && settled(s, next_id(st))
        }),
{
    pinned_slot_closed(st, awaited);
    let s1 = set_pin(with_slot(st), next_id(st), true);
    leads_stays(st, s1, awaited, o);
    rewritten(s1, awaited, next_id(st), o);
    grown_trans(st, s1, put(s1, next_id(st), o));
}

pub proof fn acroform_closed(env: Env, st: State, awaited: Set<nat>, src: nat)
    requires
        closed(st, awaited),
        pages_awaited(env, awaited),
    ensures
        ({
            let (s, n) = acroform(env, st, src);
            closed(s, awaited) && grown(st, s) && (n is Some ==> settled(s, n->0))
        }),
{
    if st.tops.len() > 0 {
        kids_closed(st, awaited, st.slots.len());
        let s1 = attach_kids(st, st.slots.len());
        let af = dict_insert(Seq::empty(), "Fields"@, Obj::Array(refs(st.tops)));
        refs_lead(s1, awaited, st.tops);
        insert_leads(s1, awaited, Seq::empty(), "Fields"@, Obj::Array(refs(st.tops)));
        let (s2, af2) = match catalog(env.docs[src as int]) {
            Some(cat) => match sub_dict(env.docs[src as int], cat, "AcroForm"@) {
                Some(src_af) => carry(env, s1, src, src_af, form_keys(), 1, af),
                None => (s1, af),
            },
            None => (s1, af),
        };
        if let Some(cat) = catalog(env.docs[src as int]) {
            if let Some(src_af) = sub_dict(env.docs[src as int], cat, "AcroForm"@) {
                carry_closed(env, s1, awaited, src, src_af, form_keys(), 1, af);
            }
        }
        grown_trans(st, s1, s2);
        dict_leads(s2, awaited, af2);
        pinned_put_closed(s2, awaited, Obj::Dictionary(af2));
        grown_trans(st, s2, acroform(env, st, src).0);
    }
}

/// Is `m` the number of a page?
pub open spec fn page_number(env: Env, m: nat) -> bool {
    exists|k: (nat, nat)| #[trigger] env.pages.contains_key(k) && env.pages[k] == m
}

/// Are all pages awaited? Those that are there already may be.
pub open spec fn pages_awaited(env: Env, awaited: Set<nat>) -> bool {
    forall|m: nat| #[trigger] page_number(env, m) ==> awaited.contains(m)
}

/// A value without references leads nowhere else.
pub proof fn direct_leads(doc: PdfDocument, st: State, awaited: Set<nat>, o: Obj)
    ensures
        leads(st, awaited, direct(doc, o)),
{
    assert forall|m: nat| #[trigger] mentions(direct(doc, o), m) implies known(st, awaited, m) by {
        direct_mentions_none(doc, o, m);
    }
}

/// A destination leads to pages alone.
pub proof fn dest_leads(env: Env, st: State, awaited: Set<nat>, src: nat, dest: Obj)
    requires
        pages_awaited(env, awaited),
    ensures
        remap_dest(env, src, dest) matches Some(v) ==> leads(st, awaited, v),
{
    if let Some(v) = remap_dest(env, src, dest) {
        let doc = env.docs[src as int];
        let a = dest_array(doc, dest, 0)->0;
        let out = v->Array_0;
        let key = (src, dest_page(doc, dest)->0);
        assert(page_number(env, env.pages[key]));
        assert forall|m: nat| #[trigger] mentions(v, m) implies known(st, awaited, m) by {
            let i = choose|i: int| 0 <= i < out.len() && mentions(#[trigger] out[i], m);
            if i > 0 {
                assert(out[i] == direct(doc, a[i]));
                direct_mentions_none(doc, a[i], m);
            }
        }
    }
}

/// An action leads to pages alone.
pub proof fn action_leads(env: Env, st: State, awaited: Set<nat>, src: nat, action: Obj)
    requires
        pages_awaited(env, awaited),
    ensures
        remap_action(env, src, action) matches Some(v) ==> leads(st, awaited, v),
{
    if let Some(v) = remap_action(env, src, action) {
        let doc = env.docs[src as int];
        let ad = obj_dict(resolve(doc, action)->0)->0;
        let own = direct_entries(doc, dict_remove(ad, "Next"@));
        assert(entries_lead(st, awaited, own)) by {
            assert forall|m: nat| #[trigger] entries_mention(own, m) implies known(st, awaited, m) by {
                direct_entries_mention_none(doc, dict_remove(ad, "Next"@), m);
            }
        }
        if dict_get(ad, "S"@) == Some(Obj::Name("GoTo"@)) {
            let d = dict_get(ad, "D"@)->0;
            dest_leads(env, st, awaited, src, d);
            insert_leads(st, awaited, own, "D"@, remap_dest(env, src, d)->0);
        }
        dict_leads(st, awaited, v->Dictionary_0);
    }
}

proof fn annot_closed(
    env: Env,
    st: State,
    awaited: Set<nat>,
    src: nat,
    annot: Entries,
    nav: Option<(Seq<char>, Obj)>,
    page_id: nat,
)
    requires
        closed(st, awaited),
        known(st, awaited, page_id),
        pages_awaited(env, awaited),
        nav is Some ==> leads(st, awaited, (nav->0).1),
    ensures
        ({
            let (s, n) = place_annot(env, st, src, annot, nav, page_id);
            closed(s, awaited) && grown(st, s) && live(s.slots, n)
        }),
{
    entries_closed(env, st, awaited, src, annot, 1);
    let (s1, d) = remap_entries(env, st, src, annot, 1);
    let d1 = dict_insert(d, "P"@, new_ref(page_id));
    insert_leads(s1, awaited, d, "P"@, new_ref(page_id));
    let d2 = match nav {
        Some((key, value)) => dict_insert(d1, key, value),
        None => d1,
    };
    if let Some((key, value)) = nav {
        leads_stays(st, s1, awaited, value);
        insert_leads(s1, awaited, d1, key, value);
    }
    dict_leads(s1, awaited, d2);
    let n = next_id(s1);
    let s2 = with_slot(s1);
    slot_closed(s1, awaited, s2);
    grown_trans(st, s1, s2);
    leads_stays(s1, s2, awaited, Obj::Dictionary(d2));
    rewritten(s2, awaited, n, Obj::Dictionary(d2));
    grown_trans(st, s2, put(s2, n, Obj::Dictionary(d2)));
}

proof fn plain_closed(
    env: Env,
    st: State,
    awaited: Set<nat>,
    src: nat,
    annot: Entries,
    parent: Option<nat>,
    nav: Option<(Seq<char>, Obj)>,
    page_id: nat,
)
    requires
        closed(st, awaited),
        known(st, awaited, page_id),
        pages_awaited(env, awaited),
        nav is Some ==> leads(st, awaited, (nav->0).1),
    ensures
        ({
            let (s, n) = keep_plain(env, st, src, annot, parent, nav, page_id);
            closed(s, awaited) && grown(st, s) && live(s.slots, n)
        }),
{
    annot_closed(env, st, awaited, src, annot, nav, page_id);
    let (s1, aid) = place_annot(env, st, src, annot, nav, page_id);
    if env.opts.keep_acroform && (dict_has(annot, "FT"@) || parent is Some) {
        let s2 = set_pin(s1, aid, true);
        pin_closed(s1, awaited, aid, true);
        grown_trans(st, s1, s2);
        widget_closed(env, s2, awaited, src, annot, aid, parent);
        let (s3, field) = register_widget(env, s2, src, annot, aid, parent);
        grown_trans(st, s2, s3);
        if let Some(f) = field {
            edit_closed(s3, awaited, aid, "Parent"@, new_ref(f));
            grown_trans(st, s3, edit(s3, aid, "Parent"@, new_ref(f)));
        }
    }
}

pub proof fn counted_closed(st: State, awaited: Set<nat>, b: State)
    requires
        closed(st, awaited),
        b.slots == st.slots,
        b.ids == st.ids,
        b.forms == st.forms,
        b.fields == st.fields,
        b.links == st.links,
        b.tops == st.tops,
    ensures
        closed(b, awaited),
{
    assert forall|k: nat| #[trigger] live(b.slots, k) implies leads(b, awaited, b.slots[k - 1].object->0) by {
        assert(live(st.slots, k));
        assert(leads(st, awaited, st.slots[k - 1].object->0));
    }
}

proof fn process_closed(
    env: Env,
    st: State,
    awaited: Set<nat>,
    src: nat,
    entry: Obj,
    page_id: nat,
    page_index: nat,
)
    requires
        closed(st, awaited),
        known(st, awaited, page_id),
        pages_awaited(env, awaited),
        process_annot(env, st, src, entry, page_id, page_index) is Ok,
    ensures
        ({
            let (s, o) = process_annot(env, st, src, entry, page_id, page_index)->Ok_0;
            closed(s, awaited) && grown(st, s) && (o is Some ==> leads(s, awaited, o->0))
        }),
{
    if let Some(annot) = annot_of(env.docs[src as int], entry) {
        let nav = navigation(env, src, annot);
        if let Some(dest) = dict_get(annot, "Dest"@) {
            dest_leads(env, st, awaited, src, dest);
        } else if let Some(action) = dict_get(annot, "A"@) {
            action_leads(env, st, awaited, src, action);
        }
        if let Some((_, value)) = nav {
            assert(leads(st, awaited, value));
        }
        let bare = remove_all(annot, navigation_keys());
        let s1 = count_severed(st, annot, nav);
        counted_closed(st, awaited, s1);
        if !is_signature(env.docs[src as int], bare, dict_ref(annot, "Parent"@)) {
            plain_closed(env, s1, awaited, src, bare, dict_ref(annot, "Parent"@), nav, page_id);
        } else {
            let s2 = State {
                dropped_signatures: s1.dropped_signatures + 1,
                warnings: s1.warnings.push(signature_warning(page_index)),
                ..s1
            };
            counted_closed(s1, awaited, s2);
            annot_closed(env, s2, awaited, src, remove_all(bare, signature_keys()), nav, page_id);
        }
    }
}

proof fn annots_closed(
    env: Env,
    st: State,
    awaited: Set<nat>,
    src: nat,
    entries: Seq<Obj>,
    page_id: nat,
    page_index: nat,
    kept: Seq<Obj>,
)
    requires
        closed(st, awaited),
        known(st, awaited, page_id),
        pages_awaited(env, awaited),
        leads(st, awaited, Obj::Array(kept)),
        process_annots(env, st, src, entries, page_id, page_index, kept) is Ok,
    ensures
        ({
            let (s, out) = process_annots(env, st, src, entries, page_id, page_index, kept)->Ok_0;
            closed(s, awaited) && grown(st, s) && leads(s, awaited, Obj::Array(out))
        }),
    decreases entries.len(),
{
    if entries.len() > 0 {
        process_closed(env, st, awaited, src, entries[0], page_id, page_index);
        let (s1, o) = process_annot(env, st, src, entries[0], page_id, page_index)->Ok_0;
        let more = match o {
            Some(r) => kept.push(r),
            None => kept,
        };
        leads_stays(st, s1, awaited, Obj::Array(kept));
        if let Some(r) = o {
            push_leads(s1, awaited, kept, r);
        }
        let rest = entries.skip(1);
        annots_closed(env, s1, awaited, src, rest, page_id, page_index, more);
        grown_trans(
            st,
            s1,
            process_annots(env, s1, src, rest, page_id, page_index, more)->Ok_0.0,
        );
    }
}

pub proof fn push_leads(st: State, awaited: Set<nat>, items: Seq<Obj>, o: Obj)
    requires
        leads(st, awaited, Obj::Array(items)),
        leads(st, awaited, o),
    ensures
        leads(st, awaited, Obj::Array(items.push(o))),
{
    let whole = Obj::Array(items);
    assert(whole->Array_0 == items);
    let out = items.push(o);
    assert forall|m: nat| #[trigger] mentions(Obj::Array(out), m) implies known(st, awaited, m) by {
        let i = choose|i: int| 0 <= i < out.len() && mentions(#[trigger] out[i], m);
        if i < items.len() {
            assert(mentions(items[i], m));
            assert(mentions(whole, m));
        } else {
            assert(mentions(o, m));
        }
    }
}

proof fn body_closed(env: Env, st: State, awaited: Set<nat>, src: nat, page: Entries, content: Content)
    requires
        closed(st, awaited),
        pages_awaited(env, awaited),
    ensures
        ({
            let (s, d) = page_body(env, st, src, page, content);
            closed(s, awaited) && grown(st, s) && entries_lead(s, awaited, d)
        }),
{
    let d0 = dict_insert(Seq::empty(), "Type"@, Obj::Name("Page"@));
    insert_leads(st, awaited, Seq::empty(), "Type"@, Obj::Name("Page"@));
    carry_closed(env, st, awaited, src, page, geometry_keys(), 1, d0);
    let (s1, d1) = carry(env, st, src, page, geometry_keys(), 1, d0);
    let trimmed = resources_of(env.docs[src as int], page);
    let (s2, d2) = match trimmed {
        Some(res) => {
            let used = all_use(env.docs[src as int], res, content);
            let (s, t) = trimmed_resources(env, s1, src, res, used, 0);
            (s, dict_insert(d1, "Resources"@, t))
        },
        None => (s1, d1),
    };
    if let Some(res) = trimmed {
        let used = all_use(env.docs[src as int], res, content);
        resources_closed(env, s1, awaited, src, res, used, 0);
        let (s, t) = trimmed_resources(env, s1, src, res, used, 0);
        entries_stay(s1, s, awaited, d1);
        insert_leads(s, awaited, d1, "Resources"@, t);
    }
    grown_trans(st, s1, s2);
    carry_closed(env, s2, awaited, src, page, seq!["Contents"@], 1, d2);
    grown_trans(st, s2, page_body(env, st, src, page, content).0);
}

pub proof fn page_closed(env: Env, st: State, awaited: Set<nat>, src: nat, page_index: nat, page_id: nat)
    requires
        closed(st, awaited.insert(page_id)),
        has_slot(st, page_id),
        pages_awaited(env, awaited.insert(page_id)),
        build_page(env, st, src, page_index, page_id) is Ok,
    ensures
        ({
            let s = build_page(env, st, src, page_index, page_id)->Ok_0;
            &&& closed(s, awaited)
            &&& grown(st, State { page_ids: st.page_ids, ..s })
            &&& s.page_ids == st.page_ids.push(page_id)
            &&& live(s.slots, page_id)
        }),
{
    let more = awaited.insert(page_id);
    let doc = env.docs[src as int];
    let page = doc.page_seq()[page_index as int];
    let d = obj_dict(page.object@)->0;
    let content = page.content;
    body_closed(env, st, more, src, d, content);
    let (s1, d1) = page_body(env, st, src, d, content);
    let annots = match sub_array(doc, d, "Annots"@) {
        Some(entries) => process_annots(env, s1, src, entries, page_id, page_index, Seq::empty()),
        None => Ok((s1, Seq::empty())),
    };
    let (s2, kept) = annots->Ok_0;
    let none = Obj::Array(Seq::<Obj>::empty());
    assert(none->Array_0.len() == 0);
    assert(leads(s1, more, none));
    if let Some(entries) = sub_array(doc, d, "Annots"@) {
        annots_closed(env, s1, more, src, entries, page_id, page_index, Seq::empty());
    }
    grown_trans(st, s1, s2);
    entries_stay(s1, s2, more, d1);
    let d2 = if kept.len() > 0 {
        dict_insert(d1, "Annots"@, Obj::Array(kept))
    } else {
        d1
    };
    insert_leads(s2, more, d1, "Annots"@, Obj::Array(kept));
    dict_leads(s2, more, d2);
    let s3 = put(s2, page_id, Obj::Dictionary(d2));
    filled(s2, awaited, page_id, Obj::Dictionary(d2));
    grown_trans(st, s2, s3);
    let s4 = State { page_ids: s3.page_ids.push(page_id), ..s3 };
    counted_closed(s3, awaited, s4);
}

} // verus!
