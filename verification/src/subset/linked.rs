//! No reference leads nowhere, continued: the outline, the structure tree, and the file as a whole.

use vstd::prelude::*;
use crate::document::PdfDocument;
use crate::object::{dict_get, dict_insert, dict_is_name, dict_ref, new_ref, Entries, Obj};
use super::closed::{
    carry_closed, closed, closed_more, counted_closed, dict_leads, edit_closed, entries_lead, filled, grown,
    action_leads, dest_leads, direct_leads, grown_trans, insert_leads, known, leads, leads_stays, page_number,
    pages_awaited, pin_closed, pinned_put_closed, pinned_slot_closed, push_leads, refs_lead, settled, slot_closed,
};
use super::copy::{carry, edit, refs};
use super::dedup::live;
use super::direct::{direct, pick};
use super::outlines::{
    entry_dict, entry_keys, link_siblings, outline_chain, outline_dest, outline_item, outline_items,
    outline_root, outlines, siblings, with_kids, MAX_OUTLINE_DEPTH,
};
use super::pages::annot_of;
use super::refs::mentions;
use super::struct_tree::{
    element_dict, element_keys, finish_root, k_items, k_value, kept_page, mark_dict, mark_page, marks_on, mcid_of,
    parent_nums, parent_row, place, struct_elem, struct_kid, struct_kids, struct_root, struct_tops, struct_tree,
    Marks,
};
use super::{has_slot, next_id, put, set_pin, with_slot, Env, State, MAX_DEPTH};

verus! {

proof fn pick_leads(
    doc: PdfDocument,
    st: State,
    awaited: Set<nat>,
    from: Entries,
    keys: Seq<Seq<char>>,
    into: Entries,
)
    requires
        entries_lead(st, awaited, into),
    ensures
        entries_lead(st, awaited, pick(doc, from, keys, into)),
    decreases keys.len(),
{
    if keys.len() > 0 {
        let front = keys.drop_last();
        pick_leads(doc, st, awaited, from, front, into);
        if let Some(v) = dict_get(from, keys.last()) {
            direct_leads(doc, st, awaited, v);
            insert_leads(st, awaited, pick(doc, from, front, into), keys.last(), direct(doc, v));
        }
    }
}

proof fn with_kids_leads(st: State, awaited: Set<nat>, d: Entries, kids: Seq<nat>)
    requires
        entries_lead(st, awaited, d),
        kids.len() > 0,
        forall|i: int| 0 <= i < kids.len() ==> known(st, awaited, #[trigger] kids[i]),
    ensures
        entries_lead(st, awaited, with_kids(d, kids)),
{
    assert(known(st, awaited, kids[0]));
    assert(known(st, awaited, kids[kids.len() - 1]));
    insert_leads(st, awaited, d, "First"@, new_ref(kids[0]));
    let d1 = dict_insert(d, "First"@, new_ref(kids[0]));
    insert_leads(st, awaited, d1, "Last"@, new_ref(kids.last()));
    let d2 = dict_insert(d1, "Last"@, new_ref(kids.last()));
    insert_leads(st, awaited, d2, "Count"@, Obj::Integer(kids.len() as i64));
}

proof fn entry_leads(
    doc: PdfDocument,
    st: State,
    awaited: Set<nat>,
    item: Entries,
    parent: nat,
    dest: Option<(Seq<char>, Obj)>,
    kids: Seq<nat>,
)
    requires
        known(st, awaited, parent),
        dest is Some ==> leads(st, awaited, (dest->0).1),
        forall|i: int| 0 <= i < kids.len() ==> known(st, awaited, #[trigger] kids[i]),
    ensures
        leads(st, awaited, Obj::Dictionary(entry_dict(doc, item, parent, dest, kids))),
{
    insert_leads(st, awaited, Seq::empty(), "Parent"@, new_ref(parent));
    let d0 = dict_insert(Seq::empty(), "Parent"@, new_ref(parent));
    pick_leads(doc, st, awaited, item, entry_keys(), d0);
    let d1 = pick(doc, item, entry_keys(), d0);
    let d2 = match dest {
        Some((key, value)) => dict_insert(d1, key, value),
        None => d1,
    };
    if let Some((key, value)) = dest {
        insert_leads(st, awaited, d1, key, value);
    }
    if kids.len() > 0 {
        with_kids_leads(st, awaited, d2, kids);
    }
    dict_leads(st, awaited, entry_dict(doc, item, parent, dest, kids));
}

/// A place above those of `a` may lose its pin.
proof fn unpinned_grown(a: State, b: State, n: nat)
    requires
        grown(a, b),
        n > a.slots.len(),
    ensures
        grown(a, set_pin(b, n, false)),
{
    let s = set_pin(b, n, false);
    assert forall|m: nat| #[trigger] live(a.slots, m) implies live(s.slots, m) by {
        assert(live(b.slots, m));
    }
    assert forall|i: int| 0 <= i < a.slots.len() && (#[trigger] a.slots[i]).pinned implies s.slots[i].pinned by {
        assert(b.slots[i].pinned);
    }
}

proof fn item_closed(
    env: Env,
    st: State,
    awaited: Set<nat>,
    src: nat,
    item: Entries,
    parent: nat,
    depth: nat,
)
    requires
        closed(st, awaited),
        pages_awaited(env, awaited),
        depth <= MAX_OUTLINE_DEPTH,
    ensures
        ({
            let (s, id) = outline_item(env, st, src, item, parent, depth);
            &&& grown(st, s)
            &&& id is None ==> closed(s, awaited)
            &&& id is Some ==> closed(s, awaited.insert(parent)) && live(s.slots, id->0)
        }),
    decreases MAX_OUTLINE_DEPTH + 1 - depth, 1nat, 0nat,
{
    let n = next_id(st);
    pinned_slot_closed(st, awaited);
    let s1 = set_pin(with_slot(st), n, true);
    let first = dict_ref(item, "First"@);
    let doc = env.docs[src as int];
    chain_closed(env, s1, awaited, src, first, n, depth + 1);
    let (s2, kids) = outline_chain(env, s1, src, first, n, depth + 1);
    grown_trans(st, s1, s2);
    let dest = outline_dest(env, src, item);
    if dest is None && kids.len() == 0 {
        pin_closed(s2, awaited, n, false);
        unpinned_grown(st, s2, n);
    } else {
        let above = awaited.insert(parent);
        let more = above.insert(n);
        if kids.len() == 0 {
            closed_more(s2, awaited, more);
        } else {
            closed_more(s2, awaited.insert(n), more);
        }
        if let Some(d) = dict_get(item, "Dest"@) {
            dest_leads(env, s2, more, src, d);
        } else if let Some(a) = dict_get(item, "A"@) {
            action_leads(env, s2, more, src, a);
        }
        if let Some((_, value)) = dest {
            assert(leads(s2, more, value));
        }
        assert forall|i: int| 0 <= i < kids.len() implies known(s2, more, #[trigger] kids[i]) by {
            assert(live(s2.slots, kids[i]));
        }
        entry_leads(doc, s2, more, item, parent, dest, kids);
        let o = Obj::Dictionary(entry_dict(doc, item, parent, dest, kids));
        let s3 = put(s2, n, o);
        filled(s2, above, n, o);
        grown_trans(st, s2, s3);
        counted_closed(s3, above, State { outline_entries: s3.outline_entries + 1, ..s3 });
    }
}

proof fn items_closed(
    env: Env,
    st: State,
    awaited: Set<nat>,
    src: nat,
    items: Seq<Entries>,
    parent: nat,
    depth: nat,
)
    requires
        closed(st, awaited),
        pages_awaited(env, awaited),
        depth <= MAX_OUTLINE_DEPTH,
    ensures
        ({
            let (s, ids) = outline_items(env, st, src, items, parent, depth);
            &&& grown(st, s)
            &&& ids.len() == 0 ==> closed(s, awaited)
            &&& ids.len() > 0 ==> closed(s, awaited.insert(parent))
            &&& forall|i: int| 0 <= i < ids.len() ==> live(s.slots, #[trigger] ids[i])
        }),
    decreases MAX_OUTLINE_DEPTH + 1 - depth, 2nat, items.len(),
{
    if items.len() > 0 {
        let front = items.drop_last();
        items_closed(env, st, awaited, src, front, parent, depth);
        let (s1, ids) = outline_items(env, st, src, front, parent, depth);
        let now = if ids.len() == 0 {
            awaited
        } else {
            awaited.insert(parent)
        };
        item_closed(env, s1, now, src, items.last(), parent, depth);
        let (s2, id) = outline_item(env, s1, src, items.last(), parent, depth);
        grown_trans(st, s1, s2);
        assert(now.insert(parent) =~= awaited.insert(parent));
        let out = outline_items(env, st, src, items, parent, depth).1;
        assert forall|i: int| 0 <= i < out.len() implies live(s2.slots, #[trigger] out[i]) by {
            if i < ids.len() {
                assert(out[i] == ids[i]);
                assert(live(s1.slots, ids[i]));
            }
        }
    }
}

proof fn siblings_closed(st: State, awaited: Set<nat>, ids: Seq<nat>, k: nat)
    requires
        closed(st, awaited),
        forall|i: int| 0 <= i < ids.len() ==> live(st.slots, #[trigger] ids[i]),
        k <= ids.len(),
    ensures
        closed(link_siblings(st, ids, k), awaited),
        grown(st, link_siblings(st, ids, k)),
    decreases k,
{
    if k > 0 {
        let i = k - 1;
        siblings_closed(st, awaited, ids, (k - 1) as nat);
        let s = link_siblings(st, ids, (k - 1) as nat);
        let s1 = if i > 0 {
            edit(s, ids[i], "Prev"@, new_ref(ids[i - 1]))
        } else {
            s
        };
        if i > 0 {
            assert(live(st.slots, ids[i - 1]));
            edit_closed(s, awaited, ids[i], "Prev"@, new_ref(ids[i - 1]));
        }
        grown_trans(st, s, s1);
        if k < ids.len() {
            assert(live(st.slots, ids[i + 1]));
            edit_closed(s1, awaited, ids[i], "Next"@, new_ref(ids[i + 1]));
            grown_trans(st, s1, link_siblings(st, ids, k));
        }
    }
}

proof fn chain_closed(
    env: Env,
    st: State,
    awaited: Set<nat>,
    src: nat,
    first: Option<nat>,
    parent: nat,
    depth: nat,
)
    requires
        closed(st, awaited),
        pages_awaited(env, awaited),
    ensures
        ({
            let (s, ids) = outline_chain(env, st, src, first, parent, depth);
            &&& grown(st, s)
            &&& ids.len() == 0 ==> closed(s, awaited)
            &&& ids.len() > 0 ==> closed(s, awaited.insert(parent))
            &&& forall|i: int| 0 <= i < ids.len() ==> live(s.slots, #[trigger] ids[i])
        }),
    decreases MAX_OUTLINE_DEPTH + 1 - depth, 3nat, 0nat,
{
    if depth <= MAX_OUTLINE_DEPTH {
        let items = siblings(env.docs[src as int], first, Set::empty());
        items_closed(env, st, awaited, src, items, parent, depth);
        let (s1, ids) = outline_items(env, st, src, items, parent, depth);
        let now = if ids.len() == 0 {
            awaited
        } else {
            awaited.insert(parent)
        };
        siblings_closed(s1, now, ids, ids.len());
        let s2 = link_siblings(s1, ids, ids.len());
        grown_trans(st, s1, s2);
        assert forall|i: int| 0 <= i < ids.len() implies live(s2.slots, #[trigger] ids[i]) by {
            assert(live(s1.slots, ids[i]));
        }
    }
}

pub proof fn outlines_closed(env: Env, st: State, awaited: Set<nat>, src: nat)
    requires
        closed(st, awaited),
        pages_awaited(env, awaited),
    ensures
        ({
            let (s, n) = outlines(env, st, src);
            closed(s, awaited) && grown(st, s) && (n is Some ==> settled(s, n->0))
        }),
{
    if let Some(root) = outline_root(env.docs[src as int]) {
        let n = next_id(st);
        pinned_slot_closed(st, awaited);
        let s1 = set_pin(with_slot(st), n, true);
        let first = dict_ref(root, "First"@);
        chain_closed(env, s1, awaited, src, first, n, 0);
        let (s2, kids) = outline_chain(env, s1, src, first, n, 0);
        grown_trans(st, s1, s2);
        if kids.len() == 0 {
            pin_closed(s2, awaited, n, false);
            unpinned_grown(st, s2, n);
        } else {
            let d = dict_insert(Seq::empty(), "Type"@, Obj::Name("Outlines"@));
            let more = awaited.insert(n);
            insert_leads(s2, more, Seq::empty(), "Type"@, Obj::Name("Outlines"@));
            assert forall|i: int| 0 <= i < kids.len() implies known(s2, more, #[trigger] kids[i]) by {
                assert(live(s2.slots, kids[i]));
            }
            with_kids_leads(s2, more, d, kids);
            dict_leads(s2, more, with_kids(d, kids));
            let o = Obj::Dictionary(with_kids(d, kids));
            filled(s2, awaited, n, o);
            grown_trans(st, s2, put(s2, n, o));
            assert(s1.slots[n - 1].pinned);
        }
    }
}

/// Is a child an element: neither marked content, nor a reference to it or to a whole object?
pub open spec fn is_element(item: Obj) -> bool {
    !(item is Integer) && !(item is Dictionary && (dict_is_name(item->Dictionary_0, "Type"@, "MCR"@)
        || dict_is_name(item->Dictionary_0, "Type"@, "OBJR"@)))
}

/// Are the elements of all marks there or awaited?
pub open spec fn marks_known(st: State, awaited: Set<nat>, marks: Marks) -> bool {
    forall|i: int| 0 <= i < marks.len() ==> known(st, awaited, (#[trigger] marks[i]).2)
}

proof fn marks_stay(a: State, b: State, awaited: Set<nat>, more: Set<nat>, marks: Marks)
    requires
        grown(a, b),
        marks_known(a, awaited, marks),
        awaited.subset_of(more),
    ensures
        marks_known(b, more, marks),
{
    assert forall|i: int| 0 <= i < marks.len() implies known(b, more, (#[trigger] marks[i]).2) by {
        assert(known(a, awaited, marks[i].2));
    }
}

proof fn k_value_leads(st: State, awaited: Set<nat>, kids: Seq<Obj>)
    requires
        leads(st, awaited, Obj::Array(kids)),
        kids.len() > 0,
    ensures
        leads(st, awaited, k_value(kids)),
{
    let whole = Obj::Array(kids);
    assert(whole->Array_0 == kids);
    if kids.len() == 1 {
        assert forall|m: nat| #[trigger] mentions(kids[0], m) implies known(st, awaited, m) by {
            assert(mentions(whole, m));
        }
    }
}

proof fn element_leads(
    doc: PdfDocument,
    st: State,
    awaited: Set<nat>,
    ed: Entries,
    parent: nat,
    page: Option<nat>,
    kids: Seq<Obj>,
)
    requires
        known(st, awaited, parent),
        page is Some ==> known(st, awaited, page->0),
        leads(st, awaited, Obj::Array(kids)),
        kids.len() > 0,
    ensures
        leads(st, awaited, Obj::Dictionary(element_dict(doc, ed, parent, page, kids))),
{
    let e0 = dict_insert(Seq::empty(), "Type"@, Obj::Name("StructElem"@));
    insert_leads(st, awaited, Seq::empty(), "Type"@, Obj::Name("StructElem"@));
    let d0 = dict_insert(e0, "P"@, new_ref(parent));
    insert_leads(st, awaited, e0, "P"@, new_ref(parent));
    let d1 = pick(doc, ed, seq!["S"@], d0);
    pick_leads(doc, st, awaited, ed, seq!["S"@], d0);
    let d2 = match page {
        Some(p) => dict_insert(d1, "Pg"@, new_ref(p)),
        None => d1,
    };
    if let Some(p) = page {
        insert_leads(st, awaited, d1, "Pg"@, new_ref(p));
    }
    pick_leads(doc, st, awaited, ed, element_keys(), d2);
    k_value_leads(st, awaited, kids);
    insert_leads(st, awaited, pick(doc, ed, element_keys(), d2), "K"@, k_value(kids));
    dict_leads(st, awaited, element_dict(doc, ed, parent, page, kids));
}

proof fn mark_leads(st: State, awaited: Set<nat>, page: nat, mcid: i64)
    requires
        known(st, awaited, page),
    ensures
        leads(st, awaited, mark_dict(page, mcid)),
{
    let d0 = dict_insert(Seq::empty(), "Type"@, Obj::Name("MCR"@));
    insert_leads(st, awaited, Seq::empty(), "Type"@, Obj::Name("MCR"@));
    let d1 = dict_insert(d0, "Pg"@, new_ref(page));
    insert_leads(st, awaited, d0, "Pg"@, new_ref(page));
    let d2 = dict_insert(d1, "MCID"@, Obj::Integer(mcid));
    insert_leads(st, awaited, d1, "MCID"@, Obj::Integer(mcid));
    dict_leads(st, awaited, d2);
}

proof fn kept_page_known(env: Env, st: State, awaited: Set<nat>, src: nat, d: Entries)
    requires
        pages_awaited(env, awaited),
    ensures
        kept_page(env, src, d) is Some ==> known(st, awaited, kept_page(env, src, d)->0),
{
    if let Some(id) = dict_ref(d, "Pg"@) {
        if env.pages.contains_key((src, id)) {
            assert(page_number(env, env.pages[(src, id)]));
        }
    }
}

proof fn elem_closed(
    env: Env,
    st: State,
    awaited: Set<nat>,
    marks: Marks,
    src: nat,
    item: Obj,
    parent: nat,
    depth: nat,
)
    requires
        closed(st, awaited),
        pages_awaited(env, awaited),
        marks_known(st, awaited, marks),
    ensures
        ({
            let (s, out, id) = struct_elem(env, st, marks, src, item, parent, depth);
            &&& grown(st, s)
            &&& id is None ==> closed(s, awaited) && marks_known(s, awaited, out)
            &&& id is Some ==> closed(s, awaited.insert(parent)) && marks_known(
                s,
                awaited.insert(parent),
                out,
            ) && live(s.slots, id->0)
        }),
    decreases MAX_DEPTH + 2 - depth, 0nat, 0nat,
{
    if depth <= MAX_DEPTH && annot_of(env.docs[src as int], item) is Some {
        let doc = env.docs[src as int];
        let ed = annot_of(doc, item)->0;
        let n = next_id(st);
        let page = kept_page(env, src, ed);
        let items = match dict_get(ed, "K"@) {
            Some(k) => k_items(env.docs[src as int], k),
            None => Seq::empty(),
        };
        let s0 = with_slot(st);
        slot_closed(st, awaited, s0);
        marks_stay(st, s0, awaited, awaited, marks);
        if let Some(id) = dict_ref(ed, "Pg"@) {
            if env.pages.contains_key((src, id)) {
                assert(page_number(env, env.pages[(src, id)]));
            }
        }
        elem_kids_closed(env, s0, awaited, marks, src, items, page, n, depth);
        let (s1, m1, kids) = struct_kids(env, s0, marks, src, items, page, n, depth);
        grown_trans(st, s0, s1);
        if kids.len() > 0 {
            let above = awaited.insert(parent);
            let more = above.insert(n);
            closed_more(s1, awaited.insert(n), more);
            let s2 = set_pin(s1, n, true);
            pin_closed(s1, more, n, true);
            grown_trans(st, s1, s2);
            kept_page_known(env, s2, more, src, ed);
            assert(leads(s2, more, Obj::Array(kids))) by {
                assert forall|m: nat| #[trigger] mentions(Obj::Array(kids), m) implies known(s2, more, m) by {
                    assert(known(s1, awaited.insert(n), m));
                }
            }
            element_leads(doc, s2, more, ed, parent, page, kids);
            let o = Obj::Dictionary(element_dict(doc, ed, parent, page, kids));
            filled(s2, above, n, o);
            let s3 = put(s2, n, o);
            grown_trans(st, s2, s3);
            let s4 = State { struct_elements: s3.struct_elements + 1, ..s3 };
            counted_closed(s3, above, s4);
            assert forall|i: int| 0 <= i < m1.len() implies known(s4, above, (#[trigger] m1[i]).2) by {
                assert(known(s1, awaited.insert(n), m1[i].2));
                if live(s1.slots, m1[i].2) {
                    assert(live(s2.slots, m1[i].2));
                    assert(live(s3.slots, m1[i].2));
                }
            }
        }
    }
}

proof fn elem_kids_closed(
    env: Env,
    st: State,
    awaited: Set<nat>,
    marks: Marks,
    src: nat,
    items: Seq<Obj>,
    page: Option<nat>,
    n: nat,
    depth: nat,
)
    requires
        closed(st, awaited),
        pages_awaited(env, awaited),
        marks_known(st, awaited, marks),
        page is Some ==> page_number(env, page->0),
        depth <= MAX_DEPTH,
    ensures
        ({
            let (s, out, kids) = struct_kids(env, st, marks, src, items, page, n, depth);
            &&& grown(st, s)
            &&& kids.len() == 0 ==> closed(s, awaited) && marks_known(s, awaited, out)
            &&& kids.len() > 0 ==> closed(s, awaited.insert(n)) && marks_known(s, awaited.insert(n), out)
            &&& leads(s, awaited.insert(n), Obj::Array(kids))
        }),
    decreases MAX_DEPTH + 1 - depth, 2nat, items.len(),
{
    let all = awaited.insert(n);
    if items.len() == 0 {
        let none = Obj::Array(Seq::<Obj>::empty());
        assert(none->Array_0.len() == 0);
    } else {
        let front = items.drop_last();
        elem_kids_closed(env, st, awaited, marks, src, front, page, n, depth);
        let (s1, m1, kids) = struct_kids(env, st, marks, src, front, page, n, depth);
        let now = if kids.len() == 0 {
            awaited
        } else {
            all
        };
        let item = items.last();
        let (s2, m2, kid) = struct_kid(env, s1, m1, src, item, page, n, depth);
        if is_element(item) {
            elem_closed(env, s1, now, m1, src, item, n, depth + 1);
            grown_trans(st, s1, s2);
            assert(now.insert(n) =~= all);
        } else {
            if kid is Some {
                closed_more(s1, now, all);
                marks_stay(s1, s1, now, all, m1);
                if item is Dictionary {
                    kept_page_known(env, s1, now, src, item->Dictionary_0);
                    mark_leads(
                        s1,
                        all,
                        mark_page(env, src, item->Dictionary_0, page)->0,
                        mcid_of(item->Dictionary_0)->0,
                    );
                }
            }
        }
        leads_stays(s1, s2, all, Obj::Array(kids));
        if let Some(o) = kid {
            push_leads(s2, all, kids, o);
        }
    }
}

proof fn tops_closed(env: Env, st: State, awaited: Set<nat>, src: nat, items: Seq<Obj>, root: nat)
    requires
        closed(st, awaited),
        pages_awaited(env, awaited),
    ensures
        ({
            let (s, marks, ids) = struct_tops(env, st, src, items, root);
            &&& grown(st, s)
            &&& ids.len() == 0 ==> closed(s, awaited) && marks_known(s, awaited, marks)
            &&& ids.len() > 0 ==> closed(s, awaited.insert(root)) && marks_known(
                s,
                awaited.insert(root),
                marks,
            )
            &&& forall|i: int| 0 <= i < ids.len() ==> live(s.slots, #[trigger] ids[i])
        }),
    decreases items.len(),
{
    if items.len() > 0 {
        let front = items.drop_last();
        tops_closed(env, st, awaited, src, front, root);
        let (s1, m1, ids) = struct_tops(env, st, src, front, root);
        let now = if ids.len() == 0 {
            awaited
        } else {
            awaited.insert(root)
        };
        elem_closed(env, s1, now, m1, src, items.last(), root, 0);
        let (s2, m2, id) = struct_elem(env, s1, m1, src, items.last(), root, 0);
        grown_trans(st, s1, s2);
        assert(now.insert(root) =~= awaited.insert(root));
        let out = struct_tops(env, st, src, items, root).2;
        assert forall|i: int| 0 <= i < out.len() implies live(s2.slots, #[trigger] out[i]) by {
            if i < ids.len() {
                assert(out[i] == ids[i]);
                assert(live(s1.slots, ids[i]));
            }
        }
    }
}

proof fn marks_on_known(st: State, awaited: Set<nat>, marks: Marks, page: nat)
    requires
        marks_known(st, awaited, marks),
    ensures
        forall|i: int|
            0 <= i < marks_on(marks, page).len() ==> known(st, awaited, (#[trigger] marks_on(marks, page)[i]).1),
    decreases marks.len(),
{
    if marks.len() > 0 {
        let front = marks.drop_last();
        assert(marks_known(st, awaited, front)) by {
            assert forall|i: int| 0 <= i < front.len() implies known(st, awaited, (#[trigger] front[i]).2) by {
                assert(marks[i] == front[i]);
            }
        }
        marks_on_known(st, awaited, front, page);
        let before = marks_on(front, page);
        let now = marks_on(marks, page);
        assert(marks[marks.len() - 1] == marks.last());
        assert forall|i: int| 0 <= i < now.len() implies known(st, awaited, (#[trigger] now[i]).1) by {
            if i < before.len() {
                assert(now[i] == before[i]);
            }
        }
    }
}

proof fn row_leads(st: State, awaited: Set<nat>, entries: Seq<(i64, nat)>)
    requires
        forall|i: int| 0 <= i < entries.len() ==> known(st, awaited, (#[trigger] entries[i]).1),
    ensures
        leads(st, awaited, Obj::Array(parent_row(entries))),
    decreases entries.len(),
{
    let row = parent_row(entries);
    if entries.len() == 0 {
        let none = Obj::Array(row);
        assert(none->Array_0.len() == 0);
    } else {
        let front = entries.drop_last();
        assert forall|i: int| 0 <= i < front.len() implies known(st, awaited, (#[trigger] front[i]).1) by {
            assert(entries[i] == front[i]);
        }
        row_leads(st, awaited, front);
        let before = parent_row(front);
        let whole = Obj::Array(before);
        assert(whole->Array_0 == before);
        let o = new_ref(entries.last().1);
        assert(entries[entries.len() - 1] == entries.last());
        assert(row == place(before, entries.last().0, o));
        assert forall|m: nat| #[trigger] mentions(Obj::Array(row), m) implies known(st, awaited, m) by {
            let i = choose|i: int| 0 <= i < row.len() && mentions(#[trigger] row[i], m);
            if i < before.len() && row[i] == before[i] {
                assert(mentions(before[i], m));
                assert(mentions(whole, m));
            }
        }
    }
}

proof fn nums_closed(st: State, awaited: Set<nat>, marks: Marks, pages: Seq<nat>, k: nat)
    requires
        closed(st, awaited),
        marks_known(st, awaited, marks),
        k <= pages.len(),
    ensures
        ({
            let (s, nums) = parent_nums(st, marks, pages, k);
            closed(s, awaited) && grown(st, s) && leads(s, awaited, Obj::Array(nums))
        }),
    decreases k,
{
    if k == 0 {
        let none = Obj::Array(Seq::<Obj>::empty());
        assert(none->Array_0.len() == 0);
    } else {
        nums_closed(st, awaited, marks, pages, (k - 1) as nat);
        let (s1, nums) = parent_nums(st, marks, pages, (k - 1) as nat);
        let entries = marks_on(marks, pages[k - 1]);
        if entries.len() > 0 {
            let key = Obj::Integer((nums.len() / 2) as i64);
            edit_closed(s1, awaited, pages[k - 1], "StructParents"@, key);
            let s2 = edit(s1, pages[k - 1], "StructParents"@, key);
            grown_trans(st, s1, s2);
            leads_stays(s1, s2, awaited, Obj::Array(nums));
            push_leads(s2, awaited, nums, key);
            marks_stay(st, s2, awaited, awaited, marks);
            marks_on_known(s2, awaited, marks, pages[k - 1]);
            row_leads(s2, awaited, entries);
            push_leads(s2, awaited, nums.push(key), Obj::Array(parent_row(entries)));
        }
    }
}

proof fn root_closed(
    env: Env,
    st: State,
    awaited: Set<nat>,
    marks: Marks,
    src: nat,
    source_root: Entries,
    root: nat,
    kids: Seq<nat>,
)
    requires
        closed(st, awaited.insert(root)),
        marks_known(st, awaited.insert(root), marks),
        has_slot(st, root),
        kids.len() > 0,
        forall|i: int| 0 <= i < kids.len() ==> live(st.slots, #[trigger] kids[i]),
        pages_awaited(env, awaited),
    ensures
        ({
            let s = finish_root(env, st, marks, src, source_root, root, kids);
            closed(s, awaited) && grown(st, s) && live(s.slots, root)
        }),
{
    let more = awaited.insert(root);
    nums_closed(st, more, marks, st.page_ids, st.page_ids.len());
    let (s1, nums) = parent_nums(st, marks, st.page_ids, st.page_ids.len());
    let pt = next_id(s1);
    let nd = dict_insert(Seq::empty(), "Nums"@, Obj::Array(nums));
    insert_leads(s1, more, Seq::empty(), "Nums"@, Obj::Array(nums));
    dict_leads(s1, more, nd);
    pinned_put_closed(s1, more, Obj::Dictionary(nd));
    let s2 = put(set_pin(with_slot(s1), pt, true), pt, Obj::Dictionary(nd));
    grown_trans(st, s1, s2);
    let d0 = dict_insert(Seq::empty(), "Type"@, Obj::Name("StructTreeRoot"@));
    insert_leads(s2, more, Seq::empty(), "Type"@, Obj::Name("StructTreeRoot"@));
    let d1 = dict_insert(d0, "ParentTree"@, new_ref(pt));
    insert_leads(s2, more, d0, "ParentTree"@, new_ref(pt));
    let next = Obj::Integer((nums.len() / 2) as i64);
    let d2 = dict_insert(d1, "ParentTreeNextKey"@, next);
    insert_leads(s2, more, d1, "ParentTreeNextKey"@, next);
    assert forall|i: int| 0 <= i < kids.len() implies known(s2, more, #[trigger] kids[i]) by {
        assert(live(st.slots, kids[i]));
    }
    refs_lead(s2, more, kids);
    k_value_leads(s2, more, refs(kids));
    let d3 = dict_insert(d2, "K"@, k_value(refs(kids)));
    insert_leads(s2, more, d2, "K"@, k_value(refs(kids)));
    let keys = seq!["RoleMap"@, "ClassMap"@];
    carry_closed(env, s2, more, src, source_root, keys, 1, d3);
    let (s3, d4) = carry(env, s2, src, source_root, keys, 1, d3);
    grown_trans(st, s2, s3);
    dict_leads(s3, more, d4);
    filled(s3, awaited, root, Obj::Dictionary(d4));
    grown_trans(st, s3, put(s3, root, Obj::Dictionary(d4)));
}

pub proof fn tree_closed(env: Env, st: State, awaited: Set<nat>, src: nat)
    requires
        closed(st, awaited),
        pages_awaited(env, awaited),
    ensures
        ({
            let (s, n) = struct_tree(env, st, src);
            closed(s, awaited) && grown(st, s) && (n is Some ==> settled(s, n->0))
        }),
{
    if let Some(source_root) = struct_root(env.docs[src as int]) {
        let n = next_id(st);
        pinned_slot_closed(st, awaited);
        let s1 = set_pin(with_slot(st), n, true);
        let items = match dict_get(source_root, "K"@) {
            Some(k) => k_items(env.docs[src as int], k),
            None => Seq::empty(),
        };
        tops_closed(env, s1, awaited, src, items, n);
        let (s2, marks, kids) = struct_tops(env, s1, src, items, n);
        grown_trans(st, s1, s2);
        assert(s1.slots[n - 1].pinned);
        if kids.len() == 0 {
            pin_closed(s2, awaited, n, false);
            unpinned_grown(st, s2, n);
        } else {
            root_closed(env, s2, awaited, marks, src, source_root, n, kids);
            let s3 = finish_root(env, s2, marks, src, source_root, n, kids);
            grown_trans(st, s2, s3);
            grown_trans(s1, s2, s3);
        }
    }
}

} // verus!
