//! The pages of a file are those that were chosen: each is a page object of its own, and there is no
//! other, and one node leads to them.

use vstd::prelude::*;
use crate::document::{resolve, Content, PdfDocument};
use crate::object::{
    dict_get, dict_get_insert, dict_insert, dict_ref, new_ref, obj_dict, Entries, Obj,
};
use super::acroform::{acroform, attach_kids, form_keys, kids_of};
use super::compact::{new_numbers_differ, object_under_new_number, rank_table};
use super::copy::{carry, edit, import, levels, load_or_null, refs, remap, remap_entries, remap_items};
use super::dedup::{
    any_collapsed, collapse_table, collapsed, dedup_round, dedup_slots, live, live_count,
    round_shrinks,
};
use super::dests::{catalog, sub_array};
use super::faithful::is_page;
use super::finish::{
    assemble, extra_keys, gather, gather_extras, import_info, reduce,
    set_parents, tidied, without, Parts,
};
use super::outlines::{
    link_siblings, outline_chain, outline_dest, outline_item, outline_items, outline_root, outlines, siblings,
    with_kids, entry_dict, MAX_OUTLINE_DEPTH,
};
use super::pages::{annot_of, build_page, geometry_keys, page_body, process_annots};
use super::rebuild::{build_pages, plan, planned, subset, Picks};
use super::refs::{rename, rename_entries, renumbered};
use super::relinked::{forms_linked, page_links};
use super::resources::{sub_dict, trimmed_resources};
use super::sound::page_row;
use super::strays::{is_page_object, is_pages_node, stray};
use super::struct_tree::{
    element_dict, finish_root, k_items, k_value, kept_page, marks_on, parent_nums, struct_elem, struct_kid,
    struct_kids, struct_root, struct_tops, struct_tree, Marks,
};
use super::unsigned::{same_place, unsigned, unsigned_entries};
use super::usage::all_use;
use super::whole::{
    assembled, file_objects, left_over, object_has_old_number, page_tree_stands, pages_dict_entries, parts_are_ready,
};
use super::{next_id, put, set_pin, with_slot, Cell, Env, State, SubsetOptions, MAX_DEPTH};

verus! {

/// Is the object of number `n` a page, and no signature?
pub open spec fn page_like(slots: Seq<Cell>, n: nat) -> bool {
    1 <= n <= slots.len() && match slots[n - 1].object {
        Some(Obj::Dictionary(d)) => is_page_dict(d),
        _ => false,
    }
}

/// Does the dictionary say that it is a page, and nothing of signed bytes?
pub open spec fn is_page_dict(d: Entries) -> bool {
    dict_get(d, "Type"@) == Some(Obj::Name("Page"@)) && dict_get(d, "ByteRange"@) is None
}

/// Is the object of number `n` a dictionary?
pub open spec fn dict_at(slots: Seq<Cell>, n: nat) -> bool {
    1 <= n <= slots.len() && slots[n - 1].object is Some && slots[n - 1].object->0 is Dictionary
}

/// What the dictionary of number `n` has under a key.
pub open spec fn entry_at(slots: Seq<Cell>, n: nat, key: Seq<char>) -> Option<Obj> {
    dict_get(slots[n - 1].object->0->Dictionary_0, key)
}

/// Is it a key that links an object that is already there to others?
pub open spec fn link_key(key: Seq<char>) -> bool {
    key == "Prev"@ || key == "Next"@ || key == "StructParents"@ || key == "Kids"@ || key == "Parent"@
}

/// Are the dictionaries among the first `p` objects of `a` dictionaries in `b` too, with the same
/// entries but for those that link them to others, and the pages pages?
pub open spec fn keeps_pages(p: nat, a: Seq<Cell>, b: Seq<Cell>) -> bool {
    &&& p <= a.len()
    &&& p <= b.len()
    &&& forall|n: nat| 1 <= n <= p && #[trigger] page_like(a, n) ==> page_like(b, n)
    &&& forall|n: nat| 1 <= n <= p && #[trigger] dict_at(a, n) ==> dict_at(b, n)
    &&& forall|n: nat, key: Seq<char>|
        1 <= n <= p && dict_at(a, n) && !link_key(key) ==> #[trigger] entry_at(b, n, key) == entry_at(a, n, key)
}

proof fn keeps_trans(p: nat, a: Seq<Cell>, b: Seq<Cell>, c: Seq<Cell>)
    requires
        keeps_pages(p, a, b),
        keeps_pages(p, b, c),
    ensures
        keeps_pages(p, a, c),
{
    assert forall|n: nat| 1 <= n <= p && #[trigger] page_like(a, n) implies page_like(c, n) by {
        assert(page_like(b, n));
    }
    assert forall|n: nat| 1 <= n <= p && #[trigger] dict_at(a, n) implies dict_at(c, n) by {
        assert(dict_at(b, n));
    }
    assert forall|n: nat, key: Seq<char>|
        1 <= n <= p && dict_at(a, n) && !link_key(key) implies #[trigger] entry_at(c, n, key) == entry_at(a, n, key) by {
        assert(dict_at(b, n));
        assert(entry_at(b, n, key) == entry_at(a, n, key));
    }
}

proof fn same_keeps(p: nat, a: Seq<Cell>, b: Seq<Cell>)
    requires
        p <= a.len(),
        p <= b.len(),
        forall|i: int| 0 <= i < p ==> (#[trigger] b[i]).object == a[i].object,
    ensures
        keeps_pages(p, a, b),
{
    assert forall|n: nat| 1 <= n <= p && #[trigger] page_like(a, n) implies page_like(b, n) by {
        assert(b[n - 1].object == a[n - 1].object);
    }
    assert forall|n: nat| 1 <= n <= p && #[trigger] dict_at(a, n) implies dict_at(b, n) by {
        assert(b[n - 1].object == a[n - 1].object);
    }
    assert forall|n: nat, key: Seq<char>|
        1 <= n <= p && dict_at(a, n) && !link_key(key) implies #[trigger] entry_at(b, n, key) == entry_at(a, n, key) by {
        assert(b[n - 1].object == a[n - 1].object);
    }
}

proof fn put_keeps(p: nat, st: State, n: nat, o: Obj)
    requires
        p <= st.slots.len(),
        n > p,
    ensures
        keeps_pages(p, st.slots, put(st, n, o).slots),
{
    same_keeps(p, st.slots, put(st, n, o).slots);
}

proof fn pin_keeps(p: nat, st: State, n: nat, pinned: bool)
    requires
        p <= st.slots.len(),
    ensures
        keeps_pages(p, st.slots, set_pin(st, n, pinned).slots),
{
    same_keeps(p, st.slots, set_pin(st, n, pinned).slots);
}

proof fn slot_keeps(p: nat, st: State, pinned: bool)
    requires
        p <= st.slots.len(),
    ensures
        keeps_pages(p, st.slots, with_slot(st).slots),
        keeps_pages(p, st.slots, set_pin(with_slot(st), next_id(st), pinned).slots),
{
    same_keeps(p, st.slots, with_slot(st).slots);
    same_keeps(p, st.slots, set_pin(with_slot(st), next_id(st), pinned).slots);
}

proof fn edit_keeps(p: nat, st: State, n: nat, key: Seq<char>, value: Obj)
    requires
        p <= st.slots.len(),
        link_key(key),
    ensures
        keeps_pages(p, st.slots, edit(st, n, key, value).slots),
{
    let s = edit(st, n, key, value);
    other_key(key);
    assert forall|m: nat, k: Seq<char>|
        1 <= m <= p && dict_at(st.slots, m) && !link_key(k) implies #[trigger] entry_at(s.slots, m, k) == entry_at(
        st.slots,
        m,
        k,
    ) by {
        if m == n {
            dict_get_insert(st.slots[m - 1].object->0->Dictionary_0, key, value, k);
        }
    }
    assert forall|m: nat| 1 <= m <= p && #[trigger] page_like(st.slots, m) implies page_like(s.slots, m) by {
        if m == n {
            let d = st.slots[m - 1].object->0->Dictionary_0;
            dict_get_insert(d, key, value, "Type"@);
            dict_get_insert(d, key, value, "ByteRange"@);
        }
    }
}

/// Is everything of `a` in its place in `b`?
spec fn prefix(a: State, b: State) -> bool {
    a.slots.len() <= b.slots.len() && forall|i: int| 0 <= i < a.slots.len() ==> (#[trigger] b.slots[i]) == a.slots[i]
}

proof fn import_prefix(env: Env, st: State, src: nat, id: nat, depth: nat)
    ensures
        prefix(st, import(env, st, src, id, depth).0),
    decreases levels(depth), 0nat, 0nat,
{
    if !st.ids.contains_key((src, id)) && depth <= MAX_DEPTH {
        let s1 = State { ids: st.ids.insert((src, id), next_id(st)), ..with_slot(st) };
        remap_prefix(env, s1, src, load_or_null(env.docs[src as int], id), depth + 1);
        let s2 = remap(env, s1, src, load_or_null(env.docs[src as int], id), depth + 1).0;
        let s = import(env, st, src, id, depth).0;
        assert forall|i: int| 0 <= i < st.slots.len() implies (#[trigger] s.slots[i]) == st.slots[i] by {
            assert(s2.slots[i] == s1.slots[i]);
        }
    }
}

proof fn remap_prefix(env: Env, st: State, src: nat, o: Obj, depth: nat)
    ensures
        prefix(st, remap(env, st, src, o, depth).0),
    decreases levels(depth), 1nat, 0nat,
{
    if depth <= MAX_DEPTH {
        match o {
            Obj::Reference(id, _) => {
                if !is_page(env, (src, id)) {
                    import_prefix(env, st, src, id, depth);
                }
            },
            Obj::Array(items) => {
                items_prefix(env, st, src, items, depth + 1);
            },
            Obj::Dictionary(d) => {
                entries_prefix(env, st, src, d, depth + 1);
            },
            Obj::Stream(d, _) => {
                entries_prefix(env, st, src, d, depth + 1);
            },
            _ => {},
        }
    }
}

proof fn items_prefix(env: Env, st: State, src: nat, items: Seq<Obj>, depth: nat)
    ensures
        prefix(st, remap_items(env, st, src, items, depth).0),
    decreases levels(depth), 2nat, items.len(),
{
    if items.len() > 0 {
        items_prefix(env, st, src, items.drop_last(), depth);
        let s1 = remap_items(env, st, src, items.drop_last(), depth).0;
        remap_prefix(env, s1, src, items.last(), depth);
        prefix_trans(st, s1, remap(env, s1, src, items.last(), depth).0);
    }
}

proof fn entries_prefix(env: Env, st: State, src: nat, d: Entries, depth: nat)
    ensures
        prefix(st, remap_entries(env, st, src, d, depth).0),
    decreases levels(depth), 2nat, d.len(),
{
    if d.len() > 0 {
        entries_prefix(env, st, src, d.drop_last(), depth);
        let s1 = remap_entries(env, st, src, d.drop_last(), depth).0;
        remap_prefix(env, s1, src, d.last().1, depth);
        prefix_trans(st, s1, remap(env, s1, src, d.last().1, depth).0);
    }
}

proof fn prefix_trans(a: State, b: State, c: State)
    requires
        prefix(a, b),
        prefix(b, c),
    ensures
        prefix(a, c),
{
    assert forall|i: int| 0 <= i < a.slots.len() implies (#[trigger] c.slots[i]) == a.slots[i] by {
        assert(b.slots[i] == a.slots[i]);
    }
}

proof fn prefix_keeps(p: nat, a: State, b: State)
    requires
        p <= a.slots.len(),
        prefix(a, b),
    ensures
        keeps_pages(p, a.slots, b.slots),
{
    same_keeps(p, a.slots, b.slots);
}

proof fn carry_prefix(
    env: Env,
    st: State,
    src: nat,
    from: Entries,
    keys: Seq<Seq<char>>,
    depth: nat,
    into: Entries,
)
    ensures
        prefix(st, carry(env, st, src, from, keys, depth, into).0),
    decreases keys.len(),
{
    if keys.len() > 0 {
        carry_prefix(env, st, src, from, keys.drop_last(), depth, into);
        let s1 = carry(env, st, src, from, keys.drop_last(), depth, into).0;
        if let Some(v) = dict_get(from, keys.last()) {
            remap_prefix(env, s1, src, v, depth);
            prefix_trans(st, s1, remap(env, s1, src, v, depth).0);
        }
    }
}

/// A key that is not carried over is left as it is.
pub proof fn carry_get(
    env: Env,
    st: State,
    src: nat,
    from: Entries,
    keys: Seq<Seq<char>>,
    depth: nat,
    into: Entries,
    key: Seq<char>,
)
    requires
        !keys.contains(key),
    ensures
        dict_get(carry(env, st, src, from, keys, depth, into).1, key) == dict_get(into, key),
    decreases keys.len(),
{
    if keys.len() > 0 {
        let front = keys.drop_last();
        assert(!front.contains(key)) by {
            if front.contains(key) {
                let i = choose|i: int| 0 <= i < front.len() && front[i] == key;
                assert(keys[i] == key);
            }
        }
        carry_get(env, st, src, from, front, depth, into, key);
        let (s1, out) = carry(env, st, src, from, front, depth, into);
        assert(keys[keys.len() - 1] == keys.last());
        if let Some(v) = dict_get(from, keys.last()) {
            dict_get_insert(out, keys.last(), remap(env, s1, src, v, depth).1, key);
        }
    }
}

/// The keys that are put into a page, an entry or a field are neither its type nor of signed bytes.
proof fn other_key(key: Seq<char>)
    requires
        geometry_keys().contains(key) || key == "Resources"@ || key == "Contents"@ || key == "Annots"@ || key
            == "Prev"@ || key == "Next"@ || key == "StructParents"@ || key == "Kids"@ || key == "Parent"@,
    ensures
        key != "Type"@ && key != "ByteRange"@,
{
    reveal_strlit("Type");
    reveal_strlit("ByteRange");
    reveal_strlit("MediaBox");
    reveal_strlit("CropBox");
    reveal_strlit("BleedBox");
    reveal_strlit("TrimBox");
    reveal_strlit("ArtBox");
    reveal_strlit("Rotate");
    reveal_strlit("UserUnit");
    reveal_strlit("Group");
    reveal_strlit("Resources");
    reveal_strlit("Contents");
    reveal_strlit("Annots");
    reveal_strlit("Prev");
    reveal_strlit("Next");
    reveal_strlit("StructParents");
    reveal_strlit("Kids");
    reveal_strlit("Parent");
    assert("Type"@.len() == 4 && "Type"@[0] == 'T' && "ByteRange"@.len() == 9 && "ByteRange"@[0] == 'B');
    assert("MediaBox"@.len() == 8 && "CropBox"@.len() == 7 && "BleedBox"@.len() == 8 && "TrimBox"@.len() == 7);
    assert("ArtBox"@.len() == 6 && "Rotate"@.len() == 6 && "UserUnit"@.len() == 8 && "Group"@.len() == 5);
    assert("Resources"@[0] == 'R' && "Resources"@.len() == 9);
    assert("Contents"@.len() == 8 && "Annots"@.len() == 6 && "StructParents"@.len() == 13);
    assert("Prev"@[0] == 'P' && "Prev"@.len() == 4 && "Next"@[0] == 'N' && "Next"@.len() == 4);
    assert("Kids"@[0] == 'K' && "Kids"@.len() == 4 && "Parent"@.len() == 6);
    if geometry_keys().contains(key) {
        let i = choose|i: int| 0 <= i < geometry_keys().len() && geometry_keys()[i] == key;
        assert(key == geometry_keys()[i]);
    }
}

proof fn type_is_no_range()
    ensures
        "Type"@ != "ByteRange"@,
{
    reveal_strlit("Type");
    reveal_strlit("ByteRange");
    assert("Type"@.len() == 4 && "ByteRange"@.len() == 9);
}

proof fn body_is_page(env: Env, st: State, src: nat, page: Entries, content: Content)
    ensures
        is_page_dict(page_body(env, st, src, page, content).1),
{
    type_is_no_range();
    let none: Entries = Seq::empty();
    let kind = Obj::Name("Page"@);
    let d0 = dict_insert(none, "Type"@, kind);
    dict_get_insert(none, "Type"@, kind, "Type"@);
    dict_get_insert(none, "Type"@, kind, "ByteRange"@);
    assert(dict_get(none, "ByteRange"@) is None);
    let (s1, d1) = carry(env, st, src, page, geometry_keys(), 1, d0);
    assert(!geometry_keys().contains("Type"@)) by {
        if geometry_keys().contains("Type"@) {
            other_key("Type"@);
        }
    }
    assert(!geometry_keys().contains("ByteRange"@)) by {
        if geometry_keys().contains("ByteRange"@) {
            other_key("ByteRange"@);
        }
    }
    carry_get(env, st, src, page, geometry_keys(), 1, d0, "Type"@);
    carry_get(env, st, src, page, geometry_keys(), 1, d0, "ByteRange"@);
    let (s2, d2) = match dict_get(page, "Resources"@) {
        Some(r) => match resolve(env.docs[src as int], r) {
            Some(res) => {
                let used = all_use(env.docs[src as int], res, content);
                let (s, t) = trimmed_resources(env, s1, src, res, used, 0);
                (s, dict_insert(d1, "Resources"@, t))
            },
            None => (s1, d1),
        },
        None => (s1, d1),
    };
    other_key("Resources"@);
    if let Some(r) = dict_get(page, "Resources"@) {
        if let Some(res) = resolve(env.docs[src as int], r) {
            let used = all_use(env.docs[src as int], res, content);
            let t = trimmed_resources(env, s1, src, res, used, 0).1;
            dict_get_insert(d1, "Resources"@, t, "Type"@);
            dict_get_insert(d1, "Resources"@, t, "ByteRange"@);
        }
    }
    other_key("Contents"@);
    let keys = seq!["Contents"@];
    assert(keys[0] == "Contents"@);
    carry_get(env, s2, src, page, keys, 1, d2, "Type"@);
    carry_get(env, s2, src, page, keys, 1, d2, "ByteRange"@);
}

/// Building a page makes a page of its place and leaves the others alone.
proof fn page_paged(env: Env, st: State, src: nat, page_index: nat, page_id: nat, pages: nat)
    requires
        forms_linked(st, pages),
        1 <= page_id <= pages,
        build_page(env, st, src, page_index, page_id) is Ok,
    ensures
        ({
            let s = build_page(env, st, src, page_index, page_id)->Ok_0;
            &&& forms_linked(s, pages)
            &&& pages <= s.slots.len()
            &&& forall|n: nat| 1 <= n <= pages && n != page_id && #[trigger] page_like(st.slots, n) ==> page_like(s.slots, n)
            &&& page_like(s.slots, page_id)
        }),
{
    page_links(env, st, src, page_index, page_id, pages);
    let s = build_page(env, st, src, page_index, page_id)->Ok_0;
    let doc = env.docs[src as int];
    let page = doc.page_seq()[page_index as int];
    let d = obj_dict(page.object@)->0;
    let content = page.content;
    body_is_page(env, st, src, d, content);
    let (s1, d1) = page_body(env, st, src, d, content);
    let annots = match sub_array(doc, d, "Annots"@) {
        Some(entries) => process_annots(env, s1, src, entries, page_id, page_index, Seq::empty()),
        None => Ok((s1, Seq::empty())),
    };
    let (s2, kept) = annots->Ok_0;
    other_key("Annots"@);
    dict_get_insert(d1, "Annots"@, Obj::Array(kept), "Type"@);
    dict_get_insert(d1, "Annots"@, Obj::Array(kept), "ByteRange"@);
    assert forall|n: nat| 1 <= n <= pages && #[trigger] page_like(st.slots, n) implies page_like(s.slots, n) by {
        if n != page_id {
            assert(s.slots[n - 1] == st.slots[n - 1]);
        }
    }
}

proof fn pages_paged(env: Env, st: State, picks: Picks, k: nat)
    requires
        k <= picks.len(),
        forms_linked(st, picks.len()),
        forall|n: nat| 1 <= n <= k ==> #[trigger] page_like(st.slots, n),
        build_pages(env, st, picks, k) is Ok,
    ensures
        forall|n: nat| 1 <= n <= picks.len() ==> #[trigger] page_like(build_pages(env, st, picks, k)->Ok_0.slots, n),
        picks.len() <= build_pages(env, st, picks, k)->Ok_0.slots.len(),
    decreases picks.len() - k,
{
    if k < picks.len() {
        let (src, page) = picks[k as int];
        page_paged(env, st, src, page, k + 1, picks.len());
        let s = build_page(env, st, src, page, k + 1)->Ok_0;
        assert forall|n: nat| 1 <= n <= k + 1 implies #[trigger] page_like(s.slots, n) by {
            if n <= k {
                assert(page_like(st.slots, n));
            }
        }
        pages_paged(env, s, picks, k + 1);
    }
}

proof fn siblings_keep(p: nat, st: State, ids: Seq<nat>, k: nat)
    requires
        p <= st.slots.len(),
        k <= ids.len(),
    ensures
        keeps_pages(p, st.slots, link_siblings(st, ids, k).slots),
    decreases k,
{
    if k == 0 {
        same_keeps(p, st.slots, st.slots);
    } else {
        let i = k - 1;
        siblings_keep(p, st, ids, (k - 1) as nat);
        let s = link_siblings(st, ids, (k - 1) as nat);
        other_key("Prev"@);
        other_key("Next"@);
        let s1 = if i > 0 {
            edit(s, ids[i], "Prev"@, new_ref(ids[i - 1]))
        } else {
            s
        };
        if i > 0 {
            edit_keeps(p, s, ids[i], "Prev"@, new_ref(ids[i - 1]));
            keeps_trans(p, st.slots, s.slots, s1.slots);
        }
        if k < ids.len() {
            edit_keeps(p, s1, ids[i], "Next"@, new_ref(ids[i + 1]));
            keeps_trans(p, st.slots, s1.slots, link_siblings(st, ids, k).slots);
        }
    }
}

proof fn item_keeps(p: nat, env: Env, st: State, src: nat, item: Entries, parent: nat, depth: nat)
    requires
        p <= st.slots.len(),
        depth <= MAX_OUTLINE_DEPTH,
    ensures
        keeps_pages(p, st.slots, outline_item(env, st, src, item, parent, depth).0.slots),
    decreases MAX_OUTLINE_DEPTH + 1 - depth, 1nat, 0nat,
{
    let n = next_id(st);
    slot_keeps(p, st, true);
    let s1 = set_pin(with_slot(st), n, true);
    let first = dict_ref(item, "First"@);
    chain_keeps(p, env, s1, src, first, n, depth + 1);
    let (s2, kids) = outline_chain(env, s1, src, first, n, depth + 1);
    keeps_trans(p, st.slots, s1.slots, s2.slots);
    let dest = outline_dest(env, src, item);
    if dest is None && kids.len() == 0 {
        pin_keeps(p, s2, n, false);
        keeps_trans(p, st.slots, s2.slots, set_pin(s2, n, false).slots);
    } else {
        let o = Obj::Dictionary(entry_dict(env.docs[src as int], item, parent, dest, kids));
        put_keeps(p, s2, n, o);
        keeps_trans(p, st.slots, s2.slots, put(s2, n, o).slots);
    }
}

proof fn items_keep(p: nat, env: Env, st: State, src: nat, items: Seq<Entries>, parent: nat, depth: nat)
    requires
        p <= st.slots.len(),
        depth <= MAX_OUTLINE_DEPTH,
    ensures
        keeps_pages(p, st.slots, outline_items(env, st, src, items, parent, depth).0.slots),
    decreases MAX_OUTLINE_DEPTH + 1 - depth, 2nat, items.len(),
{
    if items.len() == 0 {
        same_keeps(p, st.slots, st.slots);
    } else {
        items_keep(p, env, st, src, items.drop_last(), parent, depth);
        let s1 = outline_items(env, st, src, items.drop_last(), parent, depth).0;
        item_keeps(p, env, s1, src, items.last(), parent, depth);
        keeps_trans(p, st.slots, s1.slots, outline_item(env, s1, src, items.last(), parent, depth).0.slots);
    }
}

proof fn chain_keeps(p: nat, env: Env, st: State, src: nat, first: Option<nat>, parent: nat, depth: nat)
    requires
        p <= st.slots.len(),
    ensures
        keeps_pages(p, st.slots, outline_chain(env, st, src, first, parent, depth).0.slots),
    decreases MAX_OUTLINE_DEPTH + 1 - depth, 3nat, 0nat,
{
    if depth > MAX_OUTLINE_DEPTH {
        same_keeps(p, st.slots, st.slots);
    } else {
        let items = siblings(env.docs[src as int], first, Set::empty());
        items_keep(p, env, st, src, items, parent, depth);
        let (s1, ids) = outline_items(env, st, src, items, parent, depth);
        siblings_keep(p, s1, ids, ids.len());
        keeps_trans(p, st.slots, s1.slots, link_siblings(s1, ids, ids.len()).slots);
    }
}

proof fn outlines_keep(p: nat, env: Env, st: State, src: nat)
    requires
        p <= st.slots.len(),
    ensures
        keeps_pages(p, st.slots, outlines(env, st, src).0.slots),
{
    match outline_root(env.docs[src as int]) {
        None => {
            same_keeps(p, st.slots, st.slots);
        },
        Some(root) => {
            let n = next_id(st);
            slot_keeps(p, st, true);
            let s1 = set_pin(with_slot(st), n, true);
            let first = dict_ref(root, "First"@);
            chain_keeps(p, env, s1, src, first, n, 0);
            let (s2, kids) = outline_chain(env, s1, src, first, n, 0);
            keeps_trans(p, st.slots, s1.slots, s2.slots);
            let d = dict_insert(Seq::empty(), "Type"@, Obj::Name("Outlines"@));
            pin_keeps(p, s2, n, false);
            put_keeps(p, s2, n, Obj::Dictionary(with_kids(d, kids)));
            keeps_trans(p, st.slots, s2.slots, outlines(env, st, src).0.slots);
        },
    }
}

proof fn elem_keeps(p: nat, env: Env, st: State, marks: Marks, src: nat, item: Obj, parent: nat, depth: nat)
    requires
        p <= st.slots.len(),
    ensures
        keeps_pages(p, st.slots, struct_elem(env, st, marks, src, item, parent, depth).0.slots),
    decreases MAX_DEPTH + 2 - depth, 0nat, 0nat,
{
    if depth <= MAX_DEPTH && annot_of(env.docs[src as int], item) is Some {
        let ed = annot_of(env.docs[src as int], item)->0;
        let n = next_id(st);
        let page = kept_page(env, src, ed);
        let items = match dict_get(ed, "K"@) {
            Some(k) => k_items(env.docs[src as int], k),
            None => Seq::empty(),
        };
        slot_keeps(p, st, true);
        let s0 = with_slot(st);
        elem_kids_keep(p, env, s0, marks, src, items, page, n, depth);
        let (s1, m1, kids) = struct_kids(env, s0, marks, src, items, page, n, depth);
        keeps_trans(p, st.slots, s0.slots, s1.slots);
        if kids.len() > 0 {
            let s2 = set_pin(s1, n, true);
            pin_keeps(p, s1, n, true);
            keeps_trans(p, st.slots, s1.slots, s2.slots);
            let o = Obj::Dictionary(element_dict(env.docs[src as int], ed, parent, page, kids));
            put_keeps(p, s2, n, o);
            keeps_trans(p, st.slots, s2.slots, put(s2, n, o).slots);
        }
    } else {
        same_keeps(p, st.slots, st.slots);
    }
}

proof fn elem_kids_keep(
    p: nat,
    env: Env,
    st: State,
    marks: Marks,
    src: nat,
    items: Seq<Obj>,
    page: Option<nat>,
    n: nat,
    depth: nat,
)
    requires
        p <= st.slots.len(),
        depth <= MAX_DEPTH,
    ensures
        keeps_pages(p, st.slots, struct_kids(env, st, marks, src, items, page, n, depth).0.slots),
    decreases MAX_DEPTH + 1 - depth, 2nat, items.len(),
{
    if items.len() == 0 {
        same_keeps(p, st.slots, st.slots);
    } else {
        elem_kids_keep(p, env, st, marks, src, items.drop_last(), page, n, depth);
        let (s1, m1, kids) = struct_kids(env, st, marks, src, items.drop_last(), page, n, depth);
        let item = items.last();
        elem_keeps(p, env, s1, m1, src, item, n, depth + 1);
        same_keeps(p, s1.slots, s1.slots);
        keeps_trans(p, st.slots, s1.slots, struct_kid(env, s1, m1, src, item, page, n, depth).0.slots);
    }
}

proof fn tops_keep(p: nat, env: Env, st: State, src: nat, items: Seq<Obj>, root: nat)
    requires
        p <= st.slots.len(),
    ensures
        keeps_pages(p, st.slots, struct_tops(env, st, src, items, root).0.slots),
    decreases items.len(),
{
    if items.len() == 0 {
        same_keeps(p, st.slots, st.slots);
    } else {
        tops_keep(p, env, st, src, items.drop_last(), root);
        let (s1, m1, ids) = struct_tops(env, st, src, items.drop_last(), root);
        elem_keeps(p, env, s1, m1, src, items.last(), root, 0);
        keeps_trans(p, st.slots, s1.slots, struct_elem(env, s1, m1, src, items.last(), root, 0).0.slots);
    }
}

proof fn nums_keep(p: nat, st: State, marks: Marks, pages: Seq<nat>, k: nat)
    requires
        p <= st.slots.len(),
    ensures
        keeps_pages(p, st.slots, parent_nums(st, marks, pages, k).0.slots),
    decreases k,
{
    if k == 0 {
        same_keeps(p, st.slots, st.slots);
    } else {
        nums_keep(p, st, marks, pages, (k - 1) as nat);
        let (s1, nums) = parent_nums(st, marks, pages, (k - 1) as nat);
        if marks_on(marks, pages[k - 1]).len() > 0 {
            let key = Obj::Integer((nums.len() / 2) as i64);
            other_key("StructParents"@);
            edit_keeps(p, s1, pages[k - 1], "StructParents"@, key);
            keeps_trans(p, st.slots, s1.slots, edit(s1, pages[k - 1], "StructParents"@, key).slots);
        }
    }
}

proof fn root_keeps(
    p: nat,
    env: Env,
    st: State,
    marks: Marks,
    src: nat,
    source_root: Entries,
    root: nat,
    kids: Seq<nat>,
)
    requires
        p <= st.slots.len(),
        root > p,
    ensures
        keeps_pages(p, st.slots, finish_root(env, st, marks, src, source_root, root, kids).slots),
{
    nums_keep(p, st, marks, st.page_ids, st.page_ids.len());
    let (s1, nums) = parent_nums(st, marks, st.page_ids, st.page_ids.len());
    let pt = next_id(s1);
    slot_keeps(p, s1, true);
    let s0 = set_pin(with_slot(s1), pt, true);
    keeps_trans(p, st.slots, s1.slots, s0.slots);
    let o = Obj::Dictionary(dict_insert(Seq::empty(), "Nums"@, Obj::Array(nums)));
    let s2 = put(s0, pt, o);
    put_keeps(p, s0, pt, o);
    keeps_trans(p, st.slots, s0.slots, s2.slots);
    let d0 = dict_insert(Seq::empty(), "Type"@, Obj::Name("StructTreeRoot"@));
    let d1 = dict_insert(d0, "ParentTree"@, new_ref(pt));
    let d2 = dict_insert(d1, "ParentTreeNextKey"@, Obj::Integer((nums.len() / 2) as i64));
    let d3 = dict_insert(d2, "K"@, k_value(refs(kids)));
    let keys = seq!["RoleMap"@, "ClassMap"@];
    carry_prefix(env, s2, src, source_root, keys, 1, d3);
    let (s3, d4) = carry(env, s2, src, source_root, keys, 1, d3);
    prefix_keeps(p, s2, s3);
    keeps_trans(p, st.slots, s2.slots, s3.slots);
    put_keeps(p, s3, root, Obj::Dictionary(d4));
    keeps_trans(p, st.slots, s3.slots, put(s3, root, Obj::Dictionary(d4)).slots);
}

proof fn tree_keeps(p: nat, env: Env, st: State, src: nat)
    requires
        p <= st.slots.len(),
    ensures
        keeps_pages(p, st.slots, struct_tree(env, st, src).0.slots),
{
    match struct_root(env.docs[src as int]) {
        None => {
            same_keeps(p, st.slots, st.slots);
        },
        Some(source_root) => {
            let n = next_id(st);
            slot_keeps(p, st, true);
            let s1 = set_pin(with_slot(st), n, true);
            let items = match dict_get(source_root, "K"@) {
                Some(k) => k_items(env.docs[src as int], k),
                None => Seq::empty(),
            };
            tops_keep(p, env, s1, src, items, n);
            let (s2, marks, kids) = struct_tops(env, s1, src, items, n);
            keeps_trans(p, st.slots, s1.slots, s2.slots);
            pin_keeps(p, s2, n, false);
            root_keeps(p, env, s2, marks, src, source_root, n, kids);
            keeps_trans(p, st.slots, s2.slots, struct_tree(env, st, src).0.slots);
        },
    }
}

proof fn kids_keep(p: nat, st: State, n: nat)
    requires
        p <= st.slots.len(),
    ensures
        keeps_pages(p, st.slots, attach_kids(st, n).slots),
    decreases n,
{
    if n == 0 {
        same_keeps(p, st.slots, st.slots);
    } else {
        kids_keep(p, st, (n - 1) as nat);
        let s = attach_kids(st, (n - 1) as nat);
        let kids = kids_of(st.links, n);
        if kids.len() > 0 {
            other_key("Kids"@);
            edit_keeps(p, s, n, "Kids"@, Obj::Array(refs(kids)));
            keeps_trans(p, st.slots, s.slots, attach_kids(st, n).slots);
        }
    }
}

proof fn new_pinned_keeps(p: nat, st: State, o: Obj)
    requires
        p <= st.slots.len(),
    ensures
        keeps_pages(p, st.slots, put(set_pin(with_slot(st), next_id(st), true), next_id(st), o).slots),
{
    slot_keeps(p, st, true);
    let s = set_pin(with_slot(st), next_id(st), true);
    put_keeps(p, s, next_id(st), o);
    keeps_trans(p, st.slots, s.slots, put(s, next_id(st), o).slots);
}

proof fn form_keeps(p: nat, env: Env, st: State, src: nat)
    requires
        p <= st.slots.len(),
    ensures
        keeps_pages(p, st.slots, acroform(env, st, src).0.slots),
{
    if st.tops.len() == 0 {
        same_keeps(p, st.slots, st.slots);
    } else {
        let s1 = attach_kids(st, st.slots.len());
        kids_keep(p, st, st.slots.len());
        let af = dict_insert(Seq::empty(), "Fields"@, Obj::Array(refs(st.tops)));
        let (s2, af2) = match catalog(env.docs[src as int]) {
            Some(cat) => match sub_dict(env.docs[src as int], cat, "AcroForm"@) {
                Some(src_af) => carry(env, s1, src, src_af, form_keys(), 1, af),
                None => (s1, af),
            },
            None => (s1, af),
        };
        if let Some(cat) = catalog(env.docs[src as int]) {
            if let Some(src_af) = sub_dict(env.docs[src as int], cat, "AcroForm"@) {
                carry_prefix(env, s1, src, src_af, form_keys(), 1, af);
            }
        }
        prefix_keeps(p, s1, s2);
        keeps_trans(p, st.slots, s1.slots, s2.slots);
        new_pinned_keeps(p, s2, Obj::Dictionary(af2));
        keeps_trans(p, st.slots, s2.slots, acroform(env, st, src).0.slots);
    }
}

proof fn extras_keep(p: nat, env: Env, st: State, info: Option<nat>)
    requires
        p <= st.slots.len(),
    ensures
        keeps_pages(p, st.slots, gather_extras(env, st, info).0.slots),
{
    let (s1, d) = match catalog(env.docs[0]) {
        Some(cat) => carry(env, st, 0, cat, extra_keys(), 1, Seq::empty()),
        None => (st, Seq::empty()),
    };
    if let Some(cat) = catalog(env.docs[0]) {
        carry_prefix(env, st, 0, cat, extra_keys(), 1, Seq::empty());
    }
    prefix_keeps(p, st, s1);
    let d1 = match info {
        Some(i) => dict_insert(d, "Info"@, new_ref(i)),
        None => d,
    };
    new_pinned_keeps(p, s1, Obj::Dictionary(d1));
    keeps_trans(p, st.slots, s1.slots, gather_extras(env, st, info).0.slots);
}

/// What is gathered after the pages leaves what is there as it is, but for its links.
pub proof fn gather_keeps(p: nat, env: Env, st: State)
    requires
        p <= st.slots.len(),
    ensures
        keeps_pages(p, st.slots, gather(env, st).0.slots),
{
    let (s1, info) = import_info(env, st, 0);
    if let Some(t) = obj_dict(env.docs[0].root()) {
        if let Some(id) = dict_ref(t, "Info"@) {
            import_prefix(env, st, 0, id, 0);
        }
    }
    prefix_keeps(p, st, s1);
    let s2 = if env.opts.keep_outlines {
        outlines(env, s1, 0).0
    } else {
        s1
    };
    same_keeps(p, s1.slots, s1.slots);
    outlines_keep(p, env, s1, 0);
    keeps_trans(p, st.slots, s1.slots, s2.slots);
    let s3 = if env.opts.keep_struct_tree {
        struct_tree(env, s2, 0).0
    } else {
        s2
    };
    same_keeps(p, s2.slots, s2.slots);
    tree_keeps(p, env, s2, 0);
    keeps_trans(p, st.slots, s2.slots, s3.slots);
    let s4 = if env.opts.keep_acroform {
        acroform(env, s3, 0).0
    } else {
        s3
    };
    same_keeps(p, s3.slots, s3.slots);
    form_keeps(p, env, s3, 0);
    keeps_trans(p, st.slots, s3.slots, s4.slots);
    extras_keep(p, env, s4, info);
    keeps_trans(p, st.slots, s4.slots, gather(env, st).0.slots);
}

/// Are the first `p` objects pages that are pinned, and is no other object a page or a node?
pub open spec fn only_pages(slots: Seq<Cell>, p: nat) -> bool {
    &&& p <= slots.len()
    &&& forall|n: nat| 1 <= n <= p ==> #[trigger] page_like(slots, n) && slots[n - 1].pinned
    &&& forall|n: nat| p < n && #[trigger] live(slots, n) ==> !stray(slots[n - 1].object->0)
}

proof fn unsigned_page(d: Entries)
    requires
        is_page_dict(d),
    ensures
        unsigned(Obj::Dictionary(d)) == Obj::Dictionary(unsigned_entries(d)),
        is_page_dict(unsigned_entries(d)),
{
    let e = unsigned_entries(d);
    assert forall|i: int| 0 <= i < e.len() implies (#[trigger] e[i]).0 == d[i].0 by {}
    same_place(e, d, "Type"@);
    same_place(e, d, "ByteRange"@);
    let i = choose|i: int|
        0 <= i < e.len() && dict_get(e, "Type"@) == Some((#[trigger] e[i]).1) && dict_get(d, "Type"@) == Some(d[i].1);
    assert(e[i].1 == unsigned(d[i].1));
    reveal_strlit("Page");
    reveal_strlit("Sig");
    assert("Page"@.len() == 4 && "Sig"@.len() == 3);
}

proof fn renamed_type(d: Entries, table: Seq<nat>)
    ensures
        dict_get(rename_entries(d, table), "Type"@) == (match dict_get(d, "Type"@) {
            Some(v) => Some(rename(v, table)),
            None => None,
        }),
        is_page_dict(rename_entries(d, table)) == is_page_dict(d),
{
    let e = rename_entries(d, table);
    assert forall|i: int| 0 <= i < e.len() implies (#[trigger] e[i]).0 == d[i].0 by {}
    same_place(e, d, "Type"@);
    same_place(e, d, "ByteRange"@);
    if dict_get(d, "Type"@) is Some {
        let i = choose|i: int|
            0 <= i < e.len() && dict_get(e, "Type"@) == Some((#[trigger] e[i]).1) && dict_get(d, "Type"@) == Some(
                d[i].1,
            );
        assert(e[i].1 == rename(d[i].1, table));
    }
}

/// Turning references to other numbers makes no page and no node, and leaves those that are.
proof fn renamed_kind(o: Obj, table: Seq<nat>)
    ensures
        is_page_object(rename(o, table)) == is_page_object(o),
        is_pages_node(rename(o, table)) == is_pages_node(o),
{
    if let Obj::Dictionary(d) = o {
        renamed_type(d, table);
        if let Some(v) = dict_get(d, "Type"@) {
            assert(rename(v, table) is Name <==> v is Name);
        }
    }
}

proof fn tidied_pages(st: State, p: nat)
    requires
        st.page_ids == page_row(p),
        p <= st.slots.len(),
        forall|n: nat| 1 <= n <= p ==> #[trigger] page_like(st.slots, n) && st.slots[n - 1].pinned,
    ensures
        only_pages(tidied(st), p),
{
    let slots = tidied(st);
    assert forall|n: nat| 1 <= n <= p implies #[trigger] page_like(slots, n) && slots[n - 1].pinned by {
        assert(page_like(st.slots, n));
        unsigned_page(st.slots[n - 1].object->0->Dictionary_0);
        assert(page_row(p)[n - 1] == n);
    }
    assert forall|n: nat| p < n && #[trigger] live(slots, n) implies !stray(slots[n - 1].object->0) by {
        assert(!page_row(p).contains(n));
    }
}

proof fn dedup_pages(slots: Seq<Cell>, p: nat)
    requires
        only_pages(slots, p),
    ensures
        only_pages(dedup_slots(slots), p),
    decreases live_count(slots),
{
    if any_collapsed(slots) {
        let next = dedup_round(slots);
        let table = collapse_table(slots);
        assert forall|n: nat| 1 <= n <= p implies #[trigger] page_like(next, n) && next[n - 1].pinned by {
            assert(page_like(slots, n));
            assert(slots[n - 1].pinned);
            assert(!collapsed(slots, n));
            renamed_type(slots[n - 1].object->0->Dictionary_0, table);
        }
        assert forall|n: nat| p < n && #[trigger] live(next, n) implies !stray(next[n - 1].object->0) by {
            assert(live(slots, n));
            renamed_kind(slots[n - 1].object->0, table);
        }
        round_shrinks(slots);
        dedup_pages(next, p);
    }
}

/// Entering the page tree into the pages leaves pages what they are, and all else as it is.
pub proof fn parents_keep(p: nat, st: State, page_ids: Seq<nat>, k: nat, pages: nat)
    requires
        p <= st.slots.len(),
        k <= page_ids.len(),
        forall|i: int| 0 <= i < page_ids.len() ==> #[trigger] page_ids[i] <= p,
    ensures
        keeps_pages(p, st.slots, set_parents(st, page_ids, k, pages).slots),
        set_parents(st, page_ids, k, pages).slots.len() == st.slots.len(),
        forall|i: int|
            p <= i < st.slots.len() ==> (#[trigger] set_parents(st, page_ids, k, pages).slots[i]) == st.slots[i],
    decreases k,
{
    if k == 0 {
        same_keeps(p, st.slots, st.slots);
    } else {
        parents_keep(p, st, page_ids, (k - 1) as nat, pages);
        let s = set_parents(st, page_ids, (k - 1) as nat, pages);
        other_key("Parent"@);
        edit_keeps(p, s, page_ids[k - 1], "Parent"@, new_ref(pages));
        let t = set_parents(st, page_ids, k, pages);
        keeps_trans(p, st.slots, s.slots, t.slots);
        assert forall|i: int| p <= i < st.slots.len() implies (#[trigger] t.slots[i]) == st.slots[i] by {
            assert(s.slots[i] == st.slots[i]);
        }
    }
}

proof fn reduce_pages(env: Env, built: State, st: State, p: nat)
    requires
        forall|n: nat| 1 <= n <= p ==> #[trigger] page_like(built.slots, n),
        keeps_pages(p, built.slots, st.slots),
        reduce(env, st).page_ids == page_row(p),
        forall|i: int| 0 <= i < p ==> st.slots[(#[trigger] page_row(p)[i]) - 1].pinned,
    ensures
        only_pages(reduce(env, st).slots, p),
{
    assert forall|n: nat| 1 <= n <= p implies #[trigger] page_like(st.slots, n) && st.slots[n - 1].pinned by {
        assert(page_like(built.slots, n));
        assert(page_row(p)[n - 1] == n);
    }
    tidied_pages(st, p);
    if env.opts.dedup {
        dedup_pages(tidied(st), p);
    }
}

/// When all is gathered, the first places hold pages.
pub proof fn gathered_pages(docs: Seq<PdfDocument>, picks: Picks, opts: SubsetOptions, n: nat)
    requires
        subset(docs, picks, opts) is Ok,
        1 <= n <= picks.len(),
    ensures
        ({
            let env = plan(docs, picks, opts);
            page_like(gather(env, build_pages(env, planned(picks.len()), picks, 0)->Ok_0).0.slots, n)
        }),
{
    let env = plan(docs, picks, opts);
    let start = planned(picks.len());
    pages_paged(env, start, picks, 0);
    let built = build_pages(env, start, picks, 0)->Ok_0;
    gather_keeps(picks.len(), env, built);
    assert(page_like(built.slots, n));
}

/// What is to be assembled has pages in the first places and nowhere else.
proof fn reduced_pages(docs: Seq<PdfDocument>, picks: Picks, opts: SubsetOptions)
    requires
        subset(docs, picks, opts) is Ok,
    ensures
        ({
            let env = plan(docs, picks, opts);
            let built = build_pages(env, planned(picks.len()), picks, 0)->Ok_0;
            only_pages(reduce(env, gather(env, built).0).slots, picks.len())
        }),
{
    let env = plan(docs, picks, opts);
    let start = planned(picks.len());
    let built = build_pages(env, start, picks, 0)->Ok_0;
    let st = gather(env, built).0;
    let p = picks.len();
    assert(forall|n: nat| 1 <= n <= p ==> #[trigger] page_like(built.slots, n)) by {
        pages_paged(env, start, picks, 0);
    }
    assert(keeps_pages(p, built.slots, st.slots)) by {
        pages_paged(env, start, picks, 0);
        gather_keeps(p, env, built);
    }
    parts_are_ready(docs, picks, opts);
    reduce_pages(env, built, st, p);
}

/// Assembling makes no page, and leaves those that are.
proof fn assemble_keeps(st: State, parts: Parts, p: nat)
    requires
        only_pages(st.slots, p),
        st.page_ids == page_row(p),
        forall|i: int| 0 <= i < p ==> #[trigger] page_row(p)[i] != parts.extras,
    ensures
        ({
            let all = assemble(st, parts).0.slots;
            &&& forall|n: nat| 1 <= n <= p ==> #[trigger] page_like(all, n)
            &&& forall|n: nat| p < n <= st.slots.len() && #[trigger] live(all, n) ==> !stray(all[n - 1].object->0)
        }),
{
    let s1 = without(st, parts.extras);
    let pages = next_id(s1);
    let s3 = with_slot(with_slot(s1));
    let row = st.page_ids;
    assert forall|i: int| 0 <= i < row.len() implies #[trigger] row[i] <= p by {
        assert(page_row(p)[i] == i + 1);
    }
    parents_keep(p, s3, row, row.len(), pages);
    let s4 = set_parents(s3, row, row.len(), pages);
    let all = assemble(st, parts).0.slots;
    assert forall|n: nat| 1 <= n <= p implies #[trigger] page_like(all, n) by {
        assert(page_like(st.slots, n));
        assert(page_row(p)[n - 1] == n);
        assert(s3.slots[n - 1].object == st.slots[n - 1].object);
        assert(page_like(s3.slots, n));
        assert(page_like(s4.slots, n));
        assert(all[n - 1] == s4.slots[n - 1]);
    }
    assert forall|n: nat| p < n <= st.slots.len() && #[trigger] live(all, n) implies !stray(
        all[n - 1].object->0,
    ) by {
        assert(all[n - 1] == s4.slots[n - 1]);
        assert(s4.slots[n - 1] == s3.slots[n - 1]);
        assert(live(st.slots, n));
    }
}

/// What the objects are before those that are not reached are dropped.
proof fn assembled_kinds(docs: Seq<PdfDocument>, picks: Picks, opts: SubsetOptions, n: nat)
    requires
        subset(docs, picks, opts) is Ok,
        live(assembled(docs, picks, opts).0, n),
    ensures
        ({
            let (all, cat, _) = assembled(docs, picks, opts);
            let o = all[n - 1].object->0;
            &&& is_page_object(o) <==> n <= picks.len()
            &&& is_pages_node(o) <==> n == cat - 1
        }),
{
    let env = plan(docs, picks, opts);
    let built = build_pages(env, planned(picks.len()), picks, 0)->Ok_0;
    let (st, parts) = gather(env, built);
    let after = reduce(env, st);
    let p = picks.len();
    page_tree_stands(docs, picks, opts);
    parts_are_ready(docs, picks, opts);
    reduced_pages(docs, picks, opts);
    assert forall|i: int| 0 <= i < p implies #[trigger] page_row(p)[i] != parts.extras by {
        assert(after.page_ids[i] != parts.extras);
    }
    assemble_keeps(after, parts, p);
    let (all, cat, _) = assembled(docs, picks, opts);
    reveal_strlit("Page");
    reveal_strlit("Pages");
    reveal_strlit("Catalog");
    assert("Page"@.len() == 4 && "Pages"@.len() == 5 && "Catalog"@.len() == 7);
    if n <= p {
        assert(page_like(all, n));
    } else if n == cat - 1 {
        pages_dict_entries(page_row(p));
    }
}

proof fn numbers_differ(slots: Seq<Cell>, a: nat, b: nat)
    requires
        live(slots, a),
        live(slots, b),
    ensures
        renumbered(rank_table(slots), a) == renumbered(rank_table(slots), b) ==> a == b,
        renumbered(rank_table(slots), a) == rank_table(slots)[a - 1],
{
    object_under_new_number(slots, a);
    object_under_new_number(slots, b);
    if a < b {
        new_numbers_differ(slots, a, b);
    } else if b < a {
        new_numbers_differ(slots, b, a);
    }
}

/// The pages of the file are those that were chosen, one for each choice: an object of the file is a
/// page exactly where the page tree lists it, no two choices have the same page, and there is one
/// node of a page tree.
pub proof fn file_has_only_its_pages(docs: Seq<PdfDocument>, picks: Picks, opts: SubsetOptions)
    requires
        subset(docs, picks, opts) is Ok,
    ensures
        ({
            let objects = file_objects(docs, picks, opts);
            let table = rank_table(left_over(docs, picks, opts));
            let kids = page_row(picks.len()).map_values(|n: nat| renumbered(table, n));
            let node = renumbered(table, (assembled(docs, picks, opts).1 - 1) as nat);
            &&& kids.len() == picks.len()
            &&& kids.no_duplicates()
            &&& forall|q: nat|
                1 <= q <= objects.len() ==> (is_page_object(#[trigger] objects[q - 1]) <==> kids.contains(q))
            &&& forall|q: nat|
                1 <= q <= objects.len() ==> (is_pages_node(#[trigger] objects[q - 1]) <==> q == node)
        }),
{
    let all = assembled(docs, picks, opts).0;
    let cat = assembled(docs, picks, opts).1;
    let slots = left_over(docs, picks, opts);
    let objects = file_objects(docs, picks, opts);
    let table = rank_table(slots);
    let row = page_row(picks.len());
    let kids = row.map_values(|n: nat| renumbered(table, n));
    page_tree_stands(docs, picks, opts);
    assert forall|i: int, j: int| 0 <= i < j < kids.len() implies kids[i] != kids[j] by {
        assert(live(slots, row[i]) && live(slots, row[j]));
        numbers_differ(slots, row[i], row[j]);
    }
    assert forall|q: nat| 1 <= q <= objects.len() implies (is_page_object(#[trigger] objects[q - 1])
        <==> kids.contains(q)) && (is_pages_node(objects[q - 1]) <==> q == renumbered(table, (cat - 1) as nat)) by {
        let id = object_has_old_number(slots, q);
        assert(live(all, id));
        assembled_kinds(docs, picks, opts, id);
        renamed_kind(slots[id - 1].object->0, table);
        numbers_differ(slots, id, (cat - 1) as nat);
        if id <= picks.len() {
            assert(row[id - 1] == id);
            assert(kids[id - 1] == q);
        }
        if kids.contains(q) {
            let i = choose|i: int| 0 <= i < kids.len() && kids[i] == q;
            assert(live(slots, row[i]));
            numbers_differ(slots, row[i], id);
        }
    }
}

} // verus!
