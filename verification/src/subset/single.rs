//! What is in the file once, and what leads from the parent tree and the fields to what is below them.

use vstd::prelude::*;
use crate::document::PdfDocument;
use crate::object::{dict_get_insert, obj_dict, Entries, Obj};
use super::acroform::kids_of;
use super::alike::{alike_in_writing, alike_same_form};
use super::copy::{import, levels, load_or_null, remap, remap_entries, remap_items};
use super::faithful::{ids_placed, is_page, remap_copies, same_copy, same_entries};
use super::kept::{alone_copied_as_is, fits, stands_alone};
use super::paged::{dict_at, entry_at};
use super::rebuild::{subset, Picks};
use super::spared::has_no_parts;
use super::struct_tree::{marks_on, parent_nums, parent_row, Marks};
use super::whole::{file_has_no_duplicates, left_over};
use super::{has_slot, next_id, object_at, with_slot, Env, State, SubsetOptions, MAX_DEPTH};

verus! {

/// Nothing is written twice: where equal objects are collapsed, no two objects that may be collapsed are
/// written alike.
pub proof fn nothing_is_written_twice(docs: Seq<PdfDocument>, picks: Picks, opts: SubsetOptions, a: nat, b: nat)
    requires
        subset(docs, picks, opts) is Ok,
        opts.dedup,
        ({
            let slots = left_over(docs, picks, opts);
            &&& a != b
            &&& 1 <= a && a + 2 <= slots.len() && slots[a - 1].object is Some && !slots[a - 1].pinned
            &&& 1 <= b && b + 2 <= slots.len() && slots[b - 1].object is Some && !slots[b - 1].pinned
        }),
    ensures
        ({
            let slots = left_over(docs, picks, opts);
            &&& slots[a - 1].object->0 != slots[b - 1].object->0
            &&& !alike_in_writing(slots[a - 1].object->0, slots[b - 1].object->0)
        }),
{
    let slots = left_over(docs, picks, opts);
    file_has_no_duplicates(docs, picks, opts, a, b);
    if alike_in_writing(slots[a - 1].object->0, slots[b - 1].object->0) {
        alike_same_form(slots[a - 1].object->0, slots[b - 1].object->0);
    }
}

/// Has nothing that was added been set apart from what may be collapsed?
pub open spec fn adds_unpinned(a: State, b: State) -> bool {
    &&& a.slots.len() <= b.slots.len()
    &&& forall|i: int| 0 <= i < a.slots.len() ==> (#[trigger] b.slots[i]).pinned == a.slots[i].pinned
    &&& forall|i: int| a.slots.len() <= i < b.slots.len() ==> !(#[trigger] b.slots[i]).pinned
}

/// Copies of source objects may be collapsed.
pub proof fn copies_may_be_collapsed(env: Env, st: State, src: nat, o: Obj, depth: nat)
    ensures
        adds_unpinned(st, remap(env, st, src, o, depth).0),
    decreases levels(depth), 1nat, 0nat,
{
    if depth <= MAX_DEPTH {
        match o {
            Obj::Reference(id, _) => {
                if !is_page(env, (src, id)) {
                    import_unpinned(env, st, src, id, depth);
                }
            },
            Obj::Array(items) => {
                items_unpinned(env, st, src, items, depth + 1);
            },
            Obj::Dictionary(d) => {
                entries_unpinned(env, st, src, d, depth + 1);
            },
            Obj::Stream(d, _) => {
                entries_unpinned(env, st, src, d, depth + 1);
            },
            _ => {},
        }
    }
}

proof fn unpinned_trans(a: State, b: State, c: State)
    requires
        adds_unpinned(a, b),
        adds_unpinned(b, c),
    ensures
        adds_unpinned(a, c),
{
    assert forall|i: int| 0 <= i < a.slots.len() implies (#[trigger] c.slots[i]).pinned == a.slots[i].pinned by {
        assert(b.slots[i].pinned == a.slots[i].pinned);
    }
    assert forall|i: int| a.slots.len() <= i < c.slots.len() implies !(#[trigger] c.slots[i]).pinned by {
        if i < b.slots.len() {
            assert(!b.slots[i].pinned);
        }
    }
}

proof fn import_unpinned(env: Env, st: State, src: nat, id: nat, depth: nat)
    ensures
        adds_unpinned(st, import(env, st, src, id, depth).0),
    decreases levels(depth), 0nat, 0nat,
{
    if !st.ids.contains_key((src, id)) {
        let n = next_id(st);
        let s1 = State { ids: st.ids.insert((src, id), n), ..with_slot(st) };
        let o = load_or_null(env.docs[src as int], id);
        if depth <= MAX_DEPTH {
            copies_may_be_collapsed(env, s1, src, o, depth + 1);
            unpinned_trans(st, s1, remap(env, s1, src, o, depth + 1).0);
        }
    }
}

/// A source object that is met for the first time is copied as it is, with the copies of what it refers
/// to in place of that; one that refers to nothing is copied unchanged.
pub proof fn object_is_copied_as_it_is(env: Env, st: State, src: nat, id: nat, depth: nat, o: Obj)
    requires
        ids_placed(st),
        depth <= 255,
        !st.ids.contains_key((src, id)),
        env.docs[src as int].lookup(id) == Some(o),
    ensures
        ({
            let (s, n) = import(env, st, src, id, depth);
            &&& s.ids.contains_key((src, id)) && s.ids[(src, id)] == n
            &&& object_at(s, n) is Some
            &&& same_copy(env, s.ids, src, o, object_at(s, n)->0, depth + 1)
            &&& stands_alone(o) && fits(o, depth + 1) ==> object_at(s, n)->0 == o
        }),
{
    let n = next_id(st);
    let s1 = State { ids: st.ids.insert((src, id), n), ..with_slot(st) };
    assert forall|k: (nat, nat)| #[trigger] s1.ids.contains_key(k) implies has_slot(s1, s1.ids[k]) by {
        if k != (src, id) {
            assert(has_slot(st, st.ids[k]));
        }
    }
    remap_copies(env, s1, src, o, depth + 1);
    let (s2, c) = remap(env, s1, src, o, depth + 1);
    assert(s1.ids.contains_key((src, id)));
    if stands_alone(o) && fits(o, depth + 1) {
        alone_copied_as_is(env, s2.ids, src, o, c, depth + 1);
    }
}

/// What stands for a reference in the output: to a page that was chosen, a reference to that page; to a
/// page that was not, null; to anything else, a reference to the one copy of it.
pub proof fn references_are_replaced_by_those_to_copies(env: Env, st: State, src: nat, id: nat, gen: u16, depth: nat)
    requires
        ids_placed(st),
        depth <= 256,
    ensures
        ({
            let (s, c) = remap(env, st, src, Obj::Reference(id, gen), depth);
            &&& env.pages.contains_key((src, id)) ==> c == Obj::Reference(env.pages[(src, id)], 0) && s == st
            &&& !env.pages.contains_key((src, id)) && env.severed.contains((src, id)) ==> c == Obj::Null && s == st
            &&& !env.pages.contains_key((src, id)) && !env.severed.contains((src, id)) ==> s.ids.contains_key((src, id))
                && c == Obj::Reference(s.ids[(src, id)], 0) && (st.ids.contains_key((src, id)) ==> s == st)
        }),
{
    remap_copies(env, st, src, Obj::Reference(id, gen), depth);
}

/// A value is copied part by part: one without parts is its own copy, the copy of an array has as many
/// items, that of a dictionary or a stream the same keys in the same order, and a stream keeps its data.
pub proof fn parts_are_copied_in_place(env: Env, st: State, src: nat, o: Obj, depth: nat, i: int)
    requires
        ids_placed(st),
        depth <= 255,
    ensures
        ({
            let c = remap(env, st, src, o, depth).1;
            match o {
                Obj::Reference(_, _) => true,
                Obj::Array(items) => c matches Obj::Array(out) && out.len() == items.len() && (0 <= i < items.len()
                    && has_no_parts(items[i]) ==> out[i] == items[i]),
                Obj::Dictionary(d) => c matches Obj::Dictionary(e) && e.len() == d.len() && (0 <= i < d.len() ==> e[i].0
                    == d[i].0 && (has_no_parts(d[i].1) ==> e[i].1 == d[i].1)),
                Obj::Stream(d, data) => c matches Obj::Stream(e, kept) && kept == data && e.len() == d.len() && (0 <= i
                    < d.len() ==> e[i].0 == d[i].0 && (has_no_parts(d[i].1) ==> e[i].1 == d[i].1)),
                _ => c == o,
            }
        }),
{
    remap_copies(env, st, src, o, depth);
    let (s, c) = remap(env, st, src, o, depth);
    reveal_with_fuel(same_copy, 2);
    match o {
        Obj::Array(items) => {
            if 0 <= i < items.len() {
                assert(same_copy(env, s.ids, src, items[i], c->Array_0[i], depth + 1));
            }
        },
        Obj::Dictionary(d) => {
            assert(same_entries(env, s.ids, src, d, c->Dictionary_0, depth + 1));
            if 0 <= i < d.len() {
                assert(same_copy(env, s.ids, src, d[i].1, c->Dictionary_0[i].1, depth + 1));
            }
        },
        Obj::Stream(d, _) => {
            assert(same_entries(env, s.ids, src, d, c->Stream_0, depth + 1));
            if 0 <= i < d.len() {
                assert(same_copy(env, s.ids, src, d[i].1, c->Stream_0[i].1, depth + 1));
            }
        },
        _ => {},
    }
}

proof fn items_unpinned(env: Env, st: State, src: nat, items: Seq<Obj>, depth: nat)
    ensures
        adds_unpinned(st, remap_items(env, st, src, items, depth).0),
    decreases levels(depth), 2nat, items.len(),
{
    if items.len() > 0 {
        items_unpinned(env, st, src, items.drop_last(), depth);
        let s1 = remap_items(env, st, src, items.drop_last(), depth).0;
        copies_may_be_collapsed(env, s1, src, items.last(), depth);
        unpinned_trans(st, s1, remap(env, s1, src, items.last(), depth).0);
    }
}

proof fn entries_unpinned(env: Env, st: State, src: nat, d: Entries, depth: nat)
    ensures
        adds_unpinned(st, remap_entries(env, st, src, d, depth).0),
    decreases levels(depth), 2nat, d.len(),
{
    if d.len() > 0 {
        entries_unpinned(env, st, src, d.drop_last(), depth);
        let s1 = remap_entries(env, st, src, d.drop_last(), depth).0;
        copies_may_be_collapsed(env, s1, src, d.last().1, depth);
        unpinned_trans(st, s1, remap(env, s1, src, d.last().1, depth).0);
    }
}

/// The kids of a field are those that were entered below it, in that order: one more that is entered
/// below it comes last, and one below another field changes nothing.
pub proof fn kids_are_those_entered(links: Seq<(nat, nat)>, field: nat, kid: nat, other: nat)
    ensures
        kids_of(Seq::empty(), field).len() == 0,
        kids_of(links.push((field, kid)), field) == kids_of(links, field).push(kid),
        other != field ==> kids_of(links.push((other, kid)), field) == kids_of(links, field),
{
    assert(links.push((field, kid)).drop_last() =~= links);
    assert(links.push((other, kid)).drop_last() =~= links);
}

/// The marks on a page are those entered for it, in that order.
pub proof fn marks_are_those_entered(marks: Marks, page: nat, other: nat, mcid: i64, elem: nat)
    ensures
        marks_on(Seq::empty(), page).len() == 0,
        marks_on(marks.push((page, mcid, elem)), page) == marks_on(marks, page).push((mcid, elem)),
        other != page ==> marks_on(marks.push((other, mcid, elem)), page) == marks_on(marks, page),
{
    assert(marks.push((page, mcid, elem)).drop_last() =~= marks);
    assert(marks.push((other, mcid, elem)).drop_last() =~= marks);
}

/// Does the parent tree have, under the key that the page states, the row of the marks on the page?
pub open spec fn row_stands(st: State, marks: Marks, nums: Seq<Obj>, page: nat) -> bool {
    exists|i: int|
        0 <= i && 2 * i + 1 < nums.len() && #[trigger] nums[2 * i] == Obj::Integer(i as i64) && nums[2 * i + 1]
            == Obj::Array(parent_row(marks_on(marks, page))) && (dict_at(st.slots, page) ==> entry_at(
            st.slots,
            page,
            "StructParents"@,
        ) == Some(Obj::Integer(i as i64)))
}

/// The parent tree has a row for each page on which there are marks, under the key that the page states,
/// and the keys count up from zero.
pub proof fn parent_tree_has_a_row_for_each_page(st: State, marks: Marks, pages: Seq<nat>, k: nat, j: int)
    requires
        k <= pages.len(),
        pages.no_duplicates(),
    ensures
        ({
            let (s, nums) = parent_nums(st, marks, pages, k);
            &&& nums.len() % 2 == 0
            &&& s.slots.len() == st.slots.len()
            &&& forall|i: int| 0 <= i && 2 * i + 1 < nums.len() ==> #[trigger] nums[2 * i] == Obj::Integer(i as i64)
            &&& 0 <= j < k && marks_on(marks, pages[j]).len() > 0 ==> row_stands(s, marks, nums, pages[j])
        }),
    decreases k,
{
    if k > 0 {
        let front = (k - 1) as nat;
        parent_tree_has_a_row_for_each_page(st, marks, pages, front, j);
        let (s1, nums) = parent_nums(st, marks, pages, front);
        let (s, all) = parent_nums(st, marks, pages, k);
        let page = pages[k - 1];
        let entries = marks_on(marks, page);
        if entries.len() > 0 {
            let key = Obj::Integer((nums.len() / 2) as i64);
            let at = nums.len() / 2;
            assert(2 * at == nums.len());
            assert forall|i: int| 0 <= i && 2 * i + 1 < all.len() implies #[trigger] all[2 * i] == Obj::Integer(
                i as i64,
            ) by {
                if 2 * i + 1 < nums.len() {
                    assert(nums[2 * i] == all[2 * i]);
                }
            }
            if dict_at(s1.slots, page) {
                dict_get_insert(s1.slots[page - 1].object->0->Dictionary_0, "StructParents"@, key, "StructParents"@);
            }
            if 0 <= j < k && marks_on(marks, pages[j]).len() > 0 {
                if j == k - 1 {
                    assert(all[2 * at as int] == Obj::Integer(at as i64));
                } else {
                    let i = choose|i: int|
                        0 <= i && 2 * i + 1 < nums.len() && #[trigger] nums[2 * i] == Obj::Integer(i as i64) && nums[2 * i
                            + 1] == Obj::Array(parent_row(marks_on(marks, pages[j]))) && (dict_at(s1.slots, pages[j])
                            ==> entry_at(s1.slots, pages[j], "StructParents"@) == Some(Obj::Integer(i as i64)));
                    assert(all[2 * i] == nums[2 * i] && all[2 * i + 1] == nums[2 * i + 1]);
                    assert(pages[j] != page);
                    assert(s.slots[pages[j] - 1] == s1.slots[pages[j] - 1] || !dict_at(s.slots, pages[j]));
                }
            }
        }
    }
}

/// The dictionary of a stream counts as a dictionary, as one that stands alone does; nothing else has
/// one.
pub proof fn what_has_a_dictionary(d: Entries, data: Seq<u8>, o: Obj)
    ensures
        obj_dict(Obj::Dictionary(d)) == Some(d),
        obj_dict(Obj::Stream(d, data)) == Some(d),
        !(o is Dictionary) && !(o is Stream) ==> obj_dict(o) is None,
{
}

} // verus!
