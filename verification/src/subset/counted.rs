//! The counts of the report: how many outline entries and structure elements are kept.

use vstd::prelude::*;
use crate::object::{dict_get, dict_ref, Entries, Obj};
use super::outlines::{
    entry_kept_iff, entry_survives, link_siblings, outline_chain, outline_item, outline_items,
    siblings, MAX_OUTLINE_DEPTH,
};
use super::pages::annot_of;
use super::struct_tree::{
    elem_kept_iff, elem_survives, is_content, k_items, kept_page, struct_elem, struct_kid, struct_kids, Marks,
};
use super::{next_id, set_pin, with_slot, Env, State, MAX_DEPTH};

verus! {

/// How many entries survive among an outline entry and those below it.
pub open spec fn entry_count(env: Env, src: nat, item: Entries, depth: nat) -> nat
    decreases MAX_OUTLINE_DEPTH + 1 - depth, 0nat, 0nat,
    when depth <= MAX_OUTLINE_DEPTH
{
    let below = chain_count(
        env,
        src,
        siblings(env.docs[src as int], dict_ref(item, "First"@), Set::empty()),
        depth + 1,
    );
    if entry_survives(env, src, item, depth) {
        below + 1
    } else {
        below
    }
}

/// How many entries survive among the given outline entries and those below them.
pub open spec fn chain_count(env: Env, src: nat, items: Seq<Entries>, depth: nat) -> nat
    decreases MAX_OUTLINE_DEPTH + 1 - depth, 1nat, items.len(),
{
    if depth > MAX_OUTLINE_DEPTH || items.len() == 0 {
        0
    } else {
        chain_count(env, src, items.drop_last(), depth) + entry_count(env, src, items.last(), depth)
    }
}

proof fn linking_counts_none(st: State, ids: Seq<nat>, k: nat)
    ensures
        link_siblings(st, ids, k).outline_entries == st.outline_entries,
    decreases k,
{
    if k > 0 {
        linking_counts_none(st, ids, (k - 1) as nat);
    }
}

proof fn entry_counted(env: Env, st: State, src: nat, item: Entries, parent: nat, depth: nat)
    requires
        depth <= MAX_OUTLINE_DEPTH,
    ensures
        outline_item(env, st, src, item, parent, depth).0.outline_entries == st.outline_entries + entry_count(
            env,
            src,
            item,
            depth,
        ),
    decreases MAX_OUTLINE_DEPTH + 1 - depth, 1nat, 0nat,
{
    let n = next_id(st);
    let s1 = set_pin(with_slot(st), n, true);
    chain_counted(env, s1, src, dict_ref(item, "First"@), n, depth + 1);
    entry_kept_iff(env, st, src, item, parent, depth);
}

proof fn entries_counted(env: Env, st: State, src: nat, items: Seq<Entries>, parent: nat, depth: nat)
    requires
        depth <= MAX_OUTLINE_DEPTH,
    ensures
        outline_items(env, st, src, items, parent, depth).0.outline_entries == st.outline_entries + chain_count(
            env,
            src,
            items,
            depth,
        ),
    decreases MAX_OUTLINE_DEPTH + 1 - depth, 2nat, items.len(),
{
    if items.len() > 0 {
        entries_counted(env, st, src, items.drop_last(), parent, depth);
        let s1 = outline_items(env, st, src, items.drop_last(), parent, depth).0;
        entry_counted(env, s1, src, items.last(), parent, depth);
    }
}

/// Building a chain of outline entries counts each entry that is kept, in the chain and below it.
pub proof fn chain_counted(env: Env, st: State, src: nat, first: Option<nat>, parent: nat, depth: nat)
    ensures
        outline_chain(env, st, src, first, parent, depth).0.outline_entries == st.outline_entries + chain_count(
            env,
            src,
            siblings(env.docs[src as int], first, Set::empty()),
            depth,
        ),
    decreases MAX_OUTLINE_DEPTH + 1 - depth, 3nat, 0nat,
{
    if depth <= MAX_OUTLINE_DEPTH {
        let items = siblings(env.docs[src as int], first, Set::empty());
        entries_counted(env, st, src, items, parent, depth);
        let (s1, ids) = outline_items(env, st, src, items, parent, depth);
        linking_counts_none(s1, ids, ids.len());
    }
}

/// The outline entries of a chain that are kept come in the order of the source.
pub proof fn chain_in_order(env: Env, st: State, src: nat, items: Seq<Entries>, parent: nat, depth: nat, k: nat)
    requires
        depth <= MAX_OUTLINE_DEPTH,
        k <= items.len(),
    ensures
        ({
            let front = outline_items(env, st, src, items.take(k as int), parent, depth).1;
            let all = outline_items(env, st, src, items, parent, depth).1;
            &&& front.len() <= all.len()
            &&& all.take(front.len() as int) == front
            &&& k > 0 && entry_survives(env, src, items[k - 1], depth) ==> front.len() == outline_items(
                env,
                st,
                src,
                items.take(k - 1),
                parent,
                depth,
            ).1.len() + 1
        }),
    decreases items.len() - k,
{
    let t = items.take(k as int);
    let front = outline_items(env, st, src, t, parent, depth).1;
    if k > 0 {
        assert(t.drop_last() =~= items.take(k - 1));
        assert(t.last() == items[k - 1]);
        let s1 = outline_items(env, st, src, items.take(k - 1), parent, depth).0;
        entry_kept_iff(env, s1, src, items[k - 1], parent, depth);
    }
    if k == items.len() {
        assert(t =~= items);
        assert(front.take(front.len() as int) =~= front);
    } else {
        chain_in_order(env, st, src, items, parent, depth, k + 1);
        let next = items.take(k as int + 1);
        assert(next.drop_last() =~= t);
        let more = outline_items(env, st, src, next, parent, depth).1;
        let all = outline_items(env, st, src, items, parent, depth).1;
        assert(more.take(front.len() as int) =~= front);
        assert(all.take(front.len() as int) =~= all.take(more.len() as int).take(front.len() as int));
    }
}

/// How many structure elements survive among an element and those below it.
pub open spec fn elem_count(env: Env, src: nat, item: Obj, depth: nat) -> nat
    decreases MAX_DEPTH + 2 - depth, 0nat, 0nat,
{
    if depth > MAX_DEPTH {
        0
    } else {
        match annot_of(env.docs[src as int], item) {
            None => 0,
            Some(ed) => {
                let items = match dict_get(ed, "K"@) {
                    Some(k) => k_items(env.docs[src as int], k),
                    None => Seq::empty(),
                };
                let below = kids_count(env, src, items, depth);
                if elem_survives(env, src, item, depth) {
                    below + 1
                } else {
                    below
                }
            },
        }
    }
}

/// How many structure elements survive among the given children and those below them.
pub open spec fn kids_count(env: Env, src: nat, items: Seq<Obj>, depth: nat) -> nat
    decreases MAX_DEPTH + 1 - depth, 1nat, items.len(),
    when depth <= MAX_DEPTH
{
    if items.len() == 0 {
        0
    } else {
        let front = kids_count(env, src, items.drop_last(), depth);
        if is_content(items.last()) {
            front
        } else {
            front + elem_count(env, src, items.last(), depth + 1)
        }
    }
}

/// Copying a structure element counts each element that is kept, itself and those below it.
pub proof fn elem_counted(env: Env, st: State, marks: Marks, src: nat, item: Obj, parent: nat, depth: nat)
    ensures
        struct_elem(env, st, marks, src, item, parent, depth).0.struct_elements == st.struct_elements
            + elem_count(env, src, item, depth),
    decreases MAX_DEPTH + 2 - depth, 0nat, 0nat,
{
    if depth <= MAX_DEPTH && annot_of(env.docs[src as int], item) is Some {
        let ed = annot_of(env.docs[src as int], item)->0;
        let items = match dict_get(ed, "K"@) {
            Some(k) => k_items(env.docs[src as int], k),
            None => Seq::empty(),
        };
        kids_counted(env, with_slot(st), marks, src, items, kept_page(env, src, ed), next_id(st), depth);
        elem_kept_iff(env, st, marks, src, item, parent, depth);
    }
}

proof fn kids_counted(
    env: Env,
    st: State,
    marks: Marks,
    src: nat,
    items: Seq<Obj>,
    page: Option<nat>,
    n: nat,
    depth: nat,
)
    requires
        depth <= MAX_DEPTH,
    ensures
        struct_kids(env, st, marks, src, items, page, n, depth).0.struct_elements == st.struct_elements
            + kids_count(env, src, items, depth),
    decreases MAX_DEPTH + 1 - depth, 2nat, items.len(),
{
    if items.len() > 0 {
        kids_counted(env, st, marks, src, items.drop_last(), page, n, depth);
        let (s1, m1, _) = struct_kids(env, st, marks, src, items.drop_last(), page, n, depth);
        let item = items.last();
        if !is_content(item) {
            elem_counted(env, s1, m1, src, item, n, depth + 1);
        }
        assert(struct_kid(env, s1, m1, src, item, page, n, depth).0.struct_elements == s1.struct_elements + (
        if is_content(item) {
            0
        } else {
            elem_count(env, src, item, depth + 1)
        }));
    }
}

} // verus!
