//! The outline is a tree of chains: of each chain of the source the entries that survive are there, in
//! order, each linked to its neighbours, to the entry above it and to the chain below it.

use vstd::prelude::*;
use crate::object::{dict_ref, Entries, Obj};
use super::outlines::{
    entry_dict, entry_kept_iff, entry_survives, link_siblings, linked_entry, outline_chain, outline_dest,
    outline_item, outline_items, siblings, siblings_edited, MAX_OUTLINE_DEPTH,
};
use super::{next_id, object_at, set_pin, with_slot, Env, State};

verus! {

/// The entries that survive, in order.
pub open spec fn survivors(env: Env, src: nat, items: Seq<Entries>, depth: nat) -> Seq<Entries>
    decreases items.len(),
{
    if items.len() == 0 {
        Seq::empty()
    } else if entry_survives(env, src, items.last(), depth) {
        survivors(env, src, items.drop_last(), depth).push(items.last())
    } else {
        survivors(env, src, items.drop_last(), depth)
    }
}

/// The entries below an entry.
pub open spec fn below(env: Env, src: nat, item: Entries) -> Seq<Entries> {
    siblings(env.docs[src as int], dict_ref(item, "First"@), Set::empty())
}

/// The last number that what is below the entry at position `i` may have.
pub open spec fn last_below(ids: Seq<nat>, i: int, last: nat) -> nat {
    if i + 1 < ids.len() {
        (ids[i + 1] - 1) as nat
    } else {
        last
    }
}

/// Are `ids` the entries of a chain below `parent`, made of those of `items` that survive? Their numbers,
/// and those of what is below them, count up behind that of `parent` and go no further than `last`.
pub open spec fn is_chain(
    env: Env,
    st: State,
    src: nat,
    ids: Seq<nat>,
    items: Seq<Entries>,
    parent: nat,
    last: nat,
    depth: nat,
) -> bool
    decreases MAX_OUTLINE_DEPTH + 1 - depth, 1nat,
{
    if depth > MAX_OUTLINE_DEPTH {
        ids.len() == 0
    } else {
        let kept = survivors(env, src, items, depth);
        &&& ids.len() == kept.len()
        &&& forall|i: int| 0 <= i < ids.len() ==> parent < #[trigger] ids[i] <= last
        &&& forall|i: int, j: int| 0 <= i < j < ids.len() ==> #[trigger] ids[i] < #[trigger] ids[j]
        &&& forall|i: int|
            0 <= i < ids.len() ==> is_entry(
                env,
                st,
                src,
                #[trigger] ids[i],
                kept[i],
                parent,
                last_below(ids, i, last),
                Some((ids, i)),
                depth,
            )
    }
}

/// The dictionary of an entry, linked to its neighbours where its place in its chain is given.
pub open spec fn placed(d: Entries, place: Option<(Seq<nat>, int)>) -> Entries {
    match place {
        Some((ids, i)) => linked_entry(d, ids, i),
        None => d,
    }
}

/// Is `id` the entry for `item` below `parent`, with the chain of what survives below it, and linked to its
/// neighbours where its place in its chain is given?
pub open spec fn is_entry(
    env: Env,
    st: State,
    src: nat,
    id: nat,
    item: Entries,
    parent: nat,
    last: nat,
    place: Option<(Seq<nat>, int)>,
    depth: nat,
) -> bool
    decreases MAX_OUTLINE_DEPTH + 1 - depth, 0nat,
{
    depth <= MAX_OUTLINE_DEPTH && exists|kids: Seq<nat>|
        #[trigger] holds_entry(env, st, src, id, item, parent, place, kids) && is_chain(
            env,
            st,
            src,
            kids,
            below(env, src, item),
            id,
            last,
            depth + 1,
        )
}

/// Does `id` hold the dictionary of the entry for `item`, with the given kids?
pub open spec fn holds_entry(
    env: Env,
    st: State,
    src: nat,
    id: nat,
    item: Entries,
    parent: nat,
    place: Option<(Seq<nat>, int)>,
    kids: Seq<nat>,
) -> bool {
    object_at(st, id) == Some(
        Obj::Dictionary(
            placed(entry_dict(env.docs[src as int], item, parent, outline_dest(env, src, item), kids), place),
        ),
    )
}

/// Are the objects behind `from`, up to `last`, the same in both states?
spec fn same_between(a: State, b: State, from: nat, last: nat) -> bool {
    forall|n: nat| from < n <= last ==> #[trigger] object_at(b, n) == object_at(a, n)
}

proof fn chain_stays(
    env: Env,
    a: State,
    b: State,
    src: nat,
    ids: Seq<nat>,
    items: Seq<Entries>,
    parent: nat,
    last: nat,
    further: nat,
    depth: nat,
)
    requires
        is_chain(env, a, src, ids, items, parent, last, depth),
        same_between(a, b, parent, last),
        last <= further,
    ensures
        is_chain(env, b, src, ids, items, parent, further, depth),
    decreases MAX_OUTLINE_DEPTH + 1 - depth, 1nat,
{
    if depth <= MAX_OUTLINE_DEPTH {
        let kept = survivors(env, src, items, depth);
        assert forall|i: int| 0 <= i < ids.len() implies is_entry(
            env,
            b,
            src,
            #[trigger] ids[i],
            kept[i],
            parent,
            last_below(ids, i, further),
            Some((ids, i)),
            depth,
        ) by {
            let end = last_below(ids, i, last);
            assert(parent < ids[i] <= last);
            if i + 1 < ids.len() {
                assert(ids[i] < ids[i + 1]);
                assert(ids[i + 1] <= last);
            }
            assert forall|n: nat| ids[i] < n <= end implies #[trigger] object_at(b, n) == object_at(a, n) by {}
            assert(object_at(b, ids[i]) == object_at(a, ids[i]));
            entry_stays(
                env,
                a,
                b,
                src,
                ids[i],
                kept[i],
                parent,
                end,
                last_below(ids, i, further),
                Some((ids, i)),
                depth,
            );
        }
    }
}

proof fn entry_stays(
    env: Env,
    a: State,
    b: State,
    src: nat,
    id: nat,
    item: Entries,
    parent: nat,
    last: nat,
    further: nat,
    place: Option<(Seq<nat>, int)>,
    depth: nat,
)
    requires
        is_entry(env, a, src, id, item, parent, last, place, depth),
        object_at(b, id) == object_at(a, id),
        same_between(a, b, id, last),
        last <= further,
    ensures
        is_entry(env, b, src, id, item, parent, further, place, depth),
    decreases MAX_OUTLINE_DEPTH + 1 - depth, 0nat,
{
    let kids = choose|kids: Seq<nat>|
        #[trigger] holds_entry(env, a, src, id, item, parent, place, kids) && is_chain(
            env,
            a,
            src,
            kids,
            below(env, src, item),
            id,
            last,
            depth + 1,
        );
    chain_stays(env, a, b, src, kids, below(env, src, item), id, last, further, depth + 1);
    assert(holds_entry(env, b, src, id, item, parent, place, kids));
}

proof fn links_elsewhere(st: State, ids: Seq<nat>, k: nat, n: nat)
    requires
        k <= ids.len(),
        !ids.contains(n),
    ensures
        object_at(link_siblings(st, ids, k), n) == object_at(st, n),
        link_siblings(st, ids, k).slots.len() == st.slots.len(),
    decreases k,
{
    if k > 0 {
        links_elsewhere(st, ids, (k - 1) as nat, n);
        assert(ids.contains(ids[k - 1]));
    }
}

/// An entry that is built leaves what was there, and is the entry for its item.
proof fn item_chained(env: Env, st: State, src: nat, item: Entries, parent: nat, depth: nat)
    requires
        depth <= MAX_OUTLINE_DEPTH,
    ensures
        ({
            let (s, id) = outline_item(env, st, src, item, parent, depth);
            &&& st.slots.len() <= s.slots.len()
            &&& same_between(st, s, 0, st.slots.len())
            &&& id matches Some(n) ==> n == next_id(st) <= s.slots.len() && is_entry(
                env,
                s,
                src,
                n,
                item,
                parent,
                s.slots.len(),
                None,
                depth,
            )
            &&& id is Some <==> entry_survives(env, src, item, depth)
        }),
    decreases MAX_OUTLINE_DEPTH + 1 - depth, 1nat, 0nat,
{
    entry_kept_iff(env, st, src, item, parent, depth);
    let n = next_id(st);
    let s1 = set_pin(with_slot(st), n, true);
    let first = dict_ref(item, "First"@);
    chain_is_chain(env, s1, src, first, n, depth + 1);
    let (s2, kids) = outline_chain(env, s1, src, first, n, depth + 1);
    let (s, id) = outline_item(env, st, src, item, parent, depth);
    assert forall|m: nat| 0 < m <= st.slots.len() implies #[trigger] object_at(s, m) == object_at(st, m) by {
        assert(object_at(s1, m) == object_at(st, m));
        assert(object_at(s2, m) == object_at(s1, m));
    }
    if id is Some {
        let last = s2.slots.len();
        assert forall|m: nat| n < m <= last implies #[trigger] object_at(s, m) == object_at(s2, m) by {}
        chain_stays(env, s2, s, src, kids, below(env, src, item), n, last, last, depth + 1);
        assert(holds_entry(env, s, src, n, item, parent, None, kids));
    }
}

/// Are the entries there for the items that survive, before they are linked?
spec fn are_entries(
    env: Env,
    st: State,
    src: nat,
    ids: Seq<nat>,
    kept: Seq<Entries>,
    parent: nat,
    from: nat,
    depth: nat,
) -> bool {
    &&& ids.len() == kept.len()
    &&& forall|i: int| 0 <= i < ids.len() ==> from < #[trigger] ids[i] <= st.slots.len()
    &&& forall|i: int, j: int| 0 <= i < j < ids.len() ==> #[trigger] ids[i] < #[trigger] ids[j]
    &&& forall|i: int|
        0 <= i < ids.len() ==> is_entry(
            env,
            st,
            src,
            #[trigger] ids[i],
            kept[i],
            parent,
            last_below(ids, i, st.slots.len()),
            None,
            depth,
        )
}

proof fn items_chained(env: Env, st: State, src: nat, items: Seq<Entries>, parent: nat, depth: nat)
    requires
        depth <= MAX_OUTLINE_DEPTH,
    ensures
        ({
            let (s, ids) = outline_items(env, st, src, items, parent, depth);
            &&& st.slots.len() <= s.slots.len()
            &&& same_between(st, s, 0, st.slots.len())
            &&& are_entries(env, s, src, ids, survivors(env, src, items, depth), parent, st.slots.len(), depth)
        }),
    decreases MAX_OUTLINE_DEPTH + 1 - depth, 2nat, items.len(),
{
    if items.len() > 0 {
        let front = items.drop_last();
        items_chained(env, st, src, front, parent, depth);
        let (s1, old) = outline_items(env, st, src, front, parent, depth);
        item_chained(env, s1, src, items.last(), parent, depth);
        let (s, id) = outline_item(env, s1, src, items.last(), parent, depth);
        let ids = outline_items(env, st, src, items, parent, depth).1;
        let kept = survivors(env, src, items, depth);
        let was = survivors(env, src, front, depth);
        let end = s1.slots.len();
        assert forall|m: nat| 0 < m <= st.slots.len() implies #[trigger] object_at(s, m) == object_at(st, m) by {
            assert(object_at(s1, m) == object_at(st, m));
        }
        assert forall|i: int| 0 <= i < ids.len() implies is_entry(
            env,
            s,
            src,
            #[trigger] ids[i],
            kept[i],
            parent,
            last_below(ids, i, s.slots.len()),
            None,
            depth,
        ) by {
            if i < old.len() {
                assert(ids[i] == old[i] && kept[i] == was[i]);
                let upto = last_below(old, i, end);
                if i + 1 < old.len() {
                    assert(old[i] < old[i + 1]);
                    assert(ids[i + 1] == old[i + 1]);
                }
                assert(upto <= end);
                assert forall|m: nat| ids[i] < m <= upto implies #[trigger] object_at(s, m) == object_at(
                    s1,
                    m,
                ) by {}
                entry_stays(
                    env,
                    s1,
                    s,
                    src,
                    ids[i],
                    kept[i],
                    parent,
                    upto,
                    last_below(ids, i, s.slots.len()),
                    None,
                    depth,
                );
            }
        }
    }
}

proof fn entry_linked(
    env: Env,
    st: State,
    src: nat,
    ids: Seq<nat>,
    kept: Seq<Entries>,
    parent: nat,
    from: nat,
    depth: nat,
    i: int,
)
    requires
        are_entries(env, st, src, ids, kept, parent, from, depth),
        0 <= i < ids.len(),
    ensures
        is_entry(
            env,
            link_siblings(st, ids, ids.len()),
            src,
            ids[i],
            kept[i],
            parent,
            last_below(ids, i, st.slots.len()),
            Some((ids, i)),
            depth,
        ),
{
    let s = link_siblings(st, ids, ids.len());
    let item = kept[i];
    let last = last_below(ids, i, st.slots.len());
    assert forall|j: int| 0 <= j < ids.len() implies (object_at(st, #[trigger] ids[j]) matches Some(
        Obj::Dictionary(_),
    )) by {
        assert(is_entry(env, st, src, ids[j], kept[j], parent, last_below(ids, j, st.slots.len()), None, depth));
    }
    assert forall|j: int, m: int| 0 <= j < m < ids.len() implies #[trigger] ids[j] != #[trigger] ids[m] by {}
    siblings_edited(st, ids, ids.len(), i);
    assert(is_entry(env, st, src, ids[i], item, parent, last, None, depth));
    let kids = choose|kids: Seq<nat>|
        #[trigger] holds_entry(env, st, src, ids[i], item, parent, None, kids) && is_chain(
            env,
            st,
            src,
            kids,
            below(env, src, item),
            ids[i],
            last,
            depth + 1,
        );
    assert forall|n: nat| ids[i] < n <= last implies #[trigger] object_at(s, n) == object_at(st, n) by {
        assert(!ids.contains(n)) by {
            if ids.contains(n) {
                let j = choose|j: int| 0 <= j < ids.len() && ids[j] == n;
                assert(ids[j] > ids[i]);
                if j > i + 1 {
                    assert(ids[i + 1] < ids[j]);
                }
            }
        }
        links_elsewhere(st, ids, ids.len(), n);
    }
    chain_stays(env, st, s, src, kids, below(env, src, item), ids[i], last, last, depth + 1);
    assert(holds_entry(env, s, src, ids[i], item, parent, Some((ids, i)), kids));
}

/// Building a chain leaves what was there, and gives the chain of what survives: distinct entries in the
/// order of the source, each below `parent` with the title and the colour of its source, linked to its
/// neighbours, and with the chain of what survives below it.
pub proof fn chain_is_chain(env: Env, st: State, src: nat, first: Option<nat>, parent: nat, depth: nat)
    requires
        parent <= st.slots.len(),
    ensures
        ({
            let (s, ids) = outline_chain(env, st, src, first, parent, depth);
            let items = siblings(env.docs[src as int], first, Set::empty());
            &&& st.slots.len() <= s.slots.len()
            &&& forall|n: nat| 0 < n <= st.slots.len() ==> #[trigger] object_at(s, n) == object_at(st, n)
            &&& is_chain(env, s, src, ids, items, parent, s.slots.len(), depth)
        }),
    decreases MAX_OUTLINE_DEPTH + 1 - depth, 3nat, 0nat,
{
    if depth <= MAX_OUTLINE_DEPTH {
        let items = siblings(env.docs[src as int], first, Set::empty());
        items_chained(env, st, src, items, parent, depth);
        let (s1, ids) = outline_items(env, st, src, items, parent, depth);
        let kept = survivors(env, src, items, depth);
        let s = link_siblings(s1, ids, ids.len());
        links_length(s1, ids, ids.len());
        assert forall|n: nat| 0 < n <= st.slots.len() implies #[trigger] object_at(s, n) == object_at(st, n) by {
            assert(!ids.contains(n)) by {
                if ids.contains(n) {
                    let j = choose|j: int| 0 <= j < ids.len() && ids[j] == n;
                    assert(ids[j] > st.slots.len());
                }
            }
            links_elsewhere(s1, ids, ids.len(), n);
            assert(object_at(s1, n) == object_at(st, n));
        }
        assert forall|i: int| 0 <= i < ids.len() implies is_entry(
            env,
            s,
            src,
            #[trigger] ids[i],
            kept[i],
            parent,
            last_below(ids, i, s.slots.len()),
            Some((ids, i)),
            depth,
        ) by {
            entry_linked(env, s1, src, ids, kept, parent, st.slots.len(), depth, i);
        }
    }
}

proof fn links_length(st: State, ids: Seq<nat>, k: nat)
    ensures
        link_siblings(st, ids, k).slots.len() == st.slots.len(),
    decreases k,
{
    if k > 0 {
        links_length(st, ids, (k - 1) as nat);
    }
}

} // verus!
