//! What a reference of the file denotes: the copy of what it denoted in the source, through the
//! collapsing of equal objects and the numbering of those that are left.

use vstd::prelude::*;
use crate::document::PdfDocument;
use crate::object::{dict_insert, dict_remove, new_ref, Entries, Obj};
use crate::text::key_lt;
use super::alike::{
    alike_in_writing, alike_same_form, entries_alike, renamed_same_form, same_form_alike, word,
};
use super::canon::canon;
use super::closed::insert_mentions;
use super::compact::{object_under_new_number, rank_table};
use super::copy::load_or_null;
use super::dedup::{
    alike, any_collapsed, collapse_table, collapsed, dedup_keeps_pinned, dedup_round, dedup_slots, form_at,
    live, live_count, rep, rep_is_first, round_shrinks,
};
use super::faithful::{same_copy, same_entries};
use super::finish::{assemble, gather, reduce, roots, set_parents, tidied, without, Parts};
use super::paged::parents_keep;
use super::reach::refers;
use super::rebuild::{build_pages, plan, planned, subset, Picks};
use super::refs::{entries_mention, mentions, rename, rename_entries, rename_mentions, renumbered};
use super::serialize::{entries_bytes, items_bytes, object_bytes, stream_entries_bytes};
use super::strays::lengthless;
use super::sound::{page_row, subset_copies_right};
use super::whole::{
    assembled, assembled_sealed, file_objects, gathered_sealed, left_over, page_tree_stands, parts_are_ready,
    sweep_sealed,
};
use super::{with_slot, Cell, Env, State, SubsetOptions, MAX_DEPTH};

verus! {

/// Objects of the same canonical form are written alike, byte for byte.
pub proof fn same_form_same_bytes(a: Obj, b: Obj)
    requires
        canon(a) == canon(b),
    ensures
        object_bytes(a) == object_bytes(b),
{
    same_form_alike(a, b);
    alike_same_bytes(a, b);
}

proof fn alike_same_bytes(a: Obj, b: Obj)
    requires
        alike_in_writing(a, b),
    ensures
        object_bytes(a) == object_bytes(b),
    decreases a, 0nat, 0nat,
{
    match a {
        Obj::Array(x) => {
            assert(decreases_to!(a => a->Array_0));
            alike_items_bytes(x, b->Array_0, x.len());
        },
        Obj::Dictionary(x) => {
            assert(decreases_to!(a => a->Dictionary_0));
            alike_entries_bytes(x, b->Dictionary_0, x.len());
        },
        Obj::Stream(x, _) => {
            assert(decreases_to!(a => a->Stream_0));
            alike_entries_bytes(x, b->Stream_0, x.len());
        },
        _ => {
            if word(a) is Some && word(a) == word(b) {
                assert(object_bytes(a) == word(a)->0);
                assert(object_bytes(b) == word(b)->0);
            }
        },
    }
}

proof fn alike_items_bytes(x: Seq<Obj>, y: Seq<Obj>, k: nat)
    requires
        k <= x.len() == y.len(),
        forall|i: int| 0 <= i < x.len() ==> alike_in_writing(#[trigger] x[i], y[i]),
    ensures
        items_bytes(x, k) == items_bytes(y, k),
    decreases x, 1nat, k,
{
    if k > 0 {
        alike_items_bytes(x, y, (k - 1) as nat);
        assert(decreases_to!(x => x[k - 1]));
        alike_same_bytes(x[k - 1], y[k - 1]);
    }
}

proof fn alike_entries_bytes(x: Entries, y: Entries, k: nat)
    requires
        k <= x.len(),
        entries_alike(x, y),
    ensures
        x.len() == y.len(),
        entries_bytes(x, k) == entries_bytes(y, k),
        stream_entries_bytes(x, k) == stream_entries_bytes(y, k),
    decreases x, 1nat, k,
{
    if k > 0 {
        alike_entries_bytes(x, y, (k - 1) as nat);
        assert(decreases_to!(x => x[k - 1]));
        assert(decreases_to!(x[k - 1] => x[k - 1].1));
        assert(x[k - 1].0 == y[k - 1].0);
        alike_same_bytes(x[k - 1].1, y[k - 1].1);
    }
}

proof fn alike_mentions(a: Obj, b: Obj, m: nat)
    requires
        alike_in_writing(a, b),
        mentions(b, m),
    ensures
        mentions(a, m),
    decreases a,
{
    match a {
        Obj::Array(x) => {
            let y = b->Array_0;
            let i = choose|i: int| 0 <= i < y.len() && mentions(#[trigger] y[i], m);
            assert(decreases_to!(a => a->Array_0));
            assert(decreases_to!(x => x[i]));
            assert(alike_in_writing(x[i], y[i]));
            alike_mentions(x[i], y[i], m);
        },
        Obj::Dictionary(x) => {
            assert(decreases_to!(a => a->Dictionary_0));
            entries_alike_mention(x, b->Dictionary_0, m);
        },
        Obj::Stream(x, _) => {
            assert(decreases_to!(a => a->Stream_0));
            entries_alike_mention(x, b->Stream_0, m);
        },
        _ => {},
    }
}

proof fn entries_alike_mention(x: Entries, y: Entries, m: nat)
    requires
        entries_alike(x, y),
        entries_mention(y, m),
    ensures
        entries_mention(x, m),
    decreases x,
{
    let i = choose|i: int| 0 <= i < y.len() && mentions((#[trigger] y[i]).1, m);
    assert(decreases_to!(x => x[i]));
    assert(decreases_to!(x[i] => x[i].1));
    assert(x[i].0 == y[i].0);
    alike_mentions(x[i].1, y[i].1, m);
}

/// Turning references by one table and then by another is turning them by both.
proof fn rename_twice(o: Obj, t: Seq<nat>, u: Seq<nat>, both: Seq<nat>)
    requires
        forall|n: nat| #[trigger] renumbered(both, n) == renumbered(u, renumbered(t, n)),
    ensures
        rename(rename(o, t), u) == rename(o, both),
    decreases o,
{
    match o {
        Obj::Array(items) => {
            let x = rename(rename(o, t), u)->Array_0;
            let y = rename(o, both)->Array_0;
            assert forall|i: int| 0 <= i < x.len() implies x[i] == y[i] by {
                assert(decreases_to!(o => o->Array_0));
                assert(decreases_to!(items => items[i]));
                rename_twice(items[i], t, u, both);
            }
            assert(x =~= y);
        },
        Obj::Dictionary(d) => {
            assert(decreases_to!(o => o->Dictionary_0));
            rename_entries_twice(d, t, u, both);
        },
        Obj::Stream(d, _) => {
            assert(decreases_to!(o => o->Stream_0));
            rename_entries_twice(d, t, u, both);
        },
        _ => {},
    }
}

proof fn rename_entries_twice(d: Entries, t: Seq<nat>, u: Seq<nat>, both: Seq<nat>)
    requires
        forall|n: nat| #[trigger] renumbered(both, n) == renumbered(u, renumbered(t, n)),
    ensures
        rename_entries(rename_entries(d, t), u) == rename_entries(d, both),
    decreases d,
{
    let x = rename_entries(rename_entries(d, t), u);
    let y = rename_entries(d, both);
    assert forall|i: int| 0 <= i < x.len() implies x[i] == y[i] by {
        assert(decreases_to!(d => d[i]));
        assert(decreases_to!(d[i] => d[i].1));
        rename_twice(d[i].1, t, u, both);
    }
    assert(x =~= y);
}

/// Turning references to what they are changes nothing.
proof fn rename_to_same(o: Obj, t: Seq<nat>)
    requires
        forall|n: nat| #[trigger] renumbered(t, n) == n,
    ensures
        rename(o, t) == o,
    decreases o,
{
    match o {
        Obj::Array(items) => {
            let x = rename(o, t)->Array_0;
            assert forall|i: int| 0 <= i < x.len() implies x[i] == items[i] by {
                assert(decreases_to!(o => o->Array_0));
                assert(decreases_to!(items => items[i]));
                rename_to_same(items[i], t);
            }
            assert(x =~= items);
        },
        Obj::Dictionary(d) => {
            assert(decreases_to!(o => o->Dictionary_0));
            rename_entries_to_same(d, t);
        },
        Obj::Stream(d, _) => {
            assert(decreases_to!(o => o->Stream_0));
            rename_entries_to_same(d, t);
        },
        _ => {},
    }
}

proof fn rename_entries_to_same(d: Entries, t: Seq<nat>)
    requires
        forall|n: nat| #[trigger] renumbered(t, n) == n,
    ensures
        rename_entries(d, t) == d,
    decreases d,
{
    let x = rename_entries(d, t);
    assert forall|i: int| 0 <= i < x.len() implies x[i] == d[i] by {
        assert(decreases_to!(d => d[i]));
        assert(decreases_to!(d[i] => d[i].1));
        rename_to_same(d[i].1, t);
    }
    assert(x =~= d);
}

/// The number of what stands for the object `n` once equal objects are collapsed.
pub open spec fn stands_at(slots: Seq<Cell>, n: nat) -> nat
    decreases live_count(slots),
{
    if any_collapsed(slots) {
        proof {
            round_shrinks(slots);
        }
        stands_at(dedup_round(slots), renumbered(collapse_table(slots), n))
    } else {
        n
    }
}

/// The table of the numbers of what stands for each object.
pub open spec fn standing(slots: Seq<Cell>) -> Seq<nat> {
    Seq::new(slots.len(), |i: int| stands_at(slots, (i + 1) as nat))
}

proof fn round_number(slots: Seq<Cell>, n: nat)
    requires
        1 <= n <= slots.len(),
    ensures
        ({
            let m = renumbered(collapse_table(slots), n);
            &&& 1 <= m <= slots.len()
            &&& m != n ==> collapsed(slots, n) && m == rep(slots, n) && alike(slots, m, n)
            &&& !collapsed(slots, m) || !live(slots, n)
        }),
{
    if collapsed(slots, n) {
        rep_is_first(slots, n);
    }
}

/// What stands for an object has a place, a number without a place stands for itself, and a pinned
/// object stands for itself alone.
proof fn stands_within(slots: Seq<Cell>, n: nat)
    ensures
        1 <= n <= slots.len() ==> 1 <= stands_at(slots, n) <= slots.len(),
        !(1 <= n <= slots.len()) ==> stands_at(slots, n) == n,
        1 <= n <= slots.len() && stands_at(slots, n) != n ==> !slots[n - 1].pinned && !slots[stands_at(slots, n)
            - 1].pinned,
    decreases live_count(slots),
{
    if any_collapsed(slots) {
        round_shrinks(slots);
        let next = dedup_round(slots);
        let m = renumbered(collapse_table(slots), n);
        if 1 <= n <= slots.len() {
            round_number(slots, n);
            assert(next[n - 1].pinned == slots[n - 1].pinned);
            assert(next[m - 1].pinned == slots[m - 1].pinned);
        }
        stands_within(next, m);
        if 1 <= n <= slots.len() {
            let s = stands_at(slots, n);
            assert(next[s - 1].pinned == slots[s - 1].pinned);
        }
    }
}

proof fn standing_renumbers(slots: Seq<Cell>)
    ensures
        forall|n: nat| #[trigger] renumbered(standing(slots), n) == stands_at(slots, n),
{
    assert forall|n: nat| #[trigger] renumbered(standing(slots), n) == stands_at(slots, n) by {
        stands_within(slots, n);
    }
}

/// What stands for an object once equal objects are collapsed has the form of that object with its
/// references turned to what stands for what they denoted.
pub proof fn collapsing_keeps_meaning(slots: Seq<Cell>, n: nat)
    requires
        live(slots, n),
    ensures
        live(dedup_slots(slots), stands_at(slots, n)),
        form_at(dedup_slots(slots), stands_at(slots, n)) == canon(
            rename(slots[n - 1].object->0, standing(slots)),
        ),
    decreases live_count(slots),
{
    let o = slots[n - 1].object->0;
    standing_renumbers(slots);
    if any_collapsed(slots) {
        round_shrinks(slots);
        let next = dedup_round(slots);
        let table = collapse_table(slots);
        let m = renumbered(table, n);
        round_number(slots, n);
        assert(live(slots, m));
        assert(table[m - 1] == 0);
        assert(live(next, m));
        let rep = slots[m - 1].object->0;
        assert(canon(rep) == canon(o));
        assert(next[m - 1].object->0 == rename(rep, table));
        renamed_same_form(rep, o, table);
        collapsing_keeps_meaning(next, m);
        renamed_same_form(rename(rep, table), rename(o, table), standing(next));
        standing_renumbers(next);
        assert forall|k: nat| #[trigger] renumbered(standing(slots), k) == renumbered(
            standing(next),
            renumbered(table, k),
        ) by {}
        rename_twice(o, table, standing(next), standing(slots));
    } else {
        assert forall|k: nat| #[trigger] renumbered(standing(slots), k) == k by {}
        rename_to_same(o, standing(slots));
    }
}

/// The number of what stands for the object `n` of the state, before the numbering.
pub open spec fn place(env: Env, st: State, n: nat) -> nat {
    if env.opts.dedup {
        stands_at(tidied(st), n)
    } else {
        n
    }
}

/// The first `len` places.
pub open spec fn places(env: Env, st: State, len: nat) -> Seq<nat> {
    Seq::new(len, |i: int| place(env, st, (i + 1) as nat))
}

proof fn place_within(env: Env, st: State, n: nat)
    ensures
        ({
            let slots = tidied(st);
            let m = place(env, st, n);
            &&& 1 <= n <= slots.len() ==> 1 <= m <= slots.len()
            &&& !(1 <= n <= slots.len()) ==> m == n
            &&& 1 <= n <= slots.len() && m != n ==> !slots[n - 1].pinned && !slots[m - 1].pinned
        }),
{
    stands_within(tidied(st), n);
}

proof fn places_renumber(env: Env, st: State, len: nat)
    requires
        tidied(st).len() <= len,
    ensures
        forall|n: nat| #[trigger] renumbered(places(env, st, len), n) == place(env, st, n),
{
    assert forall|n: nat| #[trigger] renumbered(places(env, st, len), n) == place(env, st, n) by {
        place_within(env, st, n);
    }
}

proof fn reduced_object(env: Env, st: State, n: nat, table: Seq<nat>)
    requires
        live(tidied(st), n),
        forall|k: nat| #[trigger] renumbered(table, k) == place(env, st, k),
    ensures
        live(reduce(env, st).slots, place(env, st, n)),
        form_at(reduce(env, st).slots, place(env, st, n)) == canon(rename(tidied(st)[n - 1].object->0, table)),
{
    let slots = tidied(st);
    let o = slots[n - 1].object->0;
    if env.opts.dedup {
        collapsing_keeps_meaning(slots, n);
        standing_renumbers(slots);
        let none: Seq<nat> = Seq::empty();
        assert forall|k: nat| #[trigger] renumbered(table, k) == renumbered(
            none,
            renumbered(standing(slots), k),
        ) by {}
        rename_twice(o, standing(slots), none, table);
        assert forall|k: nat| #[trigger] renumbered(none, k) == k by {}
        rename_to_same(rename(o, standing(slots)), none);
    } else {
        assert forall|k: nat| #[trigger] renumbered(table, k) == k by {}
        rename_to_same(o, table);
    }
}

/// A pinned object stands for itself, and is left as it is but for its references.
proof fn collapsing_keeps_pinned(slots: Seq<Cell>, n: nat)
    requires
        live(slots, n),
        slots[n - 1].pinned,
    ensures
        stands_at(slots, n) == n,
        live(dedup_slots(slots), n),
        dedup_slots(slots)[n - 1].object->0 == rename(slots[n - 1].object->0, standing(slots)),
    decreases live_count(slots),
{
    let o = slots[n - 1].object->0;
    standing_renumbers(slots);
    if any_collapsed(slots) {
        round_shrinks(slots);
        let next = dedup_round(slots);
        let table = collapse_table(slots);
        round_number(slots, n);
        assert(!collapsed(slots, n));
        assert(renumbered(table, n) == n);
        assert(live(next, n));
        assert(next[n - 1].object->0 == rename(o, table));
        collapsing_keeps_pinned(next, n);
        standing_renumbers(next);
        assert forall|k: nat| #[trigger] renumbered(standing(slots), k) == renumbered(
            standing(next),
            renumbered(table, k),
        ) by {}
        rename_twice(o, table, standing(next), standing(slots));
    } else {
        assert forall|k: nat| #[trigger] renumbered(standing(slots), k) == k by {}
        rename_to_same(o, standing(slots));
    }
}

proof fn reduced_pinned(env: Env, st: State, n: nat, table: Seq<nat>)
    requires
        live(tidied(st), n),
        tidied(st)[n - 1].pinned,
        forall|k: nat| #[trigger] renumbered(table, k) == place(env, st, k),
    ensures
        place(env, st, n) == n,
        live(reduce(env, st).slots, n),
        reduce(env, st).slots[n - 1].object->0 == rename(tidied(st)[n - 1].object->0, table),
{
    let slots = tidied(st);
    let o = slots[n - 1].object->0;
    if env.opts.dedup {
        collapsing_keeps_pinned(slots, n);
        standing_renumbers(slots);
        let none: Seq<nat> = Seq::empty();
        assert forall|k: nat| #[trigger] renumbered(table, k) == renumbered(
            none,
            renumbered(standing(slots), k),
        ) by {}
        rename_twice(o, standing(slots), none, table);
        assert forall|k: nat| #[trigger] renumbered(none, k) == k by {}
        rename_to_same(rename(o, standing(slots)), none);
    } else {
        assert forall|k: nat| #[trigger] renumbered(table, k) == k by {}
        rename_to_same(o, table);
    }
}

/// The object `o` of number `n` as it is assembled: the first `pages` objects are pages, into which
/// the page tree is entered.
pub open spec fn parented(o: Obj, n: nat, pages: nat, node: nat) -> Obj {
    match o {
        Obj::Dictionary(d) => if n <= pages {
            Obj::Dictionary(dict_insert(d, "Parent"@, new_ref(node)))
        } else {
            o
        },
        _ => o,
    }
}

proof fn insert_renamed(d: Entries, key: Seq<char>, v: Obj, table: Seq<nat>)
    ensures
        rename_entries(dict_insert(d, key, v), table) == dict_insert(
            rename_entries(d, table),
            key,
            rename(v, table),
        ),
    decreases d.len(),
{
    let e = rename_entries(d, table);
    if d.len() > 0 && d[0].0 != key && !key_lt(key, d[0].0) {
        insert_renamed(d.skip(1), key, v, table);
        assert(e.skip(1) =~= rename_entries(d.skip(1), table));
    }
    assert(rename_entries(dict_insert(d, key, v), table) =~= dict_insert(e, key, rename(v, table)));
}

proof fn alike_refl(o: Obj)
    ensures
        alike_in_writing(o, o),
    decreases o,
{
    match o {
        Obj::Array(items) => {
            assert forall|i: int| 0 <= i < items.len() implies alike_in_writing(#[trigger] items[i], items[i]) by {
                assert(decreases_to!(o => o->Array_0));
                assert(decreases_to!(items => items[i]));
                alike_refl(items[i]);
            }
        },
        Obj::Dictionary(d) => {
            assert(decreases_to!(o => o->Dictionary_0));
            entries_alike_refl(d);
        },
        Obj::Stream(d, _) => {
            assert(decreases_to!(o => o->Stream_0));
            entries_alike_refl(d);
        },
        _ => {},
    }
}

proof fn entries_alike_refl(d: Entries)
    ensures
        entries_alike(d, d),
    decreases d,
{
    assert forall|i: int| 0 <= i < d.len() implies alike_in_writing((#[trigger] d[i]).1, d[i].1) by {
        assert(decreases_to!(d => d[i]));
        assert(decreases_to!(d[i] => d[i].1));
        alike_refl(d[i].1);
    }
}

proof fn insert_alike(x: Entries, y: Entries, key: Seq<char>, v: Obj)
    requires
        entries_alike(x, y),
    ensures
        entries_alike(dict_insert(x, key, v), dict_insert(y, key, v)),
    decreases x.len(),
{
    alike_refl(v);
    let (p, q) = (dict_insert(x, key, v), dict_insert(y, key, v));
    if x.len() > 0 {
        assert(x[0].0 == y[0].0);
        if x[0].0 != key && !key_lt(key, x[0].0) {
            let (u, w) = (x.skip(1), y.skip(1));
            assert forall|i: int| 0 <= i < u.len() implies (#[trigger] u[i]).0 == w[i].0 && alike_in_writing(
                u[i].1,
                w[i].1,
            ) by {
                assert(x[i + 1].0 == y[i + 1].0);
            }
            insert_alike(u, w, key, v);
            let (a, b) = (dict_insert(u, key, v), dict_insert(w, key, v));
            assert forall|i: int| 0 <= i < p.len() implies (#[trigger] p[i]).0 == q[i].0 && alike_in_writing(
                p[i].1,
                q[i].1,
            ) by {
                if i > 0 {
                    assert(p[i] == a[i - 1] && q[i] == b[i - 1]);
                    assert(a[i - 1].0 == b[i - 1].0);
                } else {
                    assert(p[0] == x[0] && q[0] == y[0]);
                }
            }
        } else if x[0].0 == key {
            assert forall|i: int| 0 <= i < p.len() implies (#[trigger] p[i]).0 == q[i].0 && alike_in_writing(
                p[i].1,
                q[i].1,
            ) by {
                if i > 0 {
                    assert(p[i] == x[i] && q[i] == y[i]);
                }
            }
        } else {
            assert forall|i: int| 0 <= i < p.len() implies (#[trigger] p[i]).0 == q[i].0 && alike_in_writing(
                p[i].1,
                q[i].1,
            ) by {
                if i > 0 {
                    assert(p[i] == x[i - 1] && q[i] == y[i - 1]);
                }
            }
        }
    }
}

proof fn parent_set(st: State, p: nat, k: nat, node: nat, n: nat)
    requires
        k <= p <= st.slots.len(),
        1 <= n <= p,
    ensures
        set_parents(st, page_row(p), k, node).slots.len() == st.slots.len(),
        set_parents(st, page_row(p), k, node).slots[n - 1].object == (match st.slots[n - 1].object {
            Some(o) => Some(parented(o, n, k, node)),
            None => None,
        }),
    decreases k,
{
    if k > 0 {
        parent_set(st, p, (k - 1) as nat, node, n);
        assert(page_row(p)[k - 1] == k);
    }
}

/// What is assembled in the place of an object.
proof fn assembled_object(env: Env, st: State, parts: Parts, p: nat, n: nat, table: Seq<nat>)
    requires
        ({
            let after = reduce(env, st);
            let all = assemble(after, parts).0.slots;
            &&& after.page_ids == page_row(p)
            &&& p <= tidied(st).len()
            &&& forall|i: int| 0 <= i < p ==> #[trigger] page_row(p)[i] != parts.extras
            &&& forall|i: int| 0 <= i < p ==> (#[trigger] tidied(st)[i]).pinned
            &&& live(all, place(env, st, n))
        }),
        live(tidied(st), n),
        forall|k: nat| #[trigger] renumbered(table, k) == place(env, st, k),
    ensures
        ({
            let (s, cat, _) = assemble(reduce(env, st), parts);
            form_at(s.slots, place(env, st, n)) == canon(
                rename(parented(tidied(st)[n - 1].object->0, n, p, (cat - 1) as nat), table),
            )
        }),
{
    let slots = tidied(st);
    let after = reduce(env, st);
    let m = place(env, st, n);
    let o = slots[n - 1].object->0;
    let (s, cat, _) = assemble(after, parts);
    let all = s.slots;
    let node = (cat - 1) as nat;
    place_within(env, st, n);
    reduced_object(env, st, n, table);
    dedup_keeps_pinned(slots);
    assert(after.slots.len() == slots.len());
    let a = after.slots[m - 1].object->0;
    let s1 = without(after, parts.extras);
    let s3 = with_slot(with_slot(s1));
    if n <= p {
        assert(slots[n - 1].pinned);
        assert(m == n);
        assert(page_row(p)[n - 1] == n);
        assert(s3.slots[n - 1].object == after.slots[n - 1].object);
        parent_set(s3, p, p, node, n);
        assert(all[n - 1].object == Some(parented(a, n, p, node)));
        same_form_alike(a, rename(o, table));
        if let Obj::Dictionary(d) = o {
            let e = a->Dictionary_0;
            let v = new_ref(node);
            assert(entries_alike(e, rename_entries(d, table)));
            insert_alike(e, rename_entries(d, table), "Parent"@, v);
            insert_renamed(d, "Parent"@, v, table);
            place_within(env, st, node);
            assert(renumbered(table, node) == node);
            assert(rename(v, table) == v);
            let x = Obj::Dictionary(dict_insert(e, "Parent"@, v));
            let y = Obj::Dictionary(dict_insert(rename_entries(d, table), "Parent"@, v));
            assert(alike_in_writing(x, y));
            alike_same_form(x, y);
        }
    } else {
        if m <= p {
            assert(slots[m - 1].pinned);
        }
        let row = after.page_ids;
        assert forall|i: int| 0 <= i < row.len() implies #[trigger] row[i] <= p by {
            assert(page_row(p)[i] == i + 1);
        }
        parents_keep(p, s3, row, row.len(), node);
        assert(all[m - 1].object == s3.slots[m - 1].object);
        assert(m != parts.extras);
        assert(s3.slots[m - 1].object == after.slots[m - 1].object);
    }
}

/// What was gathered for the file before equal objects are collapsed.
pub open spec fn gathered(docs: Seq<PdfDocument>, picks: Picks, opts: SubsetOptions) -> State {
    let env = plan(docs, picks, opts);
    gather(env, build_pages(env, planned(picks.len()), picks, 0)->Ok_0).0
}

/// The objects that may be written, before equal ones are collapsed.
pub open spec fn candidates(docs: Seq<PdfDocument>, picks: Picks, opts: SubsetOptions) -> Seq<Cell> {
    tidied(gathered(docs, picks, opts))
}

/// The number of what stands for the object `n`, before the numbering.
pub open spec fn stand_in(docs: Seq<PdfDocument>, picks: Picks, opts: SubsetOptions, n: nat) -> nat {
    place(plan(docs, picks, opts), gathered(docs, picks, opts), n)
}

/// The number in the file of what stands for the object `n`.
pub open spec fn number_of(docs: Seq<PdfDocument>, picks: Picks, opts: SubsetOptions, n: nat) -> nat {
    renumbered(rank_table(left_over(docs, picks, opts)), stand_in(docs, picks, opts, n))
}

/// The table of the numbers in the file.
pub open spec fn numbering(docs: Seq<PdfDocument>, picks: Picks, opts: SubsetOptions) -> Seq<nat> {
    Seq::new(assembled(docs, picks, opts).0.len(), |i: int| number_of(docs, picks, opts, (i + 1) as nat))
}

/// Is what stands for the object `n` in the file?
pub open spec fn in_file(docs: Seq<PdfDocument>, picks: Picks, opts: SubsetOptions, n: nat) -> bool {
    live(candidates(docs, picks, opts), n) && live(
        left_over(docs, picks, opts),
        stand_in(docs, picks, opts, n),
    )
}

/// The object `n` as it is assembled.
pub open spec fn assembled_form(docs: Seq<PdfDocument>, picks: Picks, opts: SubsetOptions, n: nat) -> Obj {
    parented(
        candidates(docs, picks, opts)[n - 1].object->0,
        n,
        picks.len(),
        (assembled(docs, picks, opts).1 - 1) as nat,
    )
}

proof fn candidate_assembled(docs: Seq<PdfDocument>, picks: Picks, opts: SubsetOptions, n: nat, table: Seq<nat>)
    requires
        subset(docs, picks, opts) is Ok,
        in_file(docs, picks, opts, n),
        forall|k: nat| #[trigger] renumbered(table, k) == stand_in(docs, picks, opts, k),
    ensures
        form_at(left_over(docs, picks, opts), stand_in(docs, picks, opts, n)) == canon(
            rename(assembled_form(docs, picks, opts, n), table),
        ),
{
    let env = plan(docs, picks, opts);
    let built = build_pages(env, planned(picks.len()), picks, 0)->Ok_0;
    let (st, parts) = gather(env, built);
    let p = picks.len();
    parts_are_ready(docs, picks, opts);
    page_tree_stands(docs, picks, opts);
    let after = reduce(env, st);
    assert forall|i: int| 0 <= i < p implies #[trigger] page_row(p)[i] != parts.extras by {
        assert(after.page_ids[i] != parts.extras);
    }
    dedup_keeps_pinned(tidied(st));
    assert forall|i: int| 0 <= i < p implies (#[trigger] tidied(st)[i]).pinned by {
        assert(page_row(p)[i] == i + 1);
    }
    assert(p <= tidied(st).len()) by {
        if p > 0 {
            assert(page_row(p)[p - 1] == p);
            assert(live(after.slots, after.page_ids[p - 1]));
        }
    }
    assembled_object(env, st, parts, p, n, table);
}

proof fn numbering_renumbers(docs: Seq<PdfDocument>, picks: Picks, opts: SubsetOptions, table: Seq<nat>)
    requires
        subset(docs, picks, opts) is Ok,
        table == places(
            plan(docs, picks, opts),
            gathered(docs, picks, opts),
            assembled(docs, picks, opts).0.len(),
        ),
    ensures
        forall|k: nat| #[trigger] renumbered(table, k) == stand_in(docs, picks, opts, k),
        forall|k: nat| #[trigger] renumbered(numbering(docs, picks, opts), k) == number_of(docs, picks, opts, k),
{
    let env = plan(docs, picks, opts);
    let st = gathered(docs, picks, opts);
    let len = assembled(docs, picks, opts).0.len();
    page_tree_stands(docs, picks, opts);
    dedup_keeps_pinned(tidied(st));
    assembled_length(docs, picks, opts);
    places_renumber(env, st, len);
    assert forall|k: nat| #[trigger] renumbered(numbering(docs, picks, opts), k) == number_of(
        docs,
        picks,
        opts,
        k,
    ) by {
        place_within(env, st, k);
    }
}

proof fn assembled_length(docs: Seq<PdfDocument>, picks: Picks, opts: SubsetOptions)
    requires
        subset(docs, picks, opts) is Ok,
    ensures
        assembled(docs, picks, opts).0.len() == candidates(docs, picks, opts).len() + 2,
{
    let env = plan(docs, picks, opts);
    let built = build_pages(env, planned(picks.len()), picks, 0)->Ok_0;
    let (st, parts) = gather(env, built);
    let after = reduce(env, st);
    dedup_keeps_pinned(tidied(st));
    parts_are_ready(docs, picks, opts);
    let s3 = with_slot(with_slot(without(after, parts.extras)));
    let row = after.page_ids;
    parents_length(s3, row, row.len(), (after.slots.len() + 1) as nat);
}

proof fn parents_length(st: State, page_ids: Seq<nat>, k: nat, node: nat)
    ensures
        set_parents(st, page_ids, k, node).slots.len() == st.slots.len(),
    decreases k,
{
    if k > 0 {
        parents_length(st, page_ids, (k - 1) as nat, node);
    }
}

/// Each object that was gathered and is in the file stands there under its number as it was assembled,
/// with its references turned to the numbers of what they denoted, byte for byte.
pub proof fn objects_are_as_gathered(docs: Seq<PdfDocument>, picks: Picks, opts: SubsetOptions, n: nat)
    requires
        subset(docs, picks, opts) is Ok,
        in_file(docs, picks, opts, n),
    ensures
        ({
            let objects = file_objects(docs, picks, opts);
            let q = number_of(docs, picks, opts, n);
            let o = rename(assembled_form(docs, picks, opts, n), numbering(docs, picks, opts));
            &&& 1 <= q <= objects.len()
            &&& canon(objects[q - 1]) == canon(o)
            &&& object_bytes(objects[q - 1]) == object_bytes(o)
        }),
{
    let slots = left_over(docs, picks, opts);
    let rank = rank_table(slots);
    let m = stand_in(docs, picks, opts, n);
    let o = assembled_form(docs, picks, opts, n);
    let table = places(
        plan(docs, picks, opts),
        gathered(docs, picks, opts),
        assembled(docs, picks, opts).0.len(),
    );
    numbering_renumbers(docs, picks, opts, table);
    candidate_assembled(docs, picks, opts, n, table);
    object_under_new_number(slots, m);
    renamed_same_form(slots[m - 1].object->0, rename(o, table), rank);
    assert forall|k: nat| #[trigger] renumbered(numbering(docs, picks, opts), k) == renumbered(
        rank,
        renumbered(table, k),
    ) by {}
    rename_twice(o, table, rank, numbering(docs, picks, opts));
    same_form_same_bytes(
        file_objects(docs, picks, opts)[number_of(docs, picks, opts, n) - 1],
        rename(o, numbering(docs, picks, opts)),
    );
}

/// What is assembled in the place of a pinned object.
proof fn assembled_pinned(env: Env, st: State, parts: Parts, p: nat, n: nat, table: Seq<nat>)
    requires
        ({
            let after = reduce(env, st);
            let all = assemble(after, parts).0.slots;
            &&& after.page_ids == page_row(p)
            &&& p <= tidied(st).len()
            &&& forall|i: int| 0 <= i < p ==> #[trigger] page_row(p)[i] != parts.extras
            &&& live(all, n)
        }),
        live(tidied(st), n),
        tidied(st)[n - 1].pinned,
        forall|k: nat| #[trigger] renumbered(table, k) == place(env, st, k),
    ensures
        ({
            let (s, cat, _) = assemble(reduce(env, st), parts);
            s.slots[n - 1].object->0 == rename(
                parented(tidied(st)[n - 1].object->0, n, p, (cat - 1) as nat),
                table,
            )
        }),
{
    let slots = tidied(st);
    let after = reduce(env, st);
    let o = slots[n - 1].object->0;
    let (s, cat, _) = assemble(after, parts);
    let all = s.slots;
    let node = (cat - 1) as nat;
    reduced_pinned(env, st, n, table);
    dedup_keeps_pinned(slots);
    assert(after.slots.len() == slots.len());
    let s1 = without(after, parts.extras);
    let s3 = with_slot(with_slot(s1));
    if n <= p {
        assert(page_row(p)[n - 1] == n);
        assert(s3.slots[n - 1].object == after.slots[n - 1].object);
        parent_set(s3, p, p, node, n);
        if let Obj::Dictionary(d) = o {
            let v = new_ref(node);
            insert_renamed(d, "Parent"@, v, table);
            place_within(env, st, node);
            assert(renumbered(table, node) == node);
            assert(rename(v, table) == v);
        }
    } else {
        let row = after.page_ids;
        assert forall|i: int| 0 <= i < row.len() implies #[trigger] row[i] <= p by {
            assert(page_row(p)[i] == i + 1);
        }
        parents_keep(p, s3, row, row.len(), node);
        assert(all[n - 1].object == s3.slots[n - 1].object);
        assert(n != parts.extras);
        assert(s3.slots[n - 1].object == after.slots[n - 1].object);
    }
}

/// A pinned object stands in the file as it was assembled, with its references turned to the numbers
/// of what they denoted.
pub proof fn pinned_as_gathered(docs: Seq<PdfDocument>, picks: Picks, opts: SubsetOptions, n: nat)
    requires
        subset(docs, picks, opts) is Ok,
        in_file(docs, picks, opts, n),
        candidates(docs, picks, opts)[n - 1].pinned,
    ensures
        ({
            let objects = file_objects(docs, picks, opts);
            let q = number_of(docs, picks, opts, n);
            &&& 1 <= q <= objects.len()
            &&& objects[q - 1] == rename(assembled_form(docs, picks, opts, n), numbering(docs, picks, opts))
        }),
{
    let env = plan(docs, picks, opts);
    let built = build_pages(env, planned(picks.len()), picks, 0)->Ok_0;
    let (st, parts) = gather(env, built);
    let p = picks.len();
    let slots = left_over(docs, picks, opts);
    let rank = rank_table(slots);
    let o = assembled_form(docs, picks, opts, n);
    let table = places(env, st, assembled(docs, picks, opts).0.len());
    parts_are_ready(docs, picks, opts);
    page_tree_stands(docs, picks, opts);
    let after = reduce(env, st);
    assert forall|i: int| 0 <= i < p implies #[trigger] page_row(p)[i] != parts.extras by {
        assert(after.page_ids[i] != parts.extras);
    }
    dedup_keeps_pinned(tidied(st));
    assert(p <= tidied(st).len()) by {
        if p > 0 {
            assert(page_row(p)[p - 1] == p);
            assert(live(after.slots, after.page_ids[p - 1]));
        }
    }
    numbering_renumbers(docs, picks, opts, table);
    reduced_pinned(env, st, n, table);
    assembled_pinned(env, st, parts, p, n, table);
    object_under_new_number(slots, n);
    assert forall|k: nat| #[trigger] renumbered(numbering(docs, picks, opts), k) == renumbered(
        rank,
        renumbered(table, k),
    ) by {}
    rename_twice(o, table, rank, numbering(docs, picks, opts));
}

/// A chosen page is in the file.
pub proof fn page_in_file(docs: Seq<PdfDocument>, picks: Picks, opts: SubsetOptions, n: nat)
    requires
        subset(docs, picks, opts) is Ok,
        1 <= n <= picks.len(),
    ensures
        in_file(docs, picks, opts, n),
        candidates(docs, picks, opts)[n - 1].pinned,
        number_of(docs, picks, opts, n) == renumbered(rank_table(left_over(docs, picks, opts)), n),
{
    let env = plan(docs, picks, opts);
    let built = build_pages(env, planned(picks.len()), picks, 0)->Ok_0;
    let (st, parts) = gather(env, built);
    parts_are_ready(docs, picks, opts);
    page_tree_stands(docs, picks, opts);
    dedup_keeps_pinned(tidied(st));
    let row = page_row(picks.len());
    assert(row[n - 1] == n);
    assert(live(left_over(docs, picks, opts), row[n - 1]));
    let after = reduce(env, st);
    assert(live(after.slots, after.page_ids[n - 1]));
    place_within(env, st, n);
}

/// What an object of the file refers to is in the file too, under the number that the reference has
/// there.
pub proof fn references_denote_the_same(docs: Seq<PdfDocument>, picks: Picks, opts: SubsetOptions, n: nat, m: nat)
    requires
        subset(docs, picks, opts) is Ok,
        in_file(docs, picks, opts, n),
        mentions(assembled_form(docs, picks, opts, n), m),
        m <= candidates(docs, picks, opts).len(),
    ensures
        in_file(docs, picks, opts, m),
        mentions(
            file_objects(docs, picks, opts)[number_of(docs, picks, opts, n) - 1],
            number_of(docs, picks, opts, m),
        ),
{
    let slots = left_over(docs, picks, opts);
    let rank = rank_table(slots);
    let a = stand_in(docs, picks, opts, n);
    let b = stand_in(docs, picks, opts, m);
    let o = assembled_form(docs, picks, opts, n);
    let table = places(
        plan(docs, picks, opts),
        gathered(docs, picks, opts),
        assembled(docs, picks, opts).0.len(),
    );
    numbering_renumbers(docs, picks, opts, table);
    candidate_assembled(docs, picks, opts, n, table);
    same_form_alike(slots[a - 1].object->0, rename(o, table));
    assert(renumbered(table, m) == b);
    rename_mentions(o, table, b);
    alike_mentions(slots[a - 1].object->0, rename(o, table), b);
    assert(refers(slots, a, b));
    left_over_sealed(docs, picks, opts);
    assert(live(slots, b));
    gathered_sealed(docs, picks, opts);
    let gathered = candidates(docs, picks, opts);
    if mentions(gathered[n - 1].object->0, m) {
        assert(refers(gathered, n, m));
    } else {
        parent_mentions(docs, picks, opts, n, m);
    }
    object_under_new_number(slots, a);
    object_under_new_number(slots, b);
    rename_mentions(slots[a - 1].object->0, rank, renumbered(rank, b));
    assert(mentions(rename(slots[a - 1].object->0, rank), renumbered(rank, b)));
}

proof fn parent_mentions(docs: Seq<PdfDocument>, picks: Picks, opts: SubsetOptions, n: nat, m: nat)
    requires
        subset(docs, picks, opts) is Ok,
        mentions(assembled_form(docs, picks, opts, n), m),
        m <= candidates(docs, picks, opts).len(),
    ensures
        mentions(candidates(docs, picks, opts)[n - 1].object->0, m),
{
    let o = candidates(docs, picks, opts)[n - 1].object->0;
    page_tree_stands(docs, picks, opts);
    assembled_length(docs, picks, opts);
    if let Obj::Dictionary(d) = o {
        if n <= picks.len() {
            insert_mentions(
                d,
                "Parent"@,
                new_ref((assembled(docs, picks, opts).1 - 1) as nat),
                m,
            );
        }
    }
}

proof fn left_over_sealed(docs: Seq<PdfDocument>, picks: Picks, opts: SubsetOptions)
    requires
        subset(docs, picks, opts) is Ok,
    ensures
        forall|a: nat, b: nat| #[trigger]
            refers(left_over(docs, picks, opts), a, b) ==> live(left_over(docs, picks, opts), b),
{
    let (all, cat, info) = assembled(docs, picks, opts);
    assembled_sealed(docs, picks, opts);
    sweep_sealed(all, Set::empty(), roots(cat, info));
}

/// The surroundings with the pages under the numbers that the table gives them.
pub open spec fn renumbered_env(env: Env, table: Seq<nat>) -> Env {
    Env { pages: env.pages.map_values(|n: nat| renumbered(table, n)), ..env }
}

/// The numbers of copies, turned by the table.
pub open spec fn renumbered_ids(ids: Map<(nat, nat), nat>, table: Seq<nat>) -> Map<(nat, nat), nat> {
    ids.map_values(|n: nat| renumbered(table, n))
}

/// A copy is one after its references were turned too, of what is under the turned numbers.
pub proof fn renamed_copy(
    env: Env,
    ids: Map<(nat, nat), nat>,
    src: nat,
    o: Obj,
    c: Obj,
    depth: nat,
    table: Seq<nat>,
)
    requires
        same_copy(env, ids, src, o, c, depth),
    ensures
        same_copy(renumbered_env(env, table), renumbered_ids(ids, table), src, o, rename(c, table), depth),
    decreases o,
{
    if depth <= MAX_DEPTH {
        let r = rename(c, table);
        match o {
            Obj::Array(items) => {
                let x = c->Array_0;
                assert forall|i: int| 0 <= i < items.len() implies same_copy(
                    renumbered_env(env, table),
                    renumbered_ids(ids, table),
                    src,
                    #[trigger] items[i],
                    r->Array_0[i],
                    depth + 1,
                ) by {
                    assert(decreases_to!(o => o->Array_0));
                    assert(decreases_to!(items => items[i]));
                    assert(same_copy(env, ids, src, items[i], x[i], depth + 1));
                    renamed_copy(env, ids, src, items[i], x[i], depth + 1, table);
                }
            },
            Obj::Dictionary(d) => {
                assert(decreases_to!(o => o->Dictionary_0));
                renamed_entries_copy(env, ids, src, d, c->Dictionary_0, depth + 1, table);
            },
            Obj::Stream(d, _) => {
                assert(decreases_to!(o => o->Stream_0));
                renamed_entries_copy(env, ids, src, d, c->Stream_0, depth + 1, table);
            },
            _ => {},
        }
    }
}

proof fn renamed_entries_copy(
    env: Env,
    ids: Map<(nat, nat), nat>,
    src: nat,
    d: Entries,
    e: Entries,
    depth: nat,
    table: Seq<nat>,
)
    requires
        same_entries(env, ids, src, d, e, depth),
    ensures
        same_entries(
            renumbered_env(env, table),
            renumbered_ids(ids, table),
            src,
            d,
            rename_entries(e, table),
            depth,
        ),
    decreases d,
{
    let r = rename_entries(e, table);
    assert forall|i: int| 0 <= i < d.len() implies (#[trigger] d[i]).0 == r[i].0 && same_copy(
        renumbered_env(env, table),
        renumbered_ids(ids, table),
        src,
        d[i].1,
        r[i].1,
        depth,
    ) by {
        assert(decreases_to!(d => d[i]));
        assert(decreases_to!(d[i] => d[i].1));
        renamed_copy(env, ids, src, d[i].1, e[i].1, depth, table);
    }
}

proof fn remove_renamed(d: Entries, key: Seq<char>, table: Seq<nat>)
    ensures
        rename_entries(dict_remove(d, key), table) == dict_remove(rename_entries(d, table), key),
    decreases d.len(),
{
    let e = rename_entries(d, table);
    if d.len() > 0 {
        remove_renamed(d.skip(1), key, table);
        assert(e.skip(1) =~= rename_entries(d.skip(1), table));
    }
    assert(rename_entries(dict_remove(d, key), table) =~= dict_remove(e, key));
}

proof fn stream_entries_split(x: Entries, y: Entries, k: nat)
    requires
        k <= y.len(),
    ensures
        stream_entries_bytes(x + y, (x.len() + k) as nat) == stream_entries_bytes(x, x.len())
            + stream_entries_bytes(y, k),
    decreases k,
{
    let all = x + y;
    if k == 0 {
        stream_entries_front(all, x, x.len());
        assert(stream_entries_bytes(x, x.len()) + stream_entries_bytes(y, 0) =~= stream_entries_bytes(x, x.len()));
    } else {
        stream_entries_split(x, y, (k - 1) as nat);
        assert(all[x.len() + k - 1] == y[k - 1]);
        assert(stream_entries_bytes(all, (x.len() + k) as nat) =~= stream_entries_bytes(x, x.len())
            + stream_entries_bytes(y, k));
    }
}

proof fn stream_entries_front(a: Entries, b: Entries, k: nat)
    requires
        k <= a.len(),
        k <= b.len(),
        forall|i: int| 0 <= i < k ==> #[trigger] a[i] == b[i],
    ensures
        stream_entries_bytes(a, k) == stream_entries_bytes(b, k),
    decreases k,
{
    if k > 0 {
        stream_entries_front(a, b, (k - 1) as nat);
        assert(a[k - 1] == b[k - 1]);
    }
}

proof fn stream_entries_lengthless(d: Entries)
    ensures
        ({
            let e = dict_remove(d, "Length"@);
            stream_entries_bytes(e, e.len()) == stream_entries_bytes(d, d.len())
        }),
    decreases d.len(),
{
    if d.len() > 0 {
        let rest = d.skip(1);
        let less = dict_remove(rest, "Length"@);
        stream_entries_lengthless(rest);
        let head = seq![d[0]];
        assert(d =~= head + rest);
        stream_entries_split(head, rest, rest.len());
        if d[0].0 == "Length"@ {
            assert(dict_remove(d, "Length"@) =~= less);
            reveal_with_fuel(stream_entries_bytes, 2);
            assert(head[0].0 == "Length"@);
            assert(stream_entries_bytes(head, 1) =~= Seq::<u8>::empty());
            assert(stream_entries_bytes(d, d.len()) =~= stream_entries_bytes(rest, rest.len()));
        } else {
            assert(dict_remove(d, "Length"@) =~= head + less);
            stream_entries_split(head, less, less.len());
        }
    }
}

/// The length that a stream states is not written as it is, so that it does not matter.
proof fn length_not_written(o: Obj, table: Seq<nat>)
    ensures
        object_bytes(rename(lengthless(o), table)) == object_bytes(rename(o, table)),
{
    if let Obj::Stream(d, data) = o {
        remove_renamed(d, "Length"@, table);
        stream_entries_lengthless(rename_entries(d, table));
    }
}

/// Each source object whose copy is in the file is written there as a copy of it, byte for byte: its
/// references have the numbers of the copies of what they denoted in the source, or of the pages. A
/// copy that holds a signature, or is a page that was not chosen, is written with null in that place.
pub proof fn file_holds_copies(docs: Seq<PdfDocument>, picks: Picks, opts: SubsetOptions, k: (nat, nat))
    requires
        subset(docs, picks, opts) is Ok,
        gathered(docs, picks, opts).ids.contains_key(k),
        ({
            let st = gathered(docs, picks, opts);
            let n = st.ids[k];
            in_file(docs, picks, opts, n) && tidied(st)[n - 1].object == Some(lengthless(st.slots[n - 1].object->0))
        }),
    ensures
        ({
            let st = gathered(docs, picks, opts);
            let table = numbering(docs, picks, opts);
            let q = number_of(docs, picks, opts, st.ids[k]);
            exists|c: Obj, depth: nat|
                {
                    &&& #[trigger] same_copy(
                        renumbered_env(plan(docs, picks, opts), table),
                        renumbered_ids(st.ids, table),
                        k.0,
                        load_or_null(docs[k.0 as int], k.1),
                        c,
                        depth,
                    )
                    &&& object_bytes(file_objects(docs, picks, opts)[q - 1]) == object_bytes(c)
                }
        }),
{
    let env = plan(docs, picks, opts);
    let st = gathered(docs, picks, opts);
    let n = st.ids[k];
    let table = numbering(docs, picks, opts);
    subset_copies_right(docs, picks, opts);
    objects_are_as_gathered(docs, picks, opts, n);
    let o = load_or_null(docs[k.0 as int], k.1);
    let c = st.slots[n - 1].object->0;
    let depth = choose|depth: nat| #[trigger] same_copy(env, st.ids, k.0, o, c, depth);
    renamed_copy(env, st.ids, k.0, o, c, depth, table);
    assert(n > picks.len());
    assert(assembled_form(docs, picks, opts, n) == lengthless(c));
    length_not_written(c, table);
}

} // verus!
