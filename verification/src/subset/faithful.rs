//! What copying guarantees: a copy has the shape of its source, each source object is copied once,
//! what was copied before is left alone, and no page is copied as an object.

use vstd::prelude::*;
use crate::object::{new_ref, Entries, Obj};
use super::copy::{import, levels, load_or_null, remap, remap_entries, remap_items};
use super::{has_slot, next_id, object_at, put, with_slot, Env, State, MAX_DEPTH};

verus! {

/// Is the source object `k` a page, kept or not?
pub open spec fn is_page(env: Env, k: (nat, nat)) -> bool {
    env.pages.contains_key(k) || env.severed.contains(k)
}

/// Is `c` a copy of `o`: the same but for its references, which point at the copies that `ids`
/// gives, or at the new pages? References to pages that are not kept are null, and so is what lies
/// too deep.
pub open spec fn same_copy(
    env: Env,
    ids: Map<(nat, nat), nat>,
    src: nat,
    o: Obj,
    c: Obj,
    depth: nat,
) -> bool
    decreases o,
{
    if depth > MAX_DEPTH {
        c == Obj::Null
    } else {
        match o {
            Obj::Reference(id, _) => if env.pages.contains_key((src, id)) {
                c == new_ref(env.pages[(src, id)])
            } else if env.severed.contains((src, id)) {
                c == Obj::Null
            } else {
                ids.contains_key((src, id)) && c == new_ref(ids[(src, id)])
            },
            Obj::Array(items) => c is Array && c->Array_0.len() == items.len() && forall|i: int|
                0 <= i < items.len() ==> same_copy(
                    env,
                    ids,
                    src,
                    #[trigger] items[i],
                    c->Array_0[i],
                    depth + 1,
                ),
            Obj::Dictionary(d) => c is Dictionary && same_entries(
                env,
                ids,
                src,
                d,
                c->Dictionary_0,
                depth + 1,
            ),
            Obj::Stream(d, data) => c is Stream && c->Stream_1 == data && same_entries(
                env,
                ids,
                src,
                d,
                c->Stream_0,
                depth + 1,
            ),
            _ => c == o,
        }
    }
}

/// Are the entries `e` a copy of the entries `d`: the same keys with copies of the values?
pub open spec fn same_entries(
    env: Env,
    ids: Map<(nat, nat), nat>,
    src: nat,
    d: Entries,
    e: Entries,
    depth: nat,
) -> bool
    decreases d,
{
    e.len() == d.len() && forall|i: int|
        0 <= i < d.len() ==> (#[trigger] d[i]).0 == e[i].0 && same_copy(
            env,
            ids,
            src,
            d[i].1,
            e[i].1,
            depth,
        )
}

/// Are all entries of `a` in `b` too?
pub open spec fn extends(a: Map<(nat, nat), nat>, b: Map<(nat, nat), nat>) -> bool {
    forall|k: (nat, nat)| #[trigger] a.contains_key(k) ==> b.contains_key(k) && b[k] == a[k]
}

/// Has nothing been done between `a` and `b` but to copy? What was there is still there, unchanged.
pub open spec fn only_copied(a: State, b: State) -> bool {
    &&& b == (State { slots: b.slots, ids: b.ids, ..a })
    &&& a.slots.len() <= b.slots.len()
    &&& forall|i: int| 0 <= i < a.slots.len() ==> (#[trigger] b.slots[i]) == a.slots[i]
    &&& extends(a.ids, b.ids)
}

/// Does every source object that was copied have a place?
pub open spec fn ids_placed(st: State) -> bool {
    forall|k: (nat, nat)| #[trigger] st.ids.contains_key(k) ==> has_slot(st, st.ids[k])
}

/// Is the copy of the source object `k` there, and is it a copy of it?
pub open spec fn well_copied(env: Env, st: State, k: (nat, nat)) -> bool {
    &&& object_at(st, st.ids[k]) is Some
    &&& exists|depth: nat| #[trigger]
        same_copy(
            env,
            st.ids,
            k.0,
            load_or_null(env.docs[k.0 as int], k.1),
            object_at(st, st.ids[k])->0,
            depth,
        )
}

/// Was `b` reached from `a` by copying alone, is each new copy right, each new place filled, and no
/// page copied?
pub open spec fn copied_well(env: Env, a: State, b: State) -> bool {
    &&& only_copied(a, b)
    &&& ids_placed(b)
    &&& forall|k: (nat, nat)| #[trigger]
        b.ids.contains_key(k) && !a.ids.contains_key(k) ==> well_copied(env, b, k) && b.ids[k]
            > a.slots.len() && !is_page(env, k)
    &&& forall|j: (nat, nat), k: (nat, nat)|
        #![trigger b.ids.contains_key(j), b.ids.contains_key(k)]
        b.ids.contains_key(j) && b.ids.contains_key(k) && !a.ids.contains_key(j) && !a.ids.contains_key(k)
            && j != k ==> b.ids[j] != b.ids[k]
    &&& forall|n: nat| a.slots.len() < n <= b.slots.len() ==> #[trigger] object_at(b, n) is Some
}

/// A copy stays one when more objects have copies.
pub proof fn same_copy_extends(
    env: Env,
    a: Map<(nat, nat), nat>,
    b: Map<(nat, nat), nat>,
    src: nat,
    o: Obj,
    c: Obj,
    depth: nat,
)
    requires
        extends(a, b),
        same_copy(env, a, src, o, c, depth),
    ensures
        same_copy(env, b, src, o, c, depth),
    decreases o,
{
    if depth <= MAX_DEPTH {
        match o {
            Obj::Array(items) => {
                assert forall|i: int| 0 <= i < items.len() implies same_copy(
                    env,
                    b,
                    src,
                    #[trigger] items[i],
                    c->Array_0[i],
                    depth + 1,
                ) by {
                    same_copy_extends(env, a, b, src, items[i], c->Array_0[i], depth + 1);
                }
            },
            Obj::Dictionary(d) => {
                same_entries_extends(env, a, b, src, d, c->Dictionary_0, depth + 1);
            },
            Obj::Stream(d, _) => {
                same_entries_extends(env, a, b, src, d, c->Stream_0, depth + 1);
            },
            _ => {},
        }
    }
}

proof fn same_entries_extends(
    env: Env,
    a: Map<(nat, nat), nat>,
    b: Map<(nat, nat), nat>,
    src: nat,
    d: Entries,
    e: Entries,
    depth: nat,
)
    requires
        extends(a, b),
        same_entries(env, a, src, d, e, depth),
    ensures
        same_entries(env, b, src, d, e, depth),
    decreases d,
{
    assert forall|i: int| 0 <= i < d.len() implies (#[trigger] d[i]).0 == e[i].0 && same_copy(
        env,
        b,
        src,
        d[i].1,
        e[i].1,
        depth,
    ) by {
        same_copy_extends(env, a, b, src, d[i].1, e[i].1, depth);
    }
}

/// A copy that is right stays right while more is copied.
pub proof fn well_copied_stays(env: Env, a: State, b: State, k: (nat, nat))
    requires
        only_copied(a, b),
        ids_placed(a),
        a.ids.contains_key(k),
        well_copied(env, a, k),
    ensures
        well_copied(env, b, k),
{
    let o = load_or_null(env.docs[k.0 as int], k.1);
    let c = object_at(a, a.ids[k])->0;
    let depth = choose|depth: nat| #[trigger] same_copy(env, a.ids, k.0, o, c, depth);
    same_copy_extends(env, a.ids, b.ids, k.0, o, c, depth);
    assert(object_at(b, b.ids[k]) == object_at(a, a.ids[k]));
}

/// Copying and then copying more is copying.
pub proof fn copied_well_trans(env: Env, a: State, b: State, c: State)
    requires
        copied_well(env, a, b),
        copied_well(env, b, c),
    ensures
        copied_well(env, a, c),
{
    assert forall|i: int| 0 <= i < a.slots.len() implies (#[trigger] c.slots[i]) == a.slots[i] by {
        assert(b.slots[i] == a.slots[i]);
    }
    assert forall|k: (nat, nat)| #[trigger]
        c.ids.contains_key(k) && !a.ids.contains_key(k) implies well_copied(env, c, k) && c.ids[k]
        > a.slots.len() && !is_page(env, k) by {
        if b.ids.contains_key(k) {
            well_copied_stays(env, b, c, k);
        }
    }
    assert forall|j: (nat, nat), k: (nat, nat)|
        #![trigger c.ids.contains_key(j), c.ids.contains_key(k)]
        c.ids.contains_key(j) && c.ids.contains_key(k) && !a.ids.contains_key(j) && !a.ids.contains_key(k)
            && j != k implies c.ids[j] != c.ids[k] by {
        if b.ids.contains_key(j) {
            assert(has_slot(b, b.ids[j]));
        }
        if b.ids.contains_key(k) {
            assert(has_slot(b, b.ids[k]));
        }
    }
    assert forall|n: nat| a.slots.len() < n <= c.slots.len() implies #[trigger] object_at(c, n) is Some by {
        if n <= b.slots.len() {
            assert(object_at(b, n) is Some);
            assert(c.slots[n - 1] == b.slots[n - 1]);
        }
    }
}

/// Copying nothing is copying.
pub proof fn copied_well_refl(env: Env, a: State)
    requires
        ids_placed(a),
    ensures
        copied_well(env, a, a),
{
}

/// Copying a source object copies it and what it refers to, each object once, and changes nothing
/// that was there.
pub proof fn import_copies(env: Env, st: State, src: nat, id: nat, depth: nat)
    requires
        ids_placed(st),
        !is_page(env, (src, id)),
    ensures
        copied_well(env, st, import(env, st, src, id, depth).0),
        import(env, st, src, id, depth).0.ids.contains_key((src, id)),
        import(env, st, src, id, depth).1 == import(env, st, src, id, depth).0.ids[(src, id)],
    decreases levels(depth), 0nat, 0nat,
{
    let key = (src, id);
    if !st.ids.contains_key(key) {
        let n = next_id(st);
        let s1 = State { ids: st.ids.insert(key, n), ..with_slot(st) };
        let o = load_or_null(env.docs[src as int], id);
        assert forall|k: (nat, nat)| #[trigger] s1.ids.contains_key(k) implies has_slot(s1, s1.ids[k]) by {
            if k != key {
                assert(st.ids.contains_key(k));
            }
        }
        let (s2, c) = if depth > MAX_DEPTH {
            (s1, Obj::Null)
        } else {
            remap(env, s1, src, o, depth + 1)
        };
        if depth > MAX_DEPTH {
            copied_well_refl(env, s1);
            assert(same_copy(env, s2.ids, src, o, c, depth));
        } else {
            remap_copies(env, s1, src, o, depth + 1);
            assert(same_copy(env, s2.ids, src, o, c, depth + 1));
        }
        let s3 = put(s2, n, c);
        assert(s3.ids == s2.ids);
        assert(s2.ids.contains_key(key) && s2.ids[key] == n) by {
            assert(s1.ids.contains_key(key));
        }
        assert(object_at(s3, n) == Some(c));
        let reached = if depth > MAX_DEPTH {
            depth
        } else {
            depth + 1
        };
        assert(same_copy(
            env,
            s3.ids,
            key.0,
            load_or_null(env.docs[key.0 as int], key.1),
            object_at(s3, s3.ids[key])->0,
            reached,
        ));
        assert(well_copied(env, s3, key));
        assert forall|k: (nat, nat)| #[trigger]
            s3.ids.contains_key(k) && !st.ids.contains_key(k) implies well_copied(env, s3, k) && s3.ids[k]
            > st.slots.len() && !is_page(env, k) by {
            if k != key {
                assert(s2.ids.contains_key(k) && !s1.ids.contains_key(k));
                assert(well_copied(env, s2, k));
                assert(object_at(s3, s3.ids[k]) == object_at(s2, s2.ids[k]));
            }
        }
        assert forall|i: int| 0 <= i < st.slots.len() implies (#[trigger] s3.slots[i]) == st.slots[i] by {
            assert(s1.slots[i] == st.slots[i]);
            assert(s2.slots[i] == s1.slots[i]);
        }
        assert forall|k: (nat, nat)| #[trigger] st.ids.contains_key(k) implies s3.ids.contains_key(k)
            && s3.ids[k] == st.ids[k] by {
            assert(s1.ids.contains_key(k));
        }
        assert forall|k: (nat, nat)| #[trigger] s3.ids.contains_key(k) implies has_slot(s3, s3.ids[k]) by {
            assert(s2.ids.contains_key(k));
        }
        assert forall|j: (nat, nat), k: (nat, nat)|
            #![trigger s3.ids.contains_key(j), s3.ids.contains_key(k)]
            s3.ids.contains_key(j) && s3.ids.contains_key(k) && !st.ids.contains_key(j)
                && !st.ids.contains_key(k) && j != k implies s3.ids[j] != s3.ids[k] by {
            assert(s2.ids.contains_key(j) && s2.ids.contains_key(k));
        }
        assert forall|m: nat| st.slots.len() < m <= s3.slots.len() implies #[trigger] object_at(s3, m) is Some by {
            if m != n {
                assert(object_at(s2, m) is Some);
            }
        }
    }
}

/// Copying an object gives a copy of it, and changes nothing that was there.
pub proof fn remap_copies(env: Env, st: State, src: nat, o: Obj, depth: nat)
    requires
        ids_placed(st),
    ensures
        copied_well(env, st, remap(env, st, src, o, depth).0),
        same_copy(
            env,
            remap(env, st, src, o, depth).0.ids,
            src,
            o,
            remap(env, st, src, o, depth).1,
            depth,
        ),
    decreases levels(depth), 1nat, 0nat,
{
    if depth <= MAX_DEPTH {
        match o {
            Obj::Reference(id, _) => {
                if !is_page(env, (src, id)) {
                    import_copies(env, st, src, id, depth);
                }
            },
            Obj::Array(items) => {
                items_copied(env, st, src, items, depth + 1);
            },
            Obj::Dictionary(d) => {
                entries_copied(env, st, src, d, depth + 1);
            },
            Obj::Stream(d, _) => {
                entries_copied(env, st, src, d, depth + 1);
            },
            _ => {},
        }
    }
}

proof fn items_copied(env: Env, st: State, src: nat, items: Seq<Obj>, depth: nat)
    requires
        ids_placed(st),
    ensures
        ({
            let (s, out) = remap_items(env, st, src, items, depth);
            &&& copied_well(env, st, s)
            &&& out.len() == items.len()
            &&& forall|i: int|
                0 <= i < items.len() ==> same_copy(env, s.ids, src, #[trigger] items[i], out[i], depth)
        }),
    decreases levels(depth), 2nat, items.len(),
{
    if items.len() > 0 {
        let front = items.drop_last();
        items_copied(env, st, src, front, depth);
        let (s1, out1) = remap_items(env, st, src, front, depth);
        remap_copies(env, s1, src, items.last(), depth);
        let (s2, c) = remap(env, s1, src, items.last(), depth);
        copied_well_trans(env, st, s1, s2);
        let out = out1.push(c);
        assert forall|i: int| 0 <= i < items.len() implies same_copy(
            env,
            s2.ids,
            src,
            #[trigger] items[i],
            out[i],
            depth,
        ) by {
            if i < front.len() {
                assert(front[i] == items[i]);
                same_copy_extends(env, s1.ids, s2.ids, src, front[i], out1[i], depth);
            }
        }
    }
}

/// Copying the values of a dictionary gives copies of them under the same keys, and changes nothing
/// that was there.
pub proof fn entries_copied(env: Env, st: State, src: nat, d: Entries, depth: nat)
    requires
        ids_placed(st),
    ensures
        copied_well(env, st, remap_entries(env, st, src, d, depth).0),
        same_entries(
            env,
            remap_entries(env, st, src, d, depth).0.ids,
            src,
            d,
            remap_entries(env, st, src, d, depth).1,
            depth,
        ),
    decreases levels(depth), 2nat, d.len(),
{
    if d.len() > 0 {
        let front = d.drop_last();
        entries_copied(env, st, src, front, depth);
        let (s1, out1) = remap_entries(env, st, src, front, depth);
        remap_copies(env, s1, src, d.last().1, depth);
        let (s2, c) = remap(env, s1, src, d.last().1, depth);
        copied_well_trans(env, st, s1, s2);
        let out = out1.push((d.last().0, c));
        assert forall|i: int| 0 <= i < d.len() implies (#[trigger] d[i]).0 == out[i].0 && same_copy(
            env,
            s2.ids,
            src,
            d[i].1,
            out[i].1,
            depth,
        ) by {
            if i < front.len() {
                assert(front[i] == d[i]);
                same_copy_extends(env, s1.ids, s2.ids, src, front[i].1, out1[i].1, depth);
            }
        }
    }
}

/// Do two source objects always have two copies?
pub open spec fn copies_apart(st: State) -> bool {
    forall|j: (nat, nat), k: (nat, nat)|
        #![trigger st.ids.contains_key(j), st.ids.contains_key(k)]
        st.ids.contains_key(j) && st.ids.contains_key(k) && j != k ==> st.ids[j] != st.ids[k]
}

/// Copying never makes one copy of two source objects.
pub proof fn copying_keeps_apart(env: Env, a: State, b: State)
    requires
        ids_placed(a),
        copies_apart(a),
        copied_well(env, a, b),
    ensures
        copies_apart(b),
{
    assert forall|j: (nat, nat), k: (nat, nat)|
        #![trigger b.ids.contains_key(j), b.ids.contains_key(k)]
        b.ids.contains_key(j) && b.ids.contains_key(k) && j != k implies b.ids[j] != b.ids[k] by {
        if a.ids.contains_key(j) {
            assert(has_slot(a, a.ids[j]));
        }
        if a.ids.contains_key(k) {
            assert(has_slot(a, a.ids[k]));
        }
    }
}

} // verus!
