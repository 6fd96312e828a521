//! Dropping the objects that nothing in the output reaches.

use vstd::prelude::*;
use crate::object::{array_view, views, Dict, Obj, Object};
use super::dedup::live;
use super::refs::{entries_mention, mentions};
use super::{nats, Builder, Cell, State};

verus! {

/// Does the object `a` refer to the object `b`?
pub open spec fn refers(slots: Seq<Cell>, a: nat, b: nat) -> bool {
    live(slots, a) && mentions(slots[a - 1].object->0, b)
}

/// Does each object on the way refer to the next?
pub open spec fn is_path(slots: Seq<Cell>, path: Seq<nat>) -> bool {
    path.len() > 0 && forall|i: int|
        0 <= i < path.len() - 1 ==> #[trigger] refers(slots, path[i], path[i + 1])
}

/// Does `path` lead from one of the roots to the object `id`?
pub open spec fn leads_to(slots: Seq<Cell>, roots: Seq<nat>, path: Seq<nat>, id: nat) -> bool {
    is_path(slots, path) && roots.contains(path[0]) && path.last() == id
}

/// Can the object `id` be reached from one of the roots?
pub open spec fn reached(slots: Seq<Cell>, roots: Seq<nat>, id: nat) -> bool {
    exists|path: Seq<nat>| leads_to(slots, roots, path, id)
}

/// The places with the objects emptied that cannot be reached from the roots.
pub open spec fn sweep(slots: Seq<Cell>, roots: Seq<nat>) -> Seq<Cell> {
    Seq::new(
        slots.len(),
        |i: int|
            if reached(slots, roots, (i + 1) as nat) {
                slots[i]
            } else {
                Cell { object: None, pinned: slots[i].pinned }
            },
    )
}

/// A root is reached.
pub proof fn root_reached(slots: Seq<Cell>, roots: Seq<nat>, id: nat)
    requires
        roots.contains(id),
    ensures
        reached(slots, roots, id),
{
    assert(leads_to(slots, roots, seq![id], id));
}

/// What a reached object refers to is reached.
pub proof fn reached_step(slots: Seq<Cell>, roots: Seq<nat>, a: nat, b: nat)
    requires
        reached(slots, roots, a),
        refers(slots, a, b),
    ensures
        reached(slots, roots, b),
{
    let p = choose|p: Seq<nat>| leads_to(slots, roots, p, a);
    let q = p.push(b);
    assert forall|i: int| 0 <= i < q.len() - 1 implies #[trigger] refers(slots, q[i], q[i + 1]) by {
        if i < p.len() - 1 {
            assert(refers(slots, p[i], p[i + 1]));
        }
    }
    assert(leads_to(slots, roots, q, b));
}

/// Every object that a path passes is reached.
proof fn path_reached(slots: Seq<Cell>, roots: Seq<nat>, path: Seq<nat>, k: int)
    requires
        is_path(slots, path),
        roots.contains(path[0]),
        0 <= k < path.len(),
    ensures
        reached(slots, roots, path[k]),
    decreases k,
{
    if k == 0 {
        root_reached(slots, roots, path[0]);
    } else {
        path_reached(slots, roots, path, k - 1);
        assert(refers(slots, path[k - 1], path[k - 1 + 1]));
        reached_step(slots, roots, path[k - 1], path[k]);
    }
}

/// No orphan survives: each object that is left can be reached from the roots through objects
/// that are left.
pub proof fn sweep_no_orphans(slots: Seq<Cell>, roots: Seq<nat>, id: nat)
    requires
        live(sweep(slots, roots), id),
    ensures
        reached(sweep(slots, roots), roots, id),
{
    let after = sweep(slots, roots);
    let p = choose|p: Seq<nat>| leads_to(slots, roots, p, id);
    assert forall|i: int| 0 <= i < p.len() - 1 implies #[trigger] refers(after, p[i], p[i + 1]) by {
        path_reached(slots, roots, p, i);
        assert(refers(slots, p[i], p[i + 1]));
        assert(after[p[i] - 1] == slots[p[i] - 1]);
    }
    assert(leads_to(after, roots, p, id));
}

/// Nothing that is needed is dropped: each object that can be reached stays as it is.
pub proof fn sweep_keeps_reached(slots: Seq<Cell>, roots: Seq<nat>, id: nat)
    requires
        live(slots, id),
        reached(slots, roots, id),
    ensures
        live(sweep(slots, roots), id),
        sweep(slots, roots)[id - 1] == slots[id - 1],
{
}

/// Append the numbers of the objects that `o` refers to.
pub fn push_refs(o: &Object, out: &mut Vec<usize>)
    ensures
        forall|id: nat|
            #[trigger] nats(final(out)@).contains(id) <==> nats(old(out)@).contains(id) || mentions(o@, id),
    decreases o@,
{
    broadcast use array_view;

    let ghost start = out@;
    match o {
        Object::Reference(r) => {
            out.push(r.id);
            proof {
                push_contains(start, r.id);
                assert(forall|id: nat| mentions(o@, id) <==> id == r.id);
            }
        },
        Object::Array(a) => {
            let ghost items = views(a@);
            let mut i: usize = 0;
            while i < a.len()
                invariant
                    i <= a@.len(),
                    items == views(a@),
                    o@ == Obj::Array(items),
                    forall|id: nat|
                        #[trigger] nats(out@).contains(id) <==> nats(start).contains(id) || exists|j: int|
                            0 <= j < i && mentions(#[trigger] items[j], id),
                decreases a@.len() - i,
            {
                assert(decreases_to!(o@ => o@->Array_0));
                assert(decreases_to!(items => items[i as int]));
                let ghost before = out@;
                push_refs(&a[i], out);
                proof {
                    assert forall|id: nat|
                        #[trigger] nats(out@).contains(id) <==> nats(start).contains(id) || exists|j: int|
                            0 <= j < i + 1 && mentions(#[trigger] items[j], id) by {
                        assert(nats(out@).contains(id) <==> nats(before).contains(id) || mentions(
                            items[i as int],
                            id,
                        ));
                    }
                }
                i += 1;
            }
            assert(o@->Array_0 == items);
            assert forall|id: nat| #[trigger] nats(out@).contains(id) <==> nats(start).contains(id)
                || mentions(o@, id) by {
                if mentions(o@, id) {
                    let j = choose|j: int| 0 <= j < items.len() && mentions(#[trigger] items[j], id);
                    assert(0 <= j < i && mentions(items[j], id));
                }
            }
        },
        Object::Dictionary(d) => {
            assert(decreases_to!(o@ => o@->Dictionary_0));
            push_dict_refs(d, out);
            assert(forall|id: nat| mentions(o@, id) <==> entries_mention(d@, id));
        },
        Object::Stream { dict, .. } => {
            assert(decreases_to!(o@ => o@->Stream_0));
            push_dict_refs(dict, out);
            assert(forall|id: nat| mentions(o@, id) <==> entries_mention(dict@, id));
        },
        _ => {
            assert(forall|id: nat| !mentions(o@, id));
        },
    }
}

proof fn push_contains(s: Seq<usize>, n: usize)
    ensures
        forall|id: nat| #[trigger] nats(s.push(n)).contains(id) <==> nats(s).contains(id) || id == n,
{
    assert forall|id: nat| #[trigger] nats(s.push(n)).contains(id) <==> nats(s).contains(id) || id == n by {
        let t = nats(s.push(n));
        if nats(s).contains(id) {
            let i = choose|i: int| 0 <= i < nats(s).len() && nats(s)[i] == id;
            assert(t[i] == id);
        }
        if id == n {
            assert(t[s.len() as int] == id);
        }
        if t.contains(id) {
            let i = choose|i: int| 0 <= i < t.len() && t[i] == id;
            if i < s.len() {
                assert(nats(s)[i] == id);
            }
        }
    }
}

fn push_dict_refs(d: &Dict, out: &mut Vec<usize>)
    ensures
        forall|id: nat|
            #[trigger] nats(final(out)@).contains(id) <==> nats(old(out)@).contains(id) || entries_mention(
                d@,
                id,
            ),
    decreases d@,
{
    let ghost start = out@;
    let n = d.len();
    let mut i: usize = 0;
    while i < n
        invariant
            i <= n == d@.len(),
            forall|id: nat|
                #[trigger] nats(out@).contains(id) <==> nats(start).contains(id) || exists|j: int|
                    0 <= j < i && mentions((#[trigger] d@[j]).1, id),
        decreases n - i,
    {
        assert(decreases_to!(d@ => d@[i as int]));
        assert(decreases_to!(d@[i as int] => d@[i as int].1));
        let ghost before = out@;
        push_refs(d.value_at(i), out);
        proof {
            assert forall|id: nat|
                #[trigger] nats(out@).contains(id) <==> nats(start).contains(id) || exists|j: int|
                    0 <= j < i + 1 && mentions((#[trigger] d@[j]).1, id) by {
                assert(nats(out@).contains(id) <==> nats(before).contains(id) || mentions(
                    d@[i as int].1,
                    id,
                ));
            }
        }
        i += 1;
    }
}

/// How many places are not marked.
pub open spec fn unmarked(marks: Seq<bool>) -> nat
    decreases marks.len(),
{
    if marks.len() == 0 {
        0
    } else if marks.last() {
        unmarked(marks.drop_last())
    } else {
        unmarked(marks.drop_last()) + 1
    }
}

proof fn unmarked_decreases(marks: Seq<bool>, i: int)
    requires
        0 <= i < marks.len(),
        !marks[i],
    ensures
        unmarked(marks.update(i, true)) < unmarked(marks),
    decreases marks.len(),
{
    let after = marks.update(i, true);
    if i == marks.len() - 1 {
        assert(after.drop_last() =~= marks.drop_last());
    } else {
        assert(after.drop_last() =~= marks.drop_last().update(i, true));
        unmarked_decreases(marks.drop_last(), i);
    }
}

/// Is the object `id` marked?
pub open spec fn marked(marks: Seq<bool>, id: nat) -> bool {
    1 <= id <= marks.len() && marks[id - 1]
}

/// Is the object `id` marked, waiting to be, or nothing that can be?
spec fn handled(marks: Seq<bool>, stack: Seq<usize>, id: nat) -> bool {
    marked(marks, id) || nats(stack).contains(id) || !(1 <= id <= marks.len())
}

proof fn closed_marks_all(slots: Seq<Cell>, roots: Seq<nat>, marks: Seq<bool>, path: Seq<nat>, k: int)
    requires
        marks.len() == slots.len(),
        is_path(slots, path),
        roots.contains(path[0]),
        0 <= k < path.len(),
        forall|r: nat| #[trigger] roots.contains(r) ==> handled(marks, Seq::empty(), r),
        forall|a: nat, b: nat|
            marked(marks, a) && #[trigger] refers(slots, a, b) ==> handled(marks, Seq::empty(), b),
        1 <= path[k] <= marks.len(),
    ensures
        marked(marks, path[k]),
    decreases k,
{
    assert(nats(Seq::<usize>::empty()).len() == 0);
    if k == 0 {
        assert(handled(marks, Seq::empty(), path[0]));
    } else {
        assert(refers(slots, path[k - 1], path[k - 1 + 1]));
        closed_marks_all(slots, roots, marks, path, k - 1);
        assert(handled(marks, Seq::empty(), path[k]));
    }
}

impl<'a> Builder<'a> {
    /// Mark the objects that can be reached from the roots.
    fn mark_reached(&self, roots: &Vec<usize>) -> (marks: Vec<bool>)
        ensures
            marks@.len() == self@.slots.len(),
            forall|i: int|
                0 <= i < marks@.len() ==> (#[trigger] marks@[i]) == reached(
                    self@.slots,
                    nats(roots@),
                    (i + 1) as nat,
                ),
    {
        let ghost slots = self@.slots;
        let ghost starts = nats(roots@);
        let n = self.slots.len();
        let mut marks: Vec<bool> = Vec::new();
        let mut i: usize = 0;
        while i < n
            invariant
                i <= n,
                marks@.len() == i,
                forall|j: int| 0 <= j < i ==> !(#[trigger] marks@[j]),
            decreases n - i,
        {
            marks.push(false);
            i += 1;
        }
        let mut stack: Vec<usize> = roots.clone();
        assert(stack@ =~= roots@);
        proof {
            assert forall|id: nat| #[trigger] nats(stack@).contains(id) implies reached(slots, starts, id) by {
                root_reached(slots, starts, id);
            }
            assert forall|a: nat| !marked(marks@, a) by {
                if 1 <= a <= marks@.len() {
                    assert(!marks@[a - 1]);
                }
            }
        }
        while stack.len() > 0
            invariant
                slots == self@.slots,
                starts == nats(roots@),
                n == slots.len() == self.slots@.len(),
                marks@.len() == n,
                forall|id: nat| #[trigger] marked(marks@, id) ==> reached(slots, starts, id),
                forall|id: nat| #[trigger] nats(stack@).contains(id) ==> reached(slots, starts, id),
                forall|r: nat| #[trigger] starts.contains(r) ==> handled(marks@, stack@, r),
                forall|a: nat, b: nat|
                    marked(marks@, a) && #[trigger] refers(slots, a, b) ==> handled(marks@, stack@, b),
            decreases unmarked(marks@), stack@.len(),
        {
            let ghost before = stack@;
            let id = stack.pop().unwrap();
            let ghost popped = stack@;
            proof {
                assert(before =~= popped.push(id));
                push_contains(popped, id);
                assert(nats(before).contains(id as nat));
            }
            if 1 <= id && id <= n && !marks[id - 1] {
                let ghost old_marks = marks@;
                proof {
                    unmarked_decreases(marks@, id - 1);
                }
                marks.set(id - 1, true);
                assert(slots[id - 1] == self.slots@[id - 1]@);
                if let Some(o) = &self.slots[id - 1].object {
                    push_refs(o, &mut stack);
                }
                proof {
                    assert forall|a: nat| #[trigger] marked(marks@, a) implies marked(old_marks, a) || a
                        == id by {}
                    assert forall|a: nat| marked(old_marks, a) || a == id implies #[trigger] marked(marks@, a) by {}
                    assert forall|a: nat| #[trigger] nats(stack@).contains(a) implies reached(
                        slots,
                        starts,
                        a,
                    ) by {
                        if !nats(popped).contains(a) {
                            assert(refers(slots, id as nat, a));
                            reached_step(slots, starts, id as nat, a);
                        } else {
                            assert(nats(before).contains(a));
                        }
                    }
                    assert forall|a: nat| #[trigger] handled(old_marks, before, a) implies handled(
                        marks@,
                        stack@,
                        a,
                    ) by {
                        if nats(before).contains(a) && a != id {
                            assert(nats(popped).contains(a));
                            assert(nats(stack@).contains(a));
                        }
                    }
                    assert forall|a: nat, b: nat|
                        marked(marks@, a) && #[trigger] refers(slots, a, b) implies handled(
                        marks@,
                        stack@,
                        b,
                    ) by {
                        if a == id {
                            assert(nats(stack@).contains(b));
                        } else {
                            assert(handled(old_marks, before, b));
                        }
                    }
                    assert forall|r: nat| #[trigger] starts.contains(r) implies handled(
                        marks@,
                        stack@,
                        r,
                    ) by {
                        assert(handled(old_marks, before, r));
                    }
                }
            } else {
                proof {
                    assert forall|a: nat| #[trigger] handled(marks@, before, a) implies handled(
                        marks@,
                        stack@,
                        a,
                    ) by {
                        if nats(before).contains(a) && a != id {
                            assert(nats(stack@).contains(a));
                        }
                    }
                    assert forall|a: nat| #[trigger] nats(stack@).contains(a) implies reached(
                        slots,
                        starts,
                        a,
                    ) by {
                        assert(nats(before).contains(a));
                    }
                    assert forall|r: nat| #[trigger] starts.contains(r) implies handled(
                        marks@,
                        stack@,
                        r,
                    ) by {
                        assert(handled(marks@, before, r));
                    }
                    assert forall|a: nat, b: nat|
                        marked(marks@, a) && #[trigger] refers(slots, a, b) implies handled(
                        marks@,
                        stack@,
                        b,
                    ) by {
                        assert(handled(marks@, before, b));
                    }
                }
            }
        }
        proof {
            assert(stack@ =~= Seq::empty());
            assert forall|i: int| 0 <= i < marks@.len() implies (#[trigger] marks@[i]) == reached(
                slots,
                starts,
                (i + 1) as nat,
            ) by {
                let id = (i + 1) as nat;
                assert(marked(marks@, id) == marks@[i]);
                if reached(slots, starts, id) {
                    let p = choose|p: Seq<nat>| leads_to(slots, starts, p, id);
                    closed_marks_all(slots, starts, marks@, p, p.len() - 1);
                }
            }
        }
        marks
    }

    /// Drop the objects that cannot be reached from the roots.
    pub fn sweep(&mut self, roots: &Vec<usize>)
        ensures
            final(self).env() == old(self).env(),
            final(self)@ == (State { slots: sweep(old(self)@.slots, nats(roots@)), ..old(self)@ }),
    {
        let marks = self.mark_reached(roots);
        let ghost slots = old(self)@.slots;
        let ghost after = sweep(slots, nats(roots@));
        let n = self.slots.len();
        let mut i: usize = 0;
        while i < n
            invariant
                i <= n == slots.len(),
                marks@.len() == n,
                slots == old(self)@.slots,
                after == sweep(slots, nats(roots@)),
                forall|j: int|
                    0 <= j < n ==> (#[trigger] marks@[j]) == reached(slots, nats(roots@), (j + 1) as nat),
                self.env() == old(self).env(),
                self@ == (State { slots: self@.slots, ..old(self)@ }),
                self@.slots.len() == n,
                forall|j: int| 0 <= j < i ==> (#[trigger] self@.slots[j]) == after[j],
                forall|j: int| i <= j < n ==> (#[trigger] self@.slots[j]) == slots[j],
            decreases n - i,
        {
            assert(self@.slots[i as int] == slots[i as int]);
            if !marks[i] {
                let _ = self.take(i + 1);
            }
            i += 1;
        }
        assert(self@.slots =~= after);
    }
}

} // verus!
