//! Numbering the objects that are left from one on, without gaps.

use vstd::prelude::*;
use crate::object::{views, Obj, Object};
use super::dedup::{live, live_count};
use super::refs::{rename, rename_refs};
use super::{nats, Builder, Cell, State};

verus! {

/// The new number of each object: how many objects there are up to it. Zero for an empty place.
pub open spec fn rank_table(slots: Seq<Cell>) -> Seq<nat> {
    Seq::new(
        slots.len(),
        |i: int|
            if slots[i].object is Some {
                live_count(slots.take(i + 1))
            } else {
                0
            },
    )
}

/// The objects of the first `k` places, with their references turned to the numbers of the table.
pub open spec fn compact_objects(slots: Seq<Cell>, table: Seq<nat>, k: nat) -> Seq<Obj>
    decreases k,
{
    if k == 0 {
        Seq::empty()
    } else {
        match slots[k - 1].object {
            Some(o) => compact_objects(slots, table, (k - 1) as nat).push(rename(o, table)),
            None => compact_objects(slots, table, (k - 1) as nat),
        }
    }
}

/// The objects that are left, in order, under their new numbers.
pub open spec fn compacted(slots: Seq<Cell>) -> Seq<Obj> {
    compact_objects(slots, rank_table(slots), slots.len())
}

/// As many objects come from the first places as there are in them.
pub proof fn compact_len(slots: Seq<Cell>, table: Seq<nat>, k: nat)
    requires
        k <= slots.len(),
    ensures
        compact_objects(slots, table, k).len() == live_count(slots.take(k as int)),
    decreases k,
{
    let t = slots.take(k as int);
    if k > 0 {
        compact_len(slots, table, (k - 1) as nat);
        assert(t.drop_last() =~= slots.take(k - 1));
        assert(t.last() == slots[k - 1]);
    }
}

proof fn compact_prefix(slots: Seq<Cell>, table: Seq<nat>, j: nat, k: nat, p: int)
    requires
        j <= k <= slots.len(),
        0 <= p < compact_objects(slots, table, j).len(),
    ensures
        compact_objects(slots, table, j).len() <= compact_objects(slots, table, k).len(),
        compact_objects(slots, table, k)[p] == compact_objects(slots, table, j)[p],
    decreases k - j,
{
    if j < k {
        compact_prefix(slots, table, j, (k - 1) as nat, p);
    }
}

/// The numbers are without gaps: there are as many as there are objects.
pub proof fn numbers_without_gaps(slots: Seq<Cell>)
    ensures
        compacted(slots).len() == live_count(slots),
{
    compact_len(slots, rank_table(slots), slots.len());
    assert(slots.take(slots.len() as int) =~= slots);
}

/// Each object is found under its new number, with its references turned to new numbers.
pub proof fn object_under_new_number(slots: Seq<Cell>, id: nat)
    requires
        live(slots, id),
    ensures
        ({
            let table = rank_table(slots);
            &&& 1 <= table[id - 1] <= compacted(slots).len()
            &&& compacted(slots)[table[id - 1] - 1] == rename(slots[id - 1].object->0, table)
        }),
{
    let table = rank_table(slots);
    let upto = compact_objects(slots, table, id);
    compact_len(slots, table, id);
    compact_prefix(slots, table, id, slots.len(), upto.len() - 1);
}

/// Two objects have different new numbers.
pub proof fn new_numbers_differ(slots: Seq<Cell>, a: nat, b: nat)
    requires
        live(slots, a),
        live(slots, b),
        a < b,
    ensures
        rank_table(slots)[a - 1] < rank_table(slots)[b - 1],
    decreases b - a,
{
    live_count_grows(slots, a, (b - 1) as nat);
    let t = slots.take(b as int);
    assert(t.drop_last() =~= slots.take(b - 1));
    assert(t.last() == slots[b - 1]);
}

proof fn live_count_grows(slots: Seq<Cell>, j: nat, k: nat)
    requires
        j <= k <= slots.len(),
    ensures
        live_count(slots.take(j as int)) <= live_count(slots.take(k as int)),
    decreases k - j,
{
    if j < k {
        live_count_grows(slots, j, (k - 1) as nat);
        let t = slots.take(k as int);
        assert(t.drop_last() =~= slots.take(k - 1));
    }
}

impl<'a> Builder<'a> {
    fn ranks(&self) -> (table: Vec<usize>)
        ensures
            nats(table@) == rank_table(self@.slots),
    {
        let ghost slots = self@.slots;
        let mut table: Vec<usize> = Vec::new();
        let mut count: usize = 0;
        let mut i: usize = 0;
        assert(slots.take(0) =~= Seq::empty());
        while i < self.slots.len()
            invariant
                i <= self.slots@.len(),
                slots == self@.slots,
                count <= i,
                count == live_count(slots.take(i as int)),
                table@.len() == i,
                forall|j: int| 0 <= j < i ==> (#[trigger] table@[j]) == rank_table(slots)[j],
            decreases self.slots@.len() - i,
        {
            proof {
                let t = slots.take(i + 1);
                assert(t.drop_last() =~= slots.take(i as int));
                assert(t.last() == self.slots@[i as int]@);
            }
            if self.slots[i].object.is_some() {
                count += 1;
                table.push(count);
            } else {
                table.push(0);
            }
            i += 1;
        }
        assert(nats(table@) =~= rank_table(slots));
        table
    }

    /// Take the objects out, in order, under their new numbers. Gives the table of these too.
    pub fn compact(&mut self) -> (r: (Vec<Object>, Vec<usize>))
        ensures
            final(self)@ == (State { slots: final(self)@.slots, ..old(self)@ }),
            views(r.0@) == compacted(old(self)@.slots),
            nats(r.1@) == rank_table(old(self)@.slots),
    {
        let table = self.ranks();
        let ghost slots = old(self)@.slots;
        let n = self.slots.len();
        let mut out: Vec<Object> = Vec::new();
        let mut i: usize = 0;
        assert(views(out@) =~= Seq::empty());
        while i < n
            invariant
                i <= n == slots.len(),
                self@ == (State { slots: self@.slots, ..old(self)@ }),
                self@.slots.len() == n,
                nats(table@) == rank_table(slots),
                forall|j: int| i <= j < n ==> (#[trigger] self@.slots[j]) == slots[j],
                views(out@) == compact_objects(slots, rank_table(slots), i as nat),
            decreases n - i,
        {
            assert(self@.slots[i as int] == slots[i as int]);
            if let Some(o) = self.take(i + 1) {
                let ghost before = views(out@);
                let renamed = rename_refs(o, &table);
                out.push(renamed);
                assert(views(out@) =~= before.push(renamed@));
            }
            i += 1;
        }
        (out, table)
    }
}

} // verus!
