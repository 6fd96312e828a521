//! Collapsing objects of the same canonical form to one.

use std::collections::HashMap;
use vstd::prelude::*;
use crate::text::bytes_eq;
use super::canon::{canon, canonical_bytes};
use super::refs::{rename, rename_refs, rename_untouched, touches_refs};
use super::{nats, put, Builder, Cell, State};

verus! {

/// Is there an object of number `id`?
pub open spec fn live(slots: Seq<Cell>, id: nat) -> bool {
    1 <= id <= slots.len() && slots[id - 1].object is Some
}

/// Is there an object of number `id` that may be collapsed?
pub open spec fn free(slots: Seq<Cell>, id: nat) -> bool {
    live(slots, id) && !slots[id - 1].pinned
}

/// The canonical form of the object of number `id`.
pub open spec fn form_at(slots: Seq<Cell>, id: nat) -> Seq<u8> {
    canon(slots[id - 1].object->0)
}

/// May the objects `a` and `b` be collapsed to one?
pub open spec fn alike(slots: Seq<Cell>, a: nat, b: nat) -> bool {
    free(slots, a) && free(slots, b) && form_at(slots, a) == form_at(slots, b)
}

/// The first object from `from` on that is like `id`; `id` where there is none before it.
pub open spec fn first_alike(slots: Seq<Cell>, id: nat, from: nat) -> nat
    decreases id - from,
{
    if from >= id || alike(slots, from, id) {
        if from >= id {
            id
        } else {
            from
        }
    } else {
        first_alike(slots, id, from + 1)
    }
}

/// The object that `id` is collapsed to: the first that is like it.
pub open spec fn rep(slots: Seq<Cell>, id: nat) -> nat {
    first_alike(slots, id, 1)
}

/// Is the object `id` collapsed to an earlier one?
pub open spec fn collapsed(slots: Seq<Cell>, id: nat) -> bool {
    free(slots, id) && rep(slots, id) != id
}

/// Is any object collapsed to an earlier one?
pub open spec fn any_collapsed(slots: Seq<Cell>) -> bool {
    exists|id: nat| 1 <= id <= slots.len() && #[trigger] collapsed(slots, id)
}

/// For each object that is collapsed the one that stays; zero for the others.
pub open spec fn collapse_table(slots: Seq<Cell>) -> Seq<nat> {
    Seq::new(
        slots.len(),
        |i: int|
            if collapsed(slots, (i + 1) as nat) {
                rep(slots, (i + 1) as nat)
            } else {
                0
            },
    )
}

/// A place after one round: emptied where its object is collapsed, with its references turned to
/// the objects that stay otherwise.
pub open spec fn round_cell(cell: Cell, table: Seq<nat>, i: int) -> Cell {
    Cell {
        object: if table[i] != 0 {
            None
        } else {
            match cell.object {
                Some(o) => Some(rename(o, table)),
                None => None,
            }
        },
        pinned: cell.pinned,
    }
}

/// The places after one round.
pub open spec fn dedup_round(slots: Seq<Cell>) -> Seq<Cell> {
    Seq::new(slots.len(), |i: int| round_cell(slots[i], collapse_table(slots), i))
}

/// How many objects there are.
pub open spec fn live_count(slots: Seq<Cell>) -> nat
    decreases slots.len(),
{
    if slots.len() == 0 {
        0
    } else if slots.last().object is Some {
        live_count(slots.drop_last()) + 1
    } else {
        live_count(slots.drop_last())
    }
}

/// Fewer places with an object make a smaller count.
pub proof fn live_count_less(a: Seq<Cell>, b: Seq<Cell>)
    requires
        a.len() == b.len(),
        forall|i: int| 0 <= i < a.len() && (#[trigger] b[i]).object is Some ==> a[i].object is Some,
    ensures
        live_count(b) <= live_count(a),
        (exists|i: int| 0 <= i < a.len() && (#[trigger] a[i]).object is Some && b[i].object is None)
            ==> live_count(b) < live_count(a),
    decreases a.len(),
{
    if a.len() > 0 {
        let x = a.drop_last();
        let y = b.drop_last();
        assert forall|i: int| 0 <= i < x.len() && (#[trigger] y[i]).object is Some implies x[i].object is Some by {
            assert(b[i].object is Some);
        }
        live_count_less(x, y);
        assert(b[a.len() - 1] == b.last());
        if exists|i: int| 0 <= i < a.len() && (#[trigger] a[i]).object is Some && b[i].object is None {
            let i = choose|i: int| 0 <= i < a.len() && (#[trigger] a[i]).object is Some && b[i].object is None;
            if i < a.len() - 1 {
                assert(x[i].object is Some && y[i].object is None);
            }
        }
    }
}

/// A round that collapses anything leaves fewer objects.
pub proof fn round_shrinks(slots: Seq<Cell>)
    ensures
        any_collapsed(slots) ==> live_count(dedup_round(slots)) < live_count(slots),
{
    if any_collapsed(slots) {
        let after = dedup_round(slots);
        let id = choose|id: nat| 1 <= id <= slots.len() && #[trigger] collapsed(slots, id);
        rep_is_first(slots, id);
        assert(collapse_table(slots)[id - 1] != 0);
        assert(slots[id - 1].object is Some && after[id - 1].object is None);
        live_count_less(slots, after);
    }
}

/// The places after as many rounds as it takes until nothing more can be collapsed.
pub open spec fn dedup_slots(slots: Seq<Cell>) -> Seq<Cell>
    decreases live_count(slots),
{
    if any_collapsed(slots) {
        proof {
            round_shrinks(slots);
        }
        dedup_slots(dedup_round(slots))
    } else {
        slots
    }
}

proof fn first_alike_is_first(slots: Seq<Cell>, id: nat, from: nat)
    requires
        from <= id,
    ensures
        from <= first_alike(slots, id, from) <= id,
        first_alike(slots, id, from) != id ==> alike(slots, first_alike(slots, id, from), id),
        forall|a: nat| from <= a < first_alike(slots, id, from) ==> !#[trigger] alike(slots, a, id),
    decreases id - from,
{
    if from < id && !alike(slots, from, id) {
        first_alike_is_first(slots, id, from + 1);
        assert forall|a: nat| from <= a < first_alike(slots, id, from) implies !#[trigger] alike(
            slots,
            a,
            id,
        ) by {
            if a > from {
                assert(from + 1 <= a);
            }
        }
    }
}

/// An object is collapsed to the first object like it, and that one stays.
pub proof fn rep_is_first(slots: Seq<Cell>, id: nat)
    requires
        free(slots, id),
    ensures
        1 <= rep(slots, id) <= id,
        alike(slots, rep(slots, id), id),
        forall|a: nat| a < rep(slots, id) ==> !#[trigger] alike(slots, a, id),
        rep(slots, rep(slots, id)) == rep(slots, id),
{
    first_alike_is_first(slots, id, 1);
    let r = rep(slots, id);
    first_alike_is_first(slots, r, 1);
    let q = rep(slots, r);
    if q != r {
        assert(alike(slots, q, id));
    }
}

/// An object that is like `id` and to which itself is collapsed is what `id` is collapsed to.
proof fn rep_unique(slots: Seq<Cell>, a: nat, id: nat)
    requires
        alike(slots, a, id),
        rep(slots, a) == a,
        a <= id,
    ensures
        rep(slots, id) == a,
{
    rep_is_first(slots, id);
    rep_is_first(slots, a);
    let r = rep(slots, id);
    if r < a {
        assert(alike(slots, r, a));
    }
}

/// Where nothing is collapsed no two objects that may be collapsed have the same canonical form.
proof fn none_collapsed_none_alike(slots: Seq<Cell>)
    requires
        !any_collapsed(slots),
    ensures
        forall|a: nat, b: nat| a != b ==> !#[trigger] alike(slots, a, b),
{
    assert forall|a: nat, b: nat| a != b implies !#[trigger] alike(slots, a, b) by {
        if alike(slots, a, b) {
            rep_is_first(slots, a);
            rep_is_first(slots, b);
            assert(!collapsed(slots, a));
            assert(!collapsed(slots, b));
            if b < a {
                assert(alike(slots, b, a));
            }
        }
    }
}

/// Nothing is in the output twice: after the collapsing no two objects that may be collapsed have
/// the same canonical form.
pub proof fn dedup_no_duplicates(slots: Seq<Cell>)
    ensures
        forall|a: nat, b: nat| a != b ==> !#[trigger] alike(dedup_slots(slots), a, b),
    decreases live_count(slots),
{
    if any_collapsed(slots) {
        round_shrinks(slots);
        dedup_no_duplicates(dedup_round(slots));
        assert(dedup_slots(slots) == dedup_slots(dedup_round(slots)));
    } else {
        none_collapsed_none_alike(slots);
        assert(dedup_slots(slots) == slots);
    }
}

/// Collapsing a second time changes nothing.
pub proof fn dedup_idempotent(slots: Seq<Cell>)
    ensures
        dedup_slots(dedup_slots(slots)) == dedup_slots(slots),
    decreases live_count(slots),
{
    if any_collapsed(slots) {
        round_shrinks(slots);
        dedup_idempotent(dedup_round(slots));
    }
}

/// The collapsing makes no object, and takes away none that is pinned.
pub proof fn dedup_keeps_pinned(slots: Seq<Cell>)
    ensures
        dedup_slots(slots).len() == slots.len(),
        forall|id: nat| #[trigger] live(dedup_slots(slots), id) ==> live(slots, id),
        forall|id: nat|
            live(slots, id) && slots[id - 1].pinned ==> #[trigger] live(dedup_slots(slots), id),
        forall|i: int| 0 <= i < slots.len() ==> (#[trigger] dedup_slots(slots)[i]).pinned == slots[i].pinned,
    decreases live_count(slots),
{
    if any_collapsed(slots) {
        round_shrinks(slots);
        let next = dedup_round(slots);
        dedup_keeps_pinned(next);
        assert forall|id: nat| #[trigger] live(dedup_slots(slots), id) implies live(slots, id) by {
            assert(live(next, id));
        }
        assert forall|id: nat| live(slots, id) && slots[id - 1].pinned implies #[trigger] live(
            dedup_slots(slots),
            id,
        ) by {
            assert(!collapsed(slots, id));
            assert(live(next, id) && next[id - 1].pinned);
        }
        assert forall|i: int| 0 <= i < slots.len() implies (#[trigger] dedup_slots(slots)[i]).pinned
            == slots[i].pinned by {
            assert(next[i].pinned == slots[i].pinned);
        }
    }
}

/// The FNV-1a hash of 64 bits.
pub open spec fn fnv1a(bytes: Seq<u8>) -> u64
    decreases bytes.len(),
{
    if bytes.len() == 0 {
        0xcbf29ce484222325
    } else {
        (fnv1a(bytes.drop_last()) ^ (bytes.last() as u64)).wrapping_mul(0x0000_0100_0000_01b3)
    }
}

/// The hash by which canonical forms are put into buckets.
pub fn hash_bytes(bytes: &[u8]) -> (h: u64)
    ensures
        h == fnv1a(bytes@),
{
    let mut h: u64 = 0xcbf29ce484222325;
    let mut i: usize = 0;
    assert(bytes@.take(0) =~= Seq::empty());
    while i < bytes.len()
        invariant
            i <= bytes@.len(),
            h == fnv1a(bytes@.take(i as int)),
        decreases bytes@.len() - i,
    {
        proof {
            let t = bytes@.take(i + 1);
            assert(t.drop_last() =~= bytes@.take(i as int));
            assert(t.last() == bytes@[i as int]);
        }
        h = (h ^ (bytes[i] as u64)).wrapping_mul(0x0000_0100_0000_01b3);
        i += 1;
    }
    assert(bytes@.take(i as int) =~= bytes@);
    h
}

/// Each canonical form in `forms` is that of the object in the same place.
pub open spec fn forms_match(slots: Seq<Cell>, forms: Seq<Vec<u8>>) -> bool {
    &&& forms.len() == slots.len()
    &&& forall|i: int|
        0 <= i < slots.len() && (#[trigger] slots[i]).object is Some ==> forms[i]@ == canon(
            slots[i].object->0,
        )
}

/// The buckets hold the objects among the first `n` to which objects are collapsed, each by the
/// hash of its form, and nothing else.
pub open spec fn buckets_match(slots: Seq<Cell>, buckets: Map<u64, Vec<usize>>, n: nat) -> bool {
    &&& forall|h: u64, j: int|
        buckets.contains_key(h) && 0 <= j < buckets[h]@.len() ==> bucket_entry(
            slots,
            (#[trigger] buckets[h]@[j]) as nat,
            h,
            n,
        )
    &&& forall|id: nat|
        #[trigger] stays(slots, id, n) ==> buckets.contains_key(fnv1a(form_at(slots, id)))
            && nats(buckets[fnv1a(form_at(slots, id))]@).contains(id)
}

/// Is `id` among the first `n` objects and collapsed to itself?
pub open spec fn stays(slots: Seq<Cell>, id: nat, n: nat) -> bool {
    id <= n && free(slots, id) && rep(slots, id) == id
}

/// Does `id` belong into the bucket of hash `h`?
pub open spec fn bucket_entry(slots: Seq<Cell>, id: nat, h: u64, n: nat) -> bool {
    stays(slots, id, n) && fnv1a(form_at(slots, id)) == h
}

/// Find the object in a bucket that the object `id` is collapsed to.
fn find_rep(slots: Ghost<Seq<Cell>>, bucket: &Vec<usize>, forms: &Vec<Vec<u8>>, id: usize) -> (r: Option<
    usize,
>)
    requires
        forms_match(slots@, forms@),
        free(slots@, id as nat),
        forall|j: int|
            0 <= j < bucket@.len() ==> stays(slots@, (#[trigger] bucket@[j]) as nat, (id - 1) as nat),
        forall|a: nat|
            #[trigger] stays(slots@, a, (id - 1) as nat) && form_at(slots@, a) == form_at(
                slots@,
                id as nat,
            ) ==> nats(bucket@).contains(a),
    ensures
        match r {
            Some(a) => a != 0 && a != id && rep(slots@, id as nat) == a,
            None => rep(slots@, id as nat) == id,
        },
{
    let mut j: usize = 0;
    while j < bucket.len()
        invariant
            j <= bucket@.len(),
            forms_match(slots@, forms@),
            free(slots@, id as nat),
            forall|k: int|
                0 <= k < bucket@.len() ==> stays(slots@, (#[trigger] bucket@[k]) as nat, (id - 1) as nat),
            forall|k: int|
                0 <= k < j ==> form_at(slots@, (#[trigger] bucket@[k]) as nat) != form_at(
                    slots@,
                    id as nat,
                ),
        decreases bucket@.len() - j,
    {
        let a = bucket[j];
        assert(stays(slots@, a as nat, (id - 1) as nat));
        assert(slots@[a - 1].object is Some && slots@[id - 1].object is Some);
        if bytes_eq(forms[a - 1].as_slice(), forms[id - 1].as_slice()) {
            proof {
                rep_unique(slots@, a as nat, id as nat);
            }
            return Some(a);
        }
        j += 1;
    }
    proof {
        rep_is_first(slots@, id as nat);
        let r = rep(slots@, id as nat);
        if r != id {
            assert(stays(slots@, r, (id - 1) as nat));
            assert(nats(bucket@).contains(r));
            let k = choose|k: int| 0 <= k < nats(bucket@).len() && nats(bucket@)[k] == r;
            assert(bucket@[k] == r);
        }
    }
    None
}

impl<'a> Builder<'a> {
    /// How many objects there are.
    pub fn live_objects(&self) -> (n: usize)
        ensures
            n == live_count(self@.slots),
    {
        let mut n: usize = 0;
        let mut i: usize = 0;
        let ghost all = self@.slots;
        assert(all.take(0) =~= Seq::empty());
        while i < self.slots.len()
            invariant
                i <= self.slots@.len(),
                all == self@.slots,
                n <= i,
                n == live_count(all.take(i as int)),
            decreases self.slots@.len() - i,
        {
            proof {
                let t = all.take(i + 1);
                assert(t.drop_last() =~= all.take(i as int));
                assert(t.last() == self.slots@[i as int]@);
            }
            if self.slots[i].object.is_some() {
                n += 1;
            }
            i += 1;
        }
        assert(all.take(i as int) =~= all);
        n
    }

    fn canonical_forms(&self) -> (forms: Vec<Vec<u8>>)
        ensures
            forms_match(self@.slots, forms@),
    {
        let mut forms: Vec<Vec<u8>> = Vec::new();
        let mut i: usize = 0;
        while i < self.slots.len()
            invariant
                i <= self.slots@.len(),
                forms@.len() == i,
                forall|j: int|
                    0 <= j < i && (#[trigger] self@.slots[j]).object is Some ==> forms@[j]@ == canon(
                        self@.slots[j].object->0,
                    ),
            decreases self.slots@.len() - i,
        {
            let form = match &self.slots[i].object {
                Some(o) => canonical_bytes(o),
                None => Vec::new(),
            };
            assert(self@.slots[i as int] == self.slots@[i as int]@);
            forms.push(form);
            i += 1;
        }
        forms
    }

    /// Find what is collapsed, and to which objects.
    fn find_collapsed(&self, forms: &Vec<Vec<u8>>) -> (r: (Vec<usize>, bool))
        requires
            forms_match(self@.slots, forms@),
        ensures
            nats(r.0@) == collapse_table(self@.slots),
            r.1 == any_collapsed(self@.slots),
    {
        let mut table: Vec<usize> = Vec::new();
        let mut any = false;
        let mut buckets: HashMap<u64, Vec<usize>> = HashMap::new();
        let mut i: usize = 0;
        let ghost slots = self@.slots;
        while i < self.slots.len()
            invariant
                i <= self.slots@.len(),
                slots == self@.slots,
                slots.len() == self.slots@.len(),
                forms_match(slots, forms@),
                buckets_match(slots, buckets@, i as nat),
                table@.len() == i,
                forall|j: int| 0 <= j < i ==> (#[trigger] table@[j]) == collapse_table(slots)[j],
                any == exists|id: nat| 1 <= id <= i && #[trigger] collapsed(slots, id),
            decreases self.slots@.len() - i,
        {
            let id: usize = i + 1;
            assert(slots[i as int] == self.slots@[i as int]@);
            let may_collapse = self.slots[i].object.is_some() && !self.slots[i].pinned;
            assert(may_collapse == free(slots, id as nat));
            let ghost before = buckets@;
            let mut target: usize = 0;
            if may_collapse {
                let h = hash_bytes(forms[i].as_slice());
                assert(h == fnv1a(form_at(slots, id as nat)));
                let mut bucket = match buckets.remove(&h) {
                    Some(b) => b,
                    None => Vec::new(),
                };
                proof {
                    assert forall|j: int| 0 <= j < bucket@.len() implies bucket_entry(
                        slots,
                        (#[trigger] bucket@[j]) as nat,
                        h,
                        i as nat,
                    ) by {
                        assert(bucket@ == before[h]@);
                        assert(bucket_entry(slots, before[h]@[j] as nat, h, i as nat));
                    }
                    assert forall|a: nat|
                        #[trigger] stays(slots, a, i as nat) && form_at(slots, a) == form_at(
                            slots,
                            id as nat,
                        ) implies nats(bucket@).contains(a) by {
                        assert(before.contains_key(h));
                    }
                }
                let found = find_rep(Ghost(slots), &bucket, forms, id);
                let ghost kept = bucket@;
                match found {
                    Some(a) => {
                        target = a;
                        any = true;
                    },
                    None => bucket.push(id),
                }
                buckets.insert(h, bucket);
                proof {
                    buckets_step(slots, before, h, kept, buckets@, i as nat);
                }
            } else {
                proof {
                    assert forall|a: nat| #[trigger] stays(slots, a, (i + 1) as nat) implies stays(
                        slots,
                        a,
                        i as nat,
                    ) by {}
                    assert forall|h: u64, j: int|
                        buckets@.contains_key(h) && 0 <= j < buckets@[h]@.len() implies bucket_entry(
                        slots,
                        (#[trigger] buckets@[h]@[j]) as nat,
                        h,
                        (i + 1) as nat,
                    ) by {
                        assert(bucket_entry(slots, buckets@[h]@[j] as nat, h, i as nat));
                    }
                }
            }
            assert(target == collapse_table(slots)[i as int]);
            assert((target != 0) == collapsed(slots, id as nat));
            table.push(target);
            i += 1;
        }
        assert(nats(table@) =~= collapse_table(slots));
        (table, any)
    }

    /// Empty the places of collapsed objects, and turn references to the objects that stay.
    fn apply_round(&mut self, table: &Vec<usize>, forms: &mut Vec<Vec<u8>>)
        requires
            nats(table@) == collapse_table(old(self)@.slots),
            forms_match(old(self)@.slots, old(forms)@),
        ensures
            final(self).env() == old(self).env(),
            final(self)@ == (State { slots: dedup_round(old(self)@.slots), ..old(self)@ }),
            forms_match(final(self)@.slots, final(forms)@),
    {
        let n = self.slots.len();
        let ghost slots = old(self)@.slots;
        let ghost after = dedup_round(slots);
        let ghost t = nats(table@);
        let mut i: usize = 0;
        while i < n
            invariant
                i <= n == slots.len(),
                slots == old(self)@.slots,
                after == dedup_round(slots),
                t == nats(table@),
                t == collapse_table(slots),
                self.env() == old(self).env(),
                self@ == (State { slots: self@.slots, ..old(self)@ }),
                self@.slots.len() == n,
                forall|j: int| 0 <= j < i ==> (#[trigger] self@.slots[j]) == after[j],
                forall|j: int| i <= j < n ==> (#[trigger] self@.slots[j]) == slots[j],
                forms_match(self@.slots, forms@),
            decreases n - i,
        {
            let id: usize = i + 1;
            let ghost prev = self@;
            assert(t.len() == table@.len() && t[i as int] == table@[i as int]);
            assert(prev.slots[i as int] == slots[i as int]);
            let taken = self.take(id);
            if table[i] == 0 {
                if let Some(o) = taken {
                    if touches_refs(&o, table) {
                        let renamed = rename_refs(o, table);
                        let form = canonical_bytes(&renamed);
                        forms.set(i, form);
                        self.put(id, renamed);
                    } else {
                        proof {
                            rename_untouched(o@, t);
                        }
                        self.put(id, o);
                    }
                }
            }
            assert(self@.slots[i as int] == round_cell(slots[i as int], t, i as int));
            assert forall|j: int| 0 <= j < n && j != i implies (#[trigger] self@.slots[j]) == prev.slots[j] by {}
            assert forall|j: int| 0 <= j < n && (#[trigger] self@.slots[j]).object is Some implies forms@[j]@
                == canon(self@.slots[j].object->0) by {
                if j != i {
                    assert(prev.slots[j].object is Some);
                }
            }
            i += 1;
        }
        assert(self@.slots =~= after);
    }

    /// Collapse objects of the same canonical form to one, until no two are left. Gives the number
    /// of objects taken away.
    pub fn dedup(&mut self) -> (removed: usize)
        ensures
            final(self).env() == old(self).env(),
            final(self)@ == (State { slots: dedup_slots(old(self)@.slots), ..old(self)@ }),
            removed == live_count(old(self)@.slots) - live_count(final(self)@.slots),
    {
        let before = self.live_objects();
        let mut forms = self.canonical_forms();
        loop
            invariant
                before == live_count(old(self)@.slots),
                live_count(self@.slots) <= before,
                forms_match(self@.slots, forms@),
                self.env() == old(self).env(),
                self@ == (State { slots: self@.slots, ..old(self)@ }),
                dedup_slots(self@.slots) == dedup_slots(old(self)@.slots),
            ensures
                !any_collapsed(self@.slots),
            decreases live_count(self@.slots),
        {
            let (table, any) = self.find_collapsed(&forms);
            if !any {
                break;
            }
            proof {
                round_shrinks(self@.slots);
            }
            self.apply_round(&table, &mut forms);
        }
        before - self.live_objects()
    }
}

proof fn buckets_step(
    slots: Seq<Cell>,
    before: Map<u64, Vec<usize>>,
    h: u64,
    kept: Seq<usize>,
    after: Map<u64, Vec<usize>>,
    n: nat,
)
    requires
        buckets_match(slots, before, n),
        free(slots, n + 1),
        h == fnv1a(form_at(slots, n + 1)),
        kept == (if before.contains_key(h) {
            before[h]@
        } else {
            Seq::empty()
        }),
        after.contains_key(h),
        forall|k: u64| k != h ==> #[trigger] after.contains_key(k) == before.contains_key(k),
        forall|k: u64| k != h && before.contains_key(k) ==> #[trigger] after[k] == before[k],
        rep(slots, n + 1) != n + 1 ==> after[h]@ == kept,
        rep(slots, n + 1) == n + 1 ==> exists|id: usize| id == n + 1 && after[h]@ == #[trigger] kept.push(id),
    ensures
        buckets_match(slots, after, n + 1),
{
    assert forall|k: u64, j: int| after.contains_key(k) && 0 <= j < after[k]@.len() implies bucket_entry(
        slots,
        (#[trigger] after[k]@[j]) as nat,
        k,
        n + 1,
    ) by {
        if k != h {
            assert(after[k] == before[k]);
            assert(bucket_entry(slots, before[k]@[j] as nat, k, n));
        } else if j < kept.len() {
            assert(after[h]@[j] == kept[j]);
            assert(bucket_entry(slots, before[h]@[j] as nat, h, n));
        }
    }
    assert forall|id: nat| #[trigger] stays(slots, id, n + 1) implies after.contains_key(
        fnv1a(form_at(slots, id)),
    ) && nats(after[fnv1a(form_at(slots, id))]@).contains(id) by {
        let k = fnv1a(form_at(slots, id));
        if id <= n {
            assert(stays(slots, id, n));
            let i = choose|i: int| 0 <= i < nats(before[k]@).len() && nats(before[k]@)[i] == id;
            if k == h {
                assert(after[h]@[i] == kept[i]);
            }
            assert(nats(after[k]@)[i] == id);
        } else {
            let last = after[h]@.len() - 1;
            assert(nats(after[h]@)[last] == id);
        }
    }
}

} // verus!
