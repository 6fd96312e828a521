//! What is not written: pages and page-tree nodes that are not among those that were chosen, by
//! whatever way they could be reached, and the lengths that streams state, which are written anew.

use vstd::prelude::*;
use crate::object::{dict_is_name, dict_remove, Obj, Object};
use super::dedup::live_count;
use super::{nats, put, Builder, Cell, State};

verus! {

/// Is the object a page?
pub open spec fn is_page_object(o: Obj) -> bool {
    o is Dictionary && dict_is_name(o->Dictionary_0, "Type"@, "Page"@)
}

/// Is the object a node of a page tree?
pub open spec fn is_pages_node(o: Obj) -> bool {
    o is Dictionary && dict_is_name(o->Dictionary_0, "Type"@, "Pages"@)
}

/// Is the object a page or a node of a page tree?
pub open spec fn stray(o: Obj) -> bool {
    is_page_object(o) || is_pages_node(o)
}

/// An object without the length that it states, where it is a stream.
pub open spec fn lengthless(o: Obj) -> Obj {
    match o {
        Obj::Stream(d, data) => Obj::Stream(dict_remove(d, "Length"@), data),
        _ => o,
    }
}

/// The place of number `n`, with null in place of a page or a node that is not among the pages, and
/// without a stated length.
pub open spec fn tidy_cell(cell: Cell, pages: Seq<nat>, n: nat) -> Cell {
    match cell.object {
        Some(o) => Cell {
            object: Some(
                if stray(o) && !pages.contains(n) {
                    Obj::Null
                } else {
                    lengthless(o)
                },
            ),
            pinned: cell.pinned,
        },
        None => cell,
    }
}

/// The places with null in place of pages and nodes that are not among the pages, and without stated
/// lengths.
pub open spec fn tidy_cells(slots: Seq<Cell>, pages: Seq<nat>) -> Seq<Cell> {
    Seq::new(slots.len(), |i: int| tidy_cell(slots[i], pages, (i + 1) as nat))
}

/// There are as many objects as before.
pub proof fn tidy_count(slots: Seq<Cell>, pages: Seq<nat>)
    ensures
        live_count(tidy_cells(slots, pages)) == live_count(slots),
    decreases slots.len(),
{
    if slots.len() > 0 {
        tidy_count(slots.drop_last(), pages);
        assert(tidy_cells(slots, pages).drop_last() =~= tidy_cells(slots.drop_last(), pages));
    }
}

fn is_stray(o: &Object) -> (r: bool)
    ensures
        r == stray(o@),
{
    match o {
        Object::Dictionary(d) => d.is_name("Type", "Page") || d.is_name("Type", "Pages"),
        _ => false,
    }
}

fn without_length(o: Object) -> (r: Object)
    ensures
        r@ == lengthless(o@),
{
    match o {
        Object::Stream { dict, data } => {
            let mut rest = dict;
            rest.remove("Length");
            Object::Stream { dict: rest, data }
        },
        other => other,
    }
}

/// For each of the first `n` numbers: is it among `ids`?
fn page_marks(ids: &Vec<usize>, n: usize) -> (marks: Vec<bool>)
    ensures
        marks@.len() == n,
        forall|i: int| 0 <= i < n ==> #[trigger] marks@[i] == nats(ids@).contains((i + 1) as nat),
{
    let mut marks: Vec<bool> = Vec::new();
    let mut i: usize = 0;
    while i < n
        invariant
            i <= n,
            marks@.len() == i,
            forall|j: int| 0 <= j < i ==> !#[trigger] marks@[j],
        decreases n - i,
    {
        marks.push(false);
        i += 1;
    }
    let mut k: usize = 0;
    while k < ids.len()
        invariant
            k <= ids@.len(),
            marks@.len() == n,
            forall|j: int|
                0 <= j < n ==> #[trigger] marks@[j] == nats(ids@.take(k as int)).contains((j + 1) as nat),
        decreases ids@.len() - k,
    {
        let id = ids[k];
        let ghost before = marks@;
        if 1 <= id && id <= n {
            marks.set(id - 1, true);
        }
        proof {
            let a = nats(ids@.take(k as int));
            let b = nats(ids@.take(k + 1));
            assert(b =~= a.push(id as nat));
            assert forall|j: int| 0 <= j < n implies #[trigger] marks@[j] == b.contains((j + 1) as nat) by {
                let m = (j + 1) as nat;
                assert(before[j] == a.contains(m));
                if a.contains(m) {
                    let i = choose|i: int| 0 <= i < a.len() && a[i] == m;
                    assert(b[i] == m);
                }
                if b.contains(m) && !a.contains(m) {
                    let i = choose|i: int| 0 <= i < b.len() && b[i] == m;
                    if i < a.len() {
                        assert(a[i] == m);
                    }
                }
                assert(b[a.len() as int] == id);
            }
        }
        k += 1;
    }
    assert(ids@.take(k as int) =~= ids@);
    marks
}

impl<'a> Builder<'a> {
    /// Put null in place of pages and nodes of page trees other than the pages that were built, and
    /// take the stated length out of each stream.
    pub fn drop_strays(&mut self)
        ensures
            final(self).env() == old(self).env(),
            final(self)@ == (State {
                slots: tidy_cells(old(self)@.slots, old(self)@.page_ids),
                ..old(self)@
            }),
    {
        let n = self.slots.len();
        let marks = page_marks(&self.page_ids, n);
        let ghost slots = old(self)@.slots;
        let ghost pages = old(self)@.page_ids;
        let ghost after = tidy_cells(slots, pages);
        let mut i: usize = 0;
        while i < n
            invariant
                i <= n == slots.len(),
                slots == old(self)@.slots,
                after == tidy_cells(slots, pages),
                marks@.len() == n,
                forall|j: int| 0 <= j < n ==> #[trigger] marks@[j] == pages.contains((j + 1) as nat),
                self.env() == old(self).env(),
                self@ == (State { slots: self@.slots, ..old(self)@ }),
                self@.slots.len() == n,
                forall|j: int| 0 <= j < i ==> (#[trigger] self@.slots[j]) == after[j],
                forall|j: int| i <= j < n ==> (#[trigger] self@.slots[j]) == slots[j],
            decreases n - i,
        {
            let id: usize = i + 1;
            let ghost prev = self@;
            assert(prev.slots[i as int] == slots[i as int]);
            let taken = self.take(id);
            if let Some(o) = taken {
                if !marks[i] && is_stray(&o) {
                    self.put(id, Object::Null);
                } else {
                    self.put(id, without_length(o));
                }
            }
            assert(self@.slots[i as int] == tidy_cell(slots[i as int], pages, (i + 1) as nat));
            assert forall|j: int| 0 <= j < n && j != i implies (#[trigger] self@.slots[j]) == prev.slots[j] by {}
            i += 1;
        }
        assert(self@.slots =~= after);
    }
}

} // verus!
