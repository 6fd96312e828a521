//! The outline, pruned to the entries that lead to a kept page or have such an entry below them.

use std::collections::HashSet;
use vstd::prelude::*;
use crate::document::{resolve, unseen, unseen_decreases, PdfDocument};
use crate::object::{
    dict_get, dict_get_insert, dict_insert, dict_is_name, dict_ref, new_ref, obj_dict, Dict, Entries, Obj, Object, ObjectRef,
};
use super::copy::{edit, keys_of};
use super::dests::{catalog, dest_page, remap_action, remap_dest};
use super::direct::{pick, pick_keys};
use super::pages::nav_view;
use super::{nats, next_id, object_at, put, set_pin, with_slot, Builder, Env, State};

verus! {

/// Greatest depth of an outline.
pub const MAX_OUTLINE_DEPTH: usize = 64;

/// What of an entry is taken over.
pub open spec fn entry_keys() -> Seq<Seq<char>> {
    seq!["Title"@, "C"@, "F"@]
}

/// The entries of a chain of siblings, from the one of number `cur` on. The chain ends where an
/// entry is missing, and where it comes back to an entry that it has passed.
pub open spec fn siblings(doc: PdfDocument, cur: Option<nat>, seen: Set<usize>) -> Seq<Entries>
    decreases unseen(doc, seen),
{
    match cur {
        None => Seq::empty(),
        Some(id) => match doc.lookup(id) {
            None => Seq::empty(),
            Some(o) => match obj_dict(o) {
                None => Seq::empty(),
                Some(item) => {
                    if seen.contains(id as usize) {
                        Seq::empty()
                    } else {
                        proof {
                            doc.ids_finite();
                            unseen_decreases(doc, seen, id as usize);
                        }
                        seq![item] + siblings(doc, dict_ref(item, "Next"@), seen.insert(id as usize))
                    }
                },
            },
        },
    }
}

/// Where an entry leads in the output: the key and its value, or none where it leads to no kept page.
pub open spec fn outline_dest(env: Env, src: nat, item: Entries) -> Option<(Seq<char>, Obj)> {
    match dict_get(item, "Dest"@) {
        Some(d) => match remap_dest(env, src, d) {
            Some(v) => Some(("Dest"@, v)),
            None => None,
        },
        None => match dict_get(item, "A"@) {
            Some(a) => if is_jump(env.docs[src as int], a) {
                match remap_action(env, src, a) {
                    Some(v) => Some(("A"@, v)),
                    None => None,
                }
            } else {
                None
            },
            None => None,
        },
    }
}

/// Is the action a jump inside the document?
pub open spec fn is_jump(doc: PdfDocument, action: Obj) -> bool {
    match resolve(doc, action) {
        Some(act) => match obj_dict(act) {
            Some(d) => dict_is_name(d, "S"@, "GoTo"@),
            None => false,
        },
        None => false,
    }
}

/// The dictionary of a kept entry, before it is linked to its siblings.
pub open spec fn entry_dict(
    doc: PdfDocument,
    item: Entries,
    parent: nat,
    dest: Option<(Seq<char>, Obj)>,
    kids: Seq<nat>,
) -> Entries {
    let d0 = dict_insert(Seq::empty(), "Parent"@, new_ref(parent));
    let d1 = pick(doc, item, entry_keys(), d0);
    let d2 = match dest {
        Some((key, value)) => dict_insert(d1, key, value),
        None => d1,
    };
    if kids.len() == 0 {
        d2
    } else {
        with_kids(d2, kids)
    }
}

/// A dictionary with its kids: the first, the last, and how many there are.
pub open spec fn with_kids(d: Entries, kids: Seq<nat>) -> Entries {
    dict_insert(
        dict_insert(dict_insert(d, "First"@, new_ref(kids[0])), "Last"@, new_ref(kids.last())),
        "Count"@,
        Obj::Integer(kids.len() as i64),
    )
}

/// Build an entry with what is below it. Gives its number, or none where it is dropped.
pub open spec fn outline_item(env: Env, st: State, src: nat, item: Entries, parent: nat, depth: nat) -> (
    State,
    Option<nat>,
)
    decreases MAX_OUTLINE_DEPTH + 1 - depth, 1nat, 0nat,
    when depth <= MAX_OUTLINE_DEPTH
{
    let n = next_id(st);
    let s1 = set_pin(with_slot(st), n, true);
    let (s2, kids) = outline_chain(env, s1, src, dict_ref(item, "First"@), n, depth + 1);
    let dest = outline_dest(env, src, item);
    if dest is None && kids.len() == 0 {
        (set_pin(s2, n, false), None)
    } else {
        let s3 = put(s2, n, Obj::Dictionary(entry_dict(env.docs[src as int], item, parent, dest, kids)));
        (State { outline_entries: s3.outline_entries + 1, ..s3 }, Some(n))
    }
}

/// Build entries in order. Gives the numbers of those that are kept.
pub open spec fn outline_items(
    env: Env,
    st: State,
    src: nat,
    items: Seq<Entries>,
    parent: nat,
    depth: nat,
) -> (State, Seq<nat>)
    decreases MAX_OUTLINE_DEPTH + 1 - depth, 2nat, items.len(),
    when depth <= MAX_OUTLINE_DEPTH
{
    if items.len() == 0 {
        (st, Seq::empty())
    } else {
        let (s1, ids) = outline_items(env, st, src, items.drop_last(), parent, depth);
        let (s2, id) = outline_item(env, s1, src, items.last(), parent, depth);
        match id {
            Some(n) => (s2, ids.push(n)),
            None => (s2, ids),
        }
    }
}

/// The state with the first `k` of the given entries linked to their siblings.
pub open spec fn link_siblings(st: State, ids: Seq<nat>, k: nat) -> State
    decreases k,
{
    if k == 0 {
        st
    } else {
        let i = k - 1;
        let s = link_siblings(st, ids, (k - 1) as nat);
        let s1 = if i > 0 {
            edit(s, ids[i], "Prev"@, new_ref(ids[i - 1]))
        } else {
            s
        };
        if k < ids.len() {
            edit(s1, ids[i], "Next"@, new_ref(ids[i + 1]))
        } else {
            s1
        }
    }
}

/// Build a chain of siblings from the entry `first` on. Gives the numbers of those that are kept.
pub open spec fn outline_chain(
    env: Env,
    st: State,
    src: nat,
    first: Option<nat>,
    parent: nat,
    depth: nat,
) -> (State, Seq<nat>)
    decreases MAX_OUTLINE_DEPTH + 1 - depth, 3nat, 0nat,
{
    if depth > MAX_OUTLINE_DEPTH {
        (st, Seq::empty())
    } else {
        let items = siblings(env.docs[src as int], first, Set::empty());
        let (s1, ids) = outline_items(env, st, src, items, parent, depth);
        (link_siblings(s1, ids, ids.len()), ids)
    }
}

/// The outline dictionary of a document.
pub open spec fn outline_root(doc: PdfDocument) -> Option<Entries> {
    match catalog(doc) {
        Some(cat) => match dict_ref(cat, "Outlines"@) {
            Some(id) => match doc.lookup(id) {
                Some(o) => obj_dict(o),
                None => None,
            },
            None => None,
        },
        None => None,
    }
}

/// Build the outline. Gives its number, or none where no entry is kept.
pub open spec fn outlines(env: Env, st: State, src: nat) -> (State, Option<nat>) {
    match outline_root(env.docs[src as int]) {
        None => (st, None),
        Some(root) => {
            let n = next_id(st);
            let s1 = set_pin(with_slot(st), n, true);
            let (s2, kids) = outline_chain(env, s1, src, dict_ref(root, "First"@), n, 0);
            if kids.len() == 0 {
                (set_pin(s2, n, false), None)
            } else {
                let d = dict_insert(Seq::empty(), "Type"@, Obj::Name("Outlines"@));
                (put(s2, n, Obj::Dictionary(with_kids(d, kids))), Some(n))
            }
        },
    }
}

/// An entry leads on exactly where its destination, or without one its jump, has a kept page.
pub proof fn leads_to_kept_page(env: Env, src: nat, item: Entries)
    ensures
        ({
            let doc = env.docs[src as int];
            let target = match dict_get(item, "Dest"@) {
                Some(d) => Some(d),
                None => match dict_get(item, "A"@) {
                    Some(a) => if is_jump(doc, a) {
                        dict_get(obj_dict(resolve(doc, a)->0)->0, "D"@)
                    } else {
                        None
                    },
                    None => None,
                },
            };
            outline_dest(env, src, item) is Some <==> target is Some && dest_page(doc, target->0) is Some
                && env.pages.contains_key((src, dest_page(doc, target->0)->0))
        }),
{
}

/// Does an entry lead to a kept page, or an entry below it?
pub open spec fn entry_survives(env: Env, src: nat, item: Entries, depth: nat) -> bool
    decreases MAX_OUTLINE_DEPTH + 1 - depth, 0nat,
    when depth <= MAX_OUTLINE_DEPTH
{
    outline_dest(env, src, item) is Some || chain_survives(
        env,
        src,
        siblings(env.docs[src as int], dict_ref(item, "First"@), Set::empty()),
        depth + 1,
    )
}

/// Does any of the entries survive?
pub open spec fn chain_survives(env: Env, src: nat, items: Seq<Entries>, depth: nat) -> bool
    decreases MAX_OUTLINE_DEPTH + 1 - depth, 1nat,
{
    depth <= MAX_OUTLINE_DEPTH && exists|i: int|
        0 <= i < items.len() && entry_survives(env, src, #[trigger] items[i], depth)
}

/// An outline entry is kept exactly where it leads to a kept page, or where an entry below it is
/// kept.
pub proof fn entry_kept_iff(env: Env, st: State, src: nat, item: Entries, parent: nat, depth: nat)
    requires
        depth <= MAX_OUTLINE_DEPTH,
    ensures
        outline_item(env, st, src, item, parent, depth).1 is Some <==> entry_survives(
            env,
            src,
            item,
            depth,
        ),
    decreases MAX_OUTLINE_DEPTH + 1 - depth, 0nat, 0nat,
{
    let n = next_id(st);
    let s1 = set_pin(with_slot(st), n, true);
    let items = siblings(env.docs[src as int], dict_ref(item, "First"@), Set::empty());
    if depth < MAX_OUTLINE_DEPTH {
        items_kept_iff(env, s1, src, items, n, depth + 1);
    }
}

/// Of a row of outline entries some are kept exactly where some lead on.
pub proof fn items_kept_iff(
    env: Env,
    st: State,
    src: nat,
    items: Seq<Entries>,
    parent: nat,
    depth: nat,
)
    requires
        depth <= MAX_OUTLINE_DEPTH,
    ensures
        outline_items(env, st, src, items, parent, depth).1.len() > 0 <==> chain_survives(
            env,
            src,
            items,
            depth,
        ),
    decreases MAX_OUTLINE_DEPTH + 1 - depth, 1nat, items.len(),
{
    if items.len() > 0 {
        let (s1, _) = outline_items(env, st, src, items.drop_last(), parent, depth);
        items_kept_iff(env, st, src, items.drop_last(), parent, depth);
        entry_kept_iff(env, s1, src, items.last(), parent, depth);
        if chain_survives(env, src, items.drop_last(), depth) {
            let i = choose|i: int|
                0 <= i < items.drop_last().len() && entry_survives(
                    env,
                    src,
                    #[trigger] items.drop_last()[i],
                    depth,
                );
            assert(items[i] == items.drop_last()[i]);
        }
        if entry_survives(env, src, items.last(), depth) {
            assert(items[items.len() - 1] == items.last());
        }
        if chain_survives(env, src, items, depth) {
            let i = choose|i: int|
                0 <= i < items.len() && entry_survives(env, src, #[trigger] items[i], depth);
            if i < items.len() - 1 {
                assert(items.drop_last()[i] == items[i]);
            }
        }
    }
}

/// The dictionary `d` of the entry at position `i` of a chain, linked to its siblings.
pub open spec fn linked_entry(d: Entries, ids: Seq<nat>, i: int) -> Entries {
    let d1 = if i > 0 {
        dict_insert(d, "Prev"@, new_ref(ids[i - 1]))
    } else {
        d
    };
    if i + 1 < ids.len() {
        dict_insert(d1, "Next"@, new_ref(ids[i + 1]))
    } else {
        d1
    }
}

/// Linking the first `k` entries of a chain leaves the others as they were.
pub proof fn siblings_edited(st: State, ids: Seq<nat>, k: nat, j: int)
    requires
        k <= ids.len(),
        0 <= j < ids.len(),
        forall|i: int| 0 <= i < ids.len() ==> (object_at(st, #[trigger] ids[i]) matches Some(Obj::Dictionary(_))),
        forall|i: int, m: int| 0 <= i < m < ids.len() ==> #[trigger] ids[i] != #[trigger] ids[m],
    ensures
        object_at(link_siblings(st, ids, k), ids[j]) == (if j < k {
            Some(Obj::Dictionary(linked_entry(object_at(st, ids[j])->0->Dictionary_0, ids, j)))
        } else {
            object_at(st, ids[j])
        }),
    decreases k,
{
    if k > 0 {
        let i = k - 1;
        siblings_edited(st, ids, (k - 1) as nat, j);
        siblings_edited(st, ids, (k - 1) as nat, i);
        assert(j != i ==> ids[j] != ids[i]);
        assert(object_at(st, ids[i]) matches Some(Obj::Dictionary(_)));
    }
}

/// The entries of a chain are linked to their siblings: each names the one before it and the one
/// after it.
pub proof fn siblings_linked(st: State, ids: Seq<nat>, i: int)
    requires
        0 <= i < ids.len(),
        forall|i: int| 0 <= i < ids.len() ==> (object_at(st, #[trigger] ids[i]) matches Some(Obj::Dictionary(_))),
        forall|i: int, m: int| 0 <= i < m < ids.len() ==> #[trigger] ids[i] != #[trigger] ids[m],
    ensures
        ({
            let o = object_at(link_siblings(st, ids, ids.len()), ids[i]);
            &&& o matches Some(Obj::Dictionary(_))
            &&& i > 0 ==> dict_get(o->0->Dictionary_0, "Prev"@) == Some(new_ref(ids[i - 1]))
            &&& i + 1 < ids.len() ==> dict_get(o->0->Dictionary_0, "Next"@) == Some(new_ref(ids[i + 1]))
        }),
{
    siblings_edited(st, ids, ids.len(), i);
    assert(object_at(st, ids[i]) matches Some(Obj::Dictionary(_)));
    let d = object_at(st, ids[i])->0->Dictionary_0;
    let d1 = if i > 0 {
        dict_insert(d, "Prev"@, new_ref(ids[i - 1]))
    } else {
        d
    };
    reveal_strlit("Prev");
    reveal_strlit("Next");
    assert("Prev"@[0] != "Next"@[0]);
    if i > 0 {
        dict_get_insert(d, "Prev"@, new_ref(ids[i - 1]), "Prev"@);
    }
    if i + 1 < ids.len() {
        dict_get_insert(d1, "Next"@, new_ref(ids[i + 1]), "Prev"@);
        dict_get_insert(d1, "Next"@, new_ref(ids[i + 1]), "Next"@);
    }
}

/// The entries behind a sequence of references to dictionaries.
pub open spec fn dicts(items: Seq<&Dict>) -> Seq<Entries> {
    items.map_values(|d: &Dict| d@)
}

/// The number of an optional reference.
pub open spec fn ref_id(r: Option<ObjectRef>) -> Option<nat> {
    match r {
        Some(r) => Some(r.id as nat),
        None => None,
    }
}

fn entry_dict_of(
    doc: &PdfDocument,
    item: &Dict,
    parent_id: usize,
    dest: Option<(&'static str, Object)>,
    kids: &Vec<usize>,
) -> (r: Dict)
    ensures
        r@ == entry_dict(*doc, item@, parent_id as nat, nav_view(dest), nats(kids@)),
{
    let mut d = Dict::new();
    d.insert("Parent", Object::reference(parent_id));
    let keys: [&str; 3] = ["Title", "C", "F"];
    assert(keys_of(keys@) =~= entry_keys());
    d = pick_keys(doc, item, &keys, d);
    if let Some((k, v)) = dest {
        d.insert(k, v);
    }
    if kids.len() > 0 {
        d = with_kids_of(d, kids);
    }
    d
}

fn with_kids_of(d: Dict, kids: &Vec<usize>) -> (r: Dict)
    requires
        kids@.len() > 0,
    ensures
        r@ == with_kids(d@, nats(kids@)),
{
    let mut out = d;
    out.insert("First", Object::reference(kids[0]));
    out.insert("Last", Object::reference(kids[kids.len() - 1]));
    out.insert("Count", Object::Integer(kids.len() as i64));
    out
}

impl<'a> Builder<'a> {
    /// Where an entry leads in the output.
    pub fn outline_dest(&self, src: usize, item: &Dict) -> (r: Option<(&'static str, Object)>)
        requires
            src < self.env().docs.len(),
        ensures
            nav_view(r) == outline_dest(self.env(), src as nat, item@),
    {
        match item.get("Dest") {
            Some(d) => match self.remap_dest_value(src, d) {
                Some(v) => Some(("Dest", v)),
                None => None,
            },
            None => match item.get("A") {
                Some(a) => {
                    let jump = match self.resolve(src, a) {
                        Some(act) => match act.as_dict() {
                            Some(d) => d.is_name("S", "GoTo"),
                            None => false,
                        },
                        None => false,
                    };
                    if !jump {
                        return None;
                    }
                    match self.remap_action(src, a) {
                        Some(v) => Some(("A", v)),
                        None => None,
                    }
                },
                None => None,
            },
        }
    }

    /// The entries of a chain of siblings.
    fn siblings(&self, src: usize, first: Option<ObjectRef>) -> (r: Vec<&'a Dict>)
        requires
            src < self.env().docs.len(),
        ensures
            dicts(r@) == siblings(self.env().docs[src as int], ref_id(first), Set::empty()),
    {
        let doc: &'a PdfDocument = self.sources[src];
        let ghost all = siblings(*doc, ref_id(first), Set::empty());
        let mut out: Vec<&'a Dict> = Vec::new();
        let mut seen: HashSet<usize> = HashSet::new();
        let mut cur: Option<ObjectRef> = first;
        assert(dicts(out@) + all =~= all);
        loop
            invariant_except_break
                dicts(out@) + siblings(*doc, ref_id(cur), seen@) == all,
            ensures
                dicts(out@) == all,
            decreases unseen(*doc, seen@),
        {
            let r = match cur {
                Some(r) => r,
                None => {
                    assert(dicts(out@) + Seq::<Entries>::empty() =~= dicts(out@));
                    break;
                },
            };
            let item = match doc.load_object(r) {
                Some(o) => o.as_dict(),
                None => None,
            };
            let item: &'a Dict = match item {
                Some(d) => d,
                None => {
                    assert(dicts(out@) + Seq::<Entries>::empty() =~= dicts(out@));
                    break;
                },
            };
            if seen.contains(&r.id) {
                assert(dicts(out@) + Seq::<Entries>::empty() =~= dicts(out@));
                break;
            }
            proof {
                unseen_decreases(*doc, seen@, r.id);
            }
            let ghost before = dicts(out@);
            let ghost seen_before = seen@;
            seen.insert(r.id);
            out.push(item);
            cur = item.get_ref("Next");
            proof {
                let rest = siblings(*doc, ref_id(cur), seen@);
                assert(dicts(out@) =~= before.push(item@));
                assert(before + (seq![item@] + rest) =~= before.push(item@) + rest);
            }
        }
        out
    }

    /// Build a chain of siblings from the entry `first` on. Gives the numbers of those kept.
    pub fn build_outline_items(
        &mut self,
        src: usize,
        first: Option<ObjectRef>,
        parent_id: usize,
        depth: usize,
    ) -> (r: Vec<usize>)
        requires
            src < old(self).env().docs.len(),
        ensures
            final(self).env() == old(self).env(),
            (final(self)@, nats(r@)) == outline_chain(
                old(self).env(),
                old(self)@,
                src as nat,
                ref_id(first),
                parent_id as nat,
                depth as nat,
            ),
        decreases MAX_OUTLINE_DEPTH + 1 - depth, 3nat,
    {
        let mut result: Vec<usize> = Vec::new();
        assert(nats(result@) =~= Seq::empty());
        if depth > MAX_OUTLINE_DEPTH {
            return result;
        }
        let items = self.siblings(src, first);
        let mut i: usize = 0;
        assert(dicts(items@).take(0) =~= Seq::empty());
        while i < items.len()
            invariant
                i <= items@.len(),
                depth <= MAX_OUTLINE_DEPTH,
                src < self.env().docs.len(),
                self.env() == old(self).env(),
                (self@, nats(result@)) == outline_items(
                    old(self).env(),
                    old(self)@,
                    src as nat,
                    dicts(items@).take(i as int),
                    parent_id as nat,
                    depth as nat,
                ),
            decreases items@.len() - i,
        {
            proof {
                let t = dicts(items@).take(i + 1);
                assert(t.drop_last() =~= dicts(items@).take(i as int));
                assert(t.last() == items@[i as int]@);
            }
            let kept = self.build_outline_item(src, items[i], parent_id, depth);
            if let Some(id) = kept {
                let ghost before = nats(result@);
                result.push(id);
                assert(nats(result@) =~= before.push(id as nat));
            }
            i += 1;
        }
        assert(dicts(items@).take(i as int) =~= dicts(items@));
        let ghost s1 = self@;
        let ghost ids = nats(result@);
        let mut k: usize = 0;
        while k < result.len()
            invariant
                k <= result@.len(),
                ids == nats(result@),
                self.env() == old(self).env(),
                self@ == link_siblings(s1, ids, k as nat),
            decreases result@.len() - k,
        {
            let id = result[k];
            if k > 0 {
                self.edit(id, "Prev", Object::reference(result[k - 1]));
            }
            if k + 1 < result.len() {
                self.edit(id, "Next", Object::reference(result[k + 1]));
            }
            k += 1;
        }
        result
    }

    fn build_outline_item(&mut self, src: usize, item: &Dict, parent_id: usize, depth: usize) -> (r:
        Option<usize>)
        requires
            src < old(self).env().docs.len(),
            depth <= MAX_OUTLINE_DEPTH,
        ensures
            final(self).env() == old(self).env(),
            ({
                let (s, id) = outline_item(
                    old(self).env(),
                    old(self)@,
                    src as nat,
                    item@,
                    parent_id as nat,
                    depth as nat,
                );
                &&& final(self)@ == s
                &&& match r {
                    Some(n) => id == Some(n as nat),
                    None => id is None,
                }
            }),
        decreases MAX_OUTLINE_DEPTH + 1 - depth, 1nat,
    {
        let my_id = self.allocate();
        self.set_pin(my_id, true);
        let kids = self.build_outline_items(src, item.get_ref("First"), my_id, depth + 1);
        let dest = self.outline_dest(src, item);
        assert(nats(kids@).len() == kids@.len());
        if dest.is_none() && kids.len() == 0 {
            self.set_pin(my_id, false);
            return None;
        }
        let doc: &PdfDocument = self.sources[src];
        let d = entry_dict_of(doc, item, parent_id, dest, &kids);
        self.put(my_id, Object::Dictionary(d));
        self.outline_entries.bump();
        Some(my_id)
    }

    /// Build the outline. Gives its number, or none where no entry is kept.
    pub fn build_outlines(&mut self, src: usize) -> (r: Option<usize>)
        requires
            src < old(self).env().docs.len(),
        ensures
            final(self).env() == old(self).env(),
            ({
                let (s, id) = outlines(old(self).env(), old(self)@, src as nat);
                &&& final(self)@ == s
                &&& match r {
                    Some(n) => id == Some(n as nat),
                    None => id is None,
                }
            }),
    {
        let doc: &'a PdfDocument = self.sources[src];
        let root = match self.source_catalog(src) {
            Some(cat) => match cat.get_ref("Outlines") {
                Some(r) => match doc.load_object(r) {
                    Some(o) => o.as_dict(),
                    None => None,
                },
                None => None,
            },
            None => None,
        };
        let root = match root {
            Some(d) => d,
            None => return None,
        };
        let outlines_id = self.allocate();
        self.set_pin(outlines_id, true);
        let kids = self.build_outline_items(src, root.get_ref("First"), outlines_id, 0);
        assert(nats(kids@).len() == kids@.len());
        if kids.len() == 0 {
            self.set_pin(outlines_id, false);
            return None;
        }
        let mut d = Dict::new();
        d.insert("Type", Object::name("Outlines"));
        self.put(outlines_id, Object::Dictionary(with_kids_of(d, &kids)));
        Some(outlines_id)
    }
}

} // verus!
