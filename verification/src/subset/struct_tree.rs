//! The structure tree, pruned to the content of kept pages.

use std::collections::HashMap;
use vstd::prelude::*;
use crate::document::{resolve, PdfDocument};
use crate::object::{
    array_view, dict_get, dict_has, dict_insert, dict_is_name, dict_ref, new_ref, obj_dict, obj_integer, views, Dict,
    Entries, Obj, Object,
};
use super::copy::{carry, edit, keys_of, refs, refs_array};
use super::dests::catalog;
use super::direct::{pick, pick_keys};
use super::pages::annot_of;
use super::{nats, next_id, put, set_pin, with_slot, Builder, Env, State, MAX_DEPTH};

verus! {

/// Pieces of marked content that were met: the new page, the content's number on the page, and the
/// structure element that it belongs to.
pub type Marks = Seq<(nat, i64, nat)>;

/// What of a structure element is taken over, besides its type.
pub open spec fn element_keys() -> Seq<Seq<char>> {
    seq!["Alt"@, "ActualText"@, "Lang"@, "T"@, "E"@, "ID"@, "C"@]
}

/// The new page that a dictionary names, where that page is kept.
pub open spec fn kept_page(env: Env, src: nat, d: Entries) -> Option<nat> {
    match dict_ref(d, "Pg"@) {
        Some(id) => if env.pages.contains_key((src, id)) {
            Some(env.pages[(src, id)])
        } else {
            None
        },
        None => None,
    }
}

/// The new page that a reference to marked content lies on, where that page is kept. Without a page of
/// its own that is `page`, the page of the element.
pub open spec fn mark_page(env: Env, src: nat, d: Entries, page: Option<nat>) -> Option<nat> {
    if dict_has(d, "Pg"@) {
        kept_page(env, src, d)
    } else {
        page
    }
}

/// Is `o` content and no element: a content number, a reference to marked content, or one to a whole
/// object?
pub open spec fn is_content(o: Obj) -> bool {
    match o {
        Obj::Integer(_) => true,
        Obj::Dictionary(d) => dict_is_name(d, "Type"@, "MCR"@) || dict_is_name(d, "Type"@, "OBJR"@),
        _ => false,
    }
}

/// The children that a `K` entry stands for.
pub open spec fn k_items(doc: PdfDocument, k: Obj) -> Seq<Obj> {
    match resolve(doc, k) {
        Some(Obj::Array(a)) => a,
        _ => seq![k],
    }
}

/// The value of a `K` entry with the given children.
pub open spec fn k_value(items: Seq<Obj>) -> Obj {
    if items.len() == 1 {
        items[0]
    } else {
        Obj::Array(items)
    }
}

/// A reference to marked content on a page.
pub open spec fn mark_dict(page: nat, mcid: i64) -> Obj {
    Obj::Dictionary(
        dict_insert(
            dict_insert(
                dict_insert(Seq::empty(), "Type"@, Obj::Name("MCR"@)),
                "Pg"@,
                new_ref(page),
            ),
            "MCID"@,
            Obj::Integer(mcid),
        ),
    )
}

/// The content number of a reference to marked content.
pub open spec fn mcid_of(d: Entries) -> Option<i64> {
    match dict_get(d, "MCID"@) {
        Some(o) => obj_integer(o),
        None => None,
    }
}

/// The dictionary of a kept structure element.
pub open spec fn element_dict(
    doc: PdfDocument,
    ed: Entries,
    parent: nat,
    page: Option<nat>,
    kids: Seq<Obj>,
) -> Entries {
    let d0 = dict_insert(
        dict_insert(Seq::empty(), "Type"@, Obj::Name("StructElem"@)),
        "P"@,
        new_ref(parent),
    );
    let d1 = pick(doc, ed, seq!["S"@], d0);
    let d2 = match page {
        Some(p) => dict_insert(d1, "Pg"@, new_ref(p)),
        None => d1,
    };
    dict_insert(pick(doc, ed, element_keys(), d2), "K"@, k_value(kids))
}

/// Copy a structure element with what is below it. Gives its number, or none where no content of a
/// kept page belongs to it.
pub open spec fn struct_elem(
    env: Env,
    st: State,
    marks: Marks,
    src: nat,
    item: Obj,
    parent: nat,
    depth: nat,
) -> (State, Marks, Option<nat>)
    decreases MAX_DEPTH + 2 - depth, 0nat, 0nat,
{
    if depth > MAX_DEPTH {
        (st, marks, None)
    } else {
        match annot_of(env.docs[src as int], item) {
            None => (st, marks, None),
            Some(ed) => {
                let n = next_id(st);
                let page = kept_page(env, src, ed);
                let items = match dict_get(ed, "K"@) {
                    Some(k) => k_items(env.docs[src as int], k),
                    None => Seq::empty(),
                };
                let (s1, m1, kids) = struct_kids(env, with_slot(st), marks, src, items, page, n, depth);
                if kids.len() == 0 {
                    (s1, m1, None)
                } else {
                    let s2 = put(
                        set_pin(s1, n, true),
                        n,
                        Obj::Dictionary(element_dict(env.docs[src as int], ed, parent, page, kids)),
                    );
                    (State { struct_elements: s2.struct_elements + 1, ..s2 }, m1, Some(n))
                }
            },
        }
    }
}

/// Copy the children of the element `n`, from first to last. Gives those that are kept.
pub open spec fn struct_kids(
    env: Env,
    st: State,
    marks: Marks,
    src: nat,
    items: Seq<Obj>,
    page: Option<nat>,
    n: nat,
    depth: nat,
) -> (State, Marks, Seq<Obj>)
    decreases MAX_DEPTH + 1 - depth, 2nat, items.len(),
    when depth <= MAX_DEPTH
{
    if items.len() == 0 {
        (st, marks, Seq::empty())
    } else {
        let (s1, m1, kids) = struct_kids(env, st, marks, src, items.drop_last(), page, n, depth);
        let (s2, m2, kid) = struct_kid(env, s1, m1, src, items.last(), page, n, depth);
        match kid {
            Some(o) => (s2, m2, kids.push(o)),
            None => (s2, m2, kids),
        }
    }
}

/// Copy one child of the element `n`, whose page is `page`: marked content of its own page, a
/// reference to marked content, or an element. References to whole objects are dropped.
pub open spec fn struct_kid(
    env: Env,
    st: State,
    marks: Marks,
    src: nat,
    item: Obj,
    page: Option<nat>,
    n: nat,
    depth: nat,
) -> (State, Marks, Option<Obj>)
    decreases MAX_DEPTH + 1 - depth, 1nat, 0nat,
    when depth <= MAX_DEPTH
{
    match item {
        Obj::Integer(mcid) => match page {
            Some(p) => (st, marks.push((p, mcid, n)), Some(item)),
            None => (st, marks, None),
        },
        _ => {
            if item is Dictionary && dict_is_name(item->Dictionary_0, "Type"@, "MCR"@) {
                let d = item->Dictionary_0;
                match (mark_page(env, src, d, page), mcid_of(d)) {
                    (Some(p), Some(mcid)) => (st, marks.push((p, mcid, n)), Some(mark_dict(p, mcid))),
                    _ => (st, marks, None),
                }
            } else if item is Dictionary && dict_is_name(item->Dictionary_0, "Type"@, "OBJR"@) {
                (st, marks, None)
            } else {
                let (s1, m1, id) = struct_elem(env, st, marks, src, item, n, depth + 1);
                match id {
                    Some(c) => (s1, m1, Some(new_ref(c))),
                    None => (s1, m1, None),
                }
            }
        },
    }
}

/// Copy the elements directly below the root. Gives the numbers of those that are kept.
pub open spec fn struct_tops(env: Env, st: State, src: nat, items: Seq<Obj>, root: nat) -> (
    State,
    Marks,
    Seq<nat>,
)
    decreases items.len(),
{
    if items.len() == 0 {
        (st, Seq::empty(), Seq::empty())
    } else {
        let (s1, m1, ids) = struct_tops(env, st, src, items.drop_last(), root);
        let (s2, m2, id) = struct_elem(env, s1, m1, src, items.last(), root, 0);
        match id {
            Some(c) => (s2, m2, ids.push(c)),
            None => (s2, m2, ids),
        }
    }
}

/// The content numbers and elements of the marks on a page.
pub open spec fn marks_on(marks: Marks, page: nat) -> Seq<(i64, nat)>
    decreases marks.len(),
{
    if marks.len() == 0 {
        Seq::empty()
    } else if marks.last().0 == page {
        marks_on(marks.drop_last(), page).push((marks.last().1, marks.last().2))
    } else {
        marks_on(marks.drop_last(), page)
    }
}

/// A row with `o` at position `mcid`, grown with nulls up to there.
pub open spec fn place(row: Seq<Obj>, mcid: i64, o: Obj) -> Seq<Obj> {
    if mcid < 0 {
        row
    } else if mcid < row.len() {
        row.update(mcid as int, o)
    } else {
        (row + Seq::new((mcid - row.len()) as nat, |i: int| Obj::Null)).push(o)
    }
}

/// The row of the parent tree for a page: at each content number the element it belongs to.
pub open spec fn parent_row(entries: Seq<(i64, nat)>) -> Seq<Obj>
    decreases entries.len(),
{
    if entries.len() == 0 {
        Seq::empty()
    } else {
        place(parent_row(entries.drop_last()), entries.last().0, new_ref(entries.last().1))
    }
}

/// The pairs of key and row of the parent tree for the first `k` pages. A page that has marks gets
/// its key, which counts up from zero.
pub open spec fn parent_nums(st: State, marks: Marks, pages: Seq<nat>, k: nat) -> (State, Seq<Obj>)
    decreases k,
{
    if k == 0 {
        (st, Seq::empty())
    } else {
        let (s1, nums) = parent_nums(st, marks, pages, (k - 1) as nat);
        let entries = marks_on(marks, pages[k - 1]);
        if entries.len() == 0 {
            (s1, nums)
        } else {
            let key = Obj::Integer((nums.len() / 2) as i64);
            (
                edit(s1, pages[k - 1], "StructParents"@, key),
                nums.push(key).push(Obj::Array(parent_row(entries))),
            )
        }
    }
}

/// The structure tree root of a document.
pub open spec fn struct_root(doc: PdfDocument) -> Option<Entries> {
    match catalog(doc) {
        Some(cat) => match dict_ref(cat, "StructTreeRoot"@) {
            Some(id) => match doc.lookup(id) {
                Some(o) => obj_dict(o),
                None => None,
            },
            None => None,
        },
        None => None,
    }
}

/// Build the root over the kept elements, and the parent tree.
pub open spec fn finish_root(
    env: Env,
    st: State,
    marks: Marks,
    src: nat,
    source_root: Entries,
    root: nat,
    kids: Seq<nat>,
) -> State {
    let (s1, nums) = parent_nums(st, marks, st.page_ids, st.page_ids.len());
    let pt = next_id(s1);
    let s2 = put(
        set_pin(with_slot(s1), pt, true),
        pt,
        Obj::Dictionary(dict_insert(Seq::empty(), "Nums"@, Obj::Array(nums))),
    );
    let d0 = dict_insert(Seq::empty(), "Type"@, Obj::Name("StructTreeRoot"@));
    let d1 = dict_insert(d0, "ParentTree"@, new_ref(pt));
    let d2 = dict_insert(d1, "ParentTreeNextKey"@, Obj::Integer((nums.len() / 2) as i64));
    let d3 = dict_insert(d2, "K"@, k_value(refs(kids)));
    let (s3, d4) = carry(env, s2, src, source_root, seq!["RoleMap"@, "ClassMap"@], 1, d3);
    put(s3, root, Obj::Dictionary(d4))
}

/// Build the structure tree. Gives its number, or none where no element is kept.
pub open spec fn struct_tree(env: Env, st: State, src: nat) -> (State, Option<nat>) {
    match struct_root(env.docs[src as int]) {
        None => (st, None),
        Some(source_root) => {
            let n = next_id(st);
            let s1 = set_pin(with_slot(st), n, true);
            let items = match dict_get(source_root, "K"@) {
                Some(k) => k_items(env.docs[src as int], k),
                None => Seq::empty(),
            };
            let (s2, marks, kids) = struct_tops(env, s1, src, items, n);
            if kids.len() == 0 {
                (set_pin(s2, n, false), None)
            } else {
                (finish_root(env, s2, marks, src, source_root, n, kids), Some(n))
            }
        },
    }
}

/// Does content of a kept page belong to the element, or to one below it?
pub open spec fn elem_survives(env: Env, src: nat, item: Obj, depth: nat) -> bool
    decreases MAX_DEPTH + 2 - depth, 0nat,
{
    depth <= MAX_DEPTH && match annot_of(env.docs[src as int], item) {
        Some(ed) => dict_get(ed, "K"@) is Some && kids_survive(
            env,
            src,
            k_items(env.docs[src as int], dict_get(ed, "K"@)->0),
            kept_page(env, src, ed),
            depth,
        ),
        None => false,
    }
}

/// Is any of the children content of a kept page, or does content of one belong to it? Content that
/// is given without a page is on the page of the element.
pub open spec fn kids_survive(
    env: Env,
    src: nat,
    items: Seq<Obj>,
    page: Option<nat>,
    depth: nat,
) -> bool
    decreases MAX_DEPTH + 1 - depth, 1nat,
    when depth <= MAX_DEPTH
{
    exists|i: int|
        0 <= i < items.len() && match #[trigger] items[i] {
            Obj::Integer(_) => page is Some,
            _ => if items[i] is Dictionary && dict_is_name(items[i]->Dictionary_0, "Type"@, "MCR"@) {
                mark_page(env, src, items[i]->Dictionary_0, page) is Some && mcid_of(
                    items[i]->Dictionary_0,
                ) is Some
            } else if items[i] is Dictionary && dict_is_name(items[i]->Dictionary_0, "Type"@, "OBJR"@) {
                false
            } else {
                elem_survives(env, src, items[i], depth + 1)
            },
        }
}

/// A structure element is kept exactly where content of a kept page belongs to it, or to an element
/// below it.
pub proof fn elem_kept_iff(
    env: Env,
    st: State,
    marks: Marks,
    src: nat,
    item: Obj,
    parent: nat,
    depth: nat,
)
    ensures
        struct_elem(env, st, marks, src, item, parent, depth).2 is Some <==> elem_survives(
            env,
            src,
            item,
            depth,
        ),
    decreases MAX_DEPTH + 2 - depth, 0nat, 0nat,
{
    if depth <= MAX_DEPTH {
        if let Some(ed) = annot_of(env.docs[src as int], item) {
            let items = match dict_get(ed, "K"@) {
                Some(k) => k_items(env.docs[src as int], k),
                None => Seq::empty(),
            };
            elem_kids_kept_iff(
                env,
                with_slot(st),
                marks,
                src,
                items,
                kept_page(env, src, ed),
                next_id(st),
                depth,
            );
        }
    }
}

/// Of the children of a structure element some are kept exactly where some survive.
pub proof fn elem_kids_kept_iff(
    env: Env,
    st: State,
    marks: Marks,
    src: nat,
    items: Seq<Obj>,
    page: Option<nat>,
    n: nat,
    depth: nat,
)
    requires
        depth <= MAX_DEPTH,
    ensures
        struct_kids(env, st, marks, src, items, page, n, depth).2.len() > 0 <==> kids_survive(
            env,
            src,
            items,
            page,
            depth,
        ),
    decreases MAX_DEPTH + 1 - depth, 2nat, items.len(),
{
    if items.len() > 0 {
        let front = items.drop_last();
        let last = items.last();
        elem_kids_kept_iff(env, st, marks, src, front, page, n, depth);
        let (s1, m1, kids) = struct_kids(env, st, marks, src, front, page, n, depth);
        let (s2, m2, kid) = struct_kid(env, s1, m1, src, last, page, n, depth);
        if !(last is Integer) && !(last is Dictionary && (dict_is_name(last->Dictionary_0, "Type"@, "MCR"@)
            || dict_is_name(last->Dictionary_0, "Type"@, "OBJR"@))) {
            elem_kept_iff(env, s1, m1, src, last, n, depth + 1);
        }
        assert(items[items.len() - 1] == last);
        assert forall|i: int| 0 <= i < front.len() implies #[trigger] items[i] == front[i] by {}
        if kids_survive(env, src, front, page, depth) {
            let i = choose|i: int|
                0 <= i < front.len() && match #[trigger] front[i] {
                    Obj::Integer(_) => page is Some,
                    _ => if front[i] is Dictionary && dict_is_name(front[i]->Dictionary_0, "Type"@, "MCR"@) {
                        mark_page(env, src, front[i]->Dictionary_0, page) is Some && mcid_of(
                            front[i]->Dictionary_0,
                        ) is Some
                    } else if front[i] is Dictionary && dict_is_name(
                        front[i]->Dictionary_0,
                        "Type"@,
                        "OBJR"@,
                    ) {
                        false
                    } else {
                        elem_survives(env, src, front[i], depth + 1)
                    },
                };
            assert(items[i] == front[i]);
            assert(kids_survive(env, src, items, page, depth));
        }
    }
}

/// Is `m` the last entry with its content number?
pub open spec fn last_of_number(entries: Seq<(i64, nat)>, m: int) -> bool {
    0 <= m < entries.len() && forall|j: int| m < j < entries.len() ==> (#[trigger] entries[j]).0 != entries[m].0
}

/// A row of the parent tree reaches to the greatest content number, holds at each content number
/// the element that it belongs to, the last where there are several, and null elsewhere.
pub proof fn parent_row_holds(entries: Seq<(i64, nat)>)
    ensures
        ({
            let row = parent_row(entries);
            &&& forall|m: int| 0 <= m < entries.len() ==> (#[trigger] entries[m]).0 < row.len()
            &&& row.len() > 0 ==> exists|m: int|
                0 <= m < entries.len() && (#[trigger] entries[m]).0 == row.len() - 1
            &&& forall|m: int| #[trigger]
                last_of_number(entries, m) && entries[m].0 >= 0 ==> row[entries[m].0 as int] == new_ref(
                    entries[m].1,
                )
            &&& forall|i: int|
                0 <= i < row.len() && (forall|m: int|
                    0 <= m < entries.len() ==> (#[trigger] entries[m]).0 != i) ==> #[trigger] row[i] == Obj::Null
        }),
    decreases entries.len(),
{
    if entries.len() > 0 {
        let front = entries.drop_last();
        let k = entries.len() - 1;
        parent_row_holds(front);
        let before = parent_row(front);
        let row = parent_row(entries);
        let at = entries.last().0;
        assert(entries[k] == entries.last());
        assert(row == place(before, at, new_ref(entries.last().1)));
        assert forall|m: int| 0 <= m < entries.len() implies (#[trigger] entries[m]).0 < row.len() by {
            if m < k {
                assert(front[m].0 < before.len());
            }
        }
        if row.len() > 0 {
            if row.len() == before.len() {
                let m = choose|m: int| 0 <= m < front.len() && (#[trigger] front[m]).0 == before.len() - 1;
                assert(entries[m].0 == row.len() - 1);
            } else {
                assert(entries[k].0 == row.len() - 1);
            }
        }
        assert forall|m: int| #[trigger] last_of_number(entries, m) && entries[m].0 >= 0 implies row[entries[m].0 as int]
            == new_ref(entries[m].1) by {
            if m < k {
                assert(entries[k].0 != entries[m].0);
                assert(front[m] == entries[m]);
                assert(last_of_number(front, m)) by {
                    assert forall|j: int| m < j < front.len() implies (#[trigger] front[j]).0 != front[m].0 by {
                        assert(entries[j].0 != entries[m].0);
                    }
                }
                assert(front[m].0 < before.len());
            }
        }
        assert forall|i: int|
            0 <= i < row.len() && (forall|m: int|
                0 <= m < entries.len() ==> (#[trigger] entries[m]).0 != i) implies #[trigger] row[i]
            == Obj::Null by {
            assert(entries[k].0 != i);
            if i < before.len() {
                assert forall|m: int| 0 <= m < front.len() implies (#[trigger] front[m]).0 != i by {
                    assert(entries[m].0 != i);
                }
                assert(before[i] == Obj::Null);
            }
        }
    }
}

/// The marks, by the values of their numbers.
pub open spec fn marks_view(marks: Seq<(usize, i64, usize)>) -> Marks {
    marks.map_values(|m: (usize, i64, usize)| (m.0 as nat, m.1, m.2 as nat))
}

/// The content numbers and elements of a page, by the values of their numbers.
pub open spec fn page_marks_view(marks: Seq<(i64, usize)>) -> Seq<(i64, nat)> {
    marks.map_values(|m: (i64, usize)| (m.0, m.1 as nat))
}

fn element_dict_of(
    doc: &PdfDocument,
    ed: &Dict,
    parent_id: usize,
    page: Option<usize>,
    kids: Vec<Object>,
) -> (r: Dict)
    requires
        kids@.len() > 0,
    ensures
        r@ == element_dict(
            *doc,
            ed@,
            parent_id as nat,
            match page {
                Some(p) => Some(p as nat),
                None => None,
            },
            views(kids@),
        ),
{
    broadcast use array_view;

    let mut d = Dict::new();
    d.insert("Type", Object::name("StructElem"));
    d.insert("P", Object::reference(parent_id));
    let kind: [&str; 1] = ["S"];
    assert(keys_of(kind@) =~= seq!["S"@]);
    d = pick_keys(doc, ed, &kind, d);
    if let Some(p) = page {
        d.insert("Pg", Object::reference(p));
    }
    let keys: [&str; 7] = ["Alt", "ActualText", "Lang", "T", "E", "ID", "C"];
    assert(keys_of(keys@) =~= element_keys());
    d = pick_keys(doc, ed, &keys, d);
    d.insert("K", k_value_of(kids));
    d
}

fn k_value_of(kids: Vec<Object>) -> (r: Object)
    requires
        kids@.len() > 0,
    ensures
        r@ == k_value(views(kids@)),
{
    broadcast use array_view;

    if kids.len() == 1 {
        kids[0].clone()
    } else {
        Object::Array(kids)
    }
}

fn mark_dict_of(page: usize, mcid: i64) -> (r: Object)
    ensures
        r@ == mark_dict(page as nat, mcid),
{
    let mut nd = Dict::new();
    nd.insert("Type", Object::name("MCR"));
    nd.insert("Pg", Object::reference(page));
    nd.insert("MCID", Object::Integer(mcid));
    Object::Dictionary(nd)
}

/// The row of the parent tree for a page.
fn parent_row_of(entries: &Vec<(i64, usize)>) -> (r: Vec<Object>)
    ensures
        views(r@) == parent_row(page_marks_view(entries@)),
{
    let mut row: Vec<Object> = Vec::new();
    let mut i: usize = 0;
    let ghost all = page_marks_view(entries@);
    assert(all.take(0) =~= Seq::empty());
    assert(views(row@) =~= Seq::empty());
    while i < entries.len()
        invariant
            i <= entries@.len(),
            all == page_marks_view(entries@),
            views(row@) == parent_row(all.take(i as int)),
        decreases entries@.len() - i,
    {
        let (mcid, elem) = entries[i];
        proof {
            let t = all.take(i + 1);
            assert(t.drop_last() =~= all.take(i as int));
            assert(t.last() == (mcid, elem as nat));
        }
        let ghost before = views(row@);
        if mcid >= 0 {
            if (row.len() as u128) <= mcid as u128 {
                while (row.len() as u128) < mcid as u128
                    invariant
                        mcid >= 0,
                        before.len() <= row@.len() <= mcid,
                        views(row@) == before + Seq::new((row@.len() - before.len()) as nat, |i: int| Obj::Null),
                    decreases mcid - row@.len(),
                {
                    let ghost prev = row@;
                    row.push(Object::Null);
                    assert(views(row@) =~= views(prev).push(Obj::Null));
                    assert(views(row@) =~= before + Seq::new(
                        (row@.len() - before.len()) as nat,
                        |i: int| Obj::Null,
                    ));
                }
                let ghost prev = row@;
                row.push(Object::reference(elem));
                assert(views(row@) =~= views(prev).push(new_ref(elem as nat)));
            } else {
                let at: usize = mcid as usize;
                row.set(at, Object::reference(elem));
                assert(views(row@) =~= before.update(mcid as int, new_ref(elem as nat)));
            }
        }
        assert(views(row@) == place(before, mcid, new_ref(elem as nat)));
        i += 1;
    }
    assert(all.take(i as int) =~= all);
    row
}

/// The marks of each page.
fn group_marks(marks: &Vec<(usize, i64, usize)>) -> (r: HashMap<usize, Vec<(i64, usize)>>)
    ensures
        forall|pg: usize|
            (#[trigger] marks_on(marks_view(marks@), pg as nat)) == (if r@.contains_key(pg) {
                page_marks_view(r@[pg]@)
            } else {
                Seq::empty()
            }),
{
    let mut groups: HashMap<usize, Vec<(i64, usize)>> = HashMap::new();
    let mut i: usize = 0;
    let ghost all = marks_view(marks@);
    assert(all.take(0) =~= Seq::empty());
    while i < marks.len()
        invariant
            i <= marks@.len(),
            all == marks_view(marks@),
            forall|pg: usize|
                (#[trigger] marks_on(all.take(i as int), pg as nat)) == (if groups@.contains_key(pg) {
                    page_marks_view(groups@[pg]@)
                } else {
                    Seq::empty()
                }),
        decreases marks@.len() - i,
    {
        let (pg, mcid, elem) = marks[i];
        proof {
            let t = all.take(i + 1);
            assert(t.drop_last() =~= all.take(i as int));
            assert(t.last() == (pg as nat, mcid, elem as nat));
        }
        let ghost before = groups@;
        let ghost was = marks_on(all.take(i as int), pg as nat);
        let mut group = match groups.remove(&pg) {
            Some(g) => g,
            None => Vec::new(),
        };
        assert(page_marks_view(group@) =~= was);
        group.push((mcid, elem));
        assert(page_marks_view(group@) =~= was.push((mcid, elem as nat)));
        groups.insert(pg, group);
        assert forall|p: usize|
            (#[trigger] marks_on(all.take(i + 1), p as nat)) == (if groups@.contains_key(p) {
                page_marks_view(groups@[p]@)
            } else {
                Seq::empty()
            }) by {
            let earlier = marks_on(all.take(i as int), p as nat);
            if p != pg {
                assert(groups@.contains_key(p) == before.contains_key(p));
            }
        }
        i += 1;
    }
    assert(all.take(i as int) =~= all);
    groups
}

impl<'a> Builder<'a> {
    /// The new page that a dictionary names, where that page is kept.
    fn kept_page(&self, src: usize, d: &Dict) -> (r: Option<usize>)
        ensures
            match r {
                Some(p) => kept_page(self.env(), src as nat, d@) == Some(p as nat),
                None => kept_page(self.env(), src as nat, d@) is None,
            },
    {
        match d.get_ref("Pg") {
            Some(r) => self.page_id_map.get(src, r.id),
            None => None,
        }
    }

    /// The children that a `K` entry stands for.
    pub fn struct_k_items(&self, src: usize, k: &Object) -> (r: Vec<Object>)
        requires
            src < self.env().docs.len(),
        ensures
            views(r@) == k_items(self.env().docs[src as int], k@),
    {
        broadcast use array_view;

        let found = match self.resolve(src, k) {
            Some(o) => o.as_array(),
            None => None,
        };
        match found {
            Some(a) => {
                let mut out: Vec<Object> = Vec::new();
                let mut i: usize = 0;
                assert(views(out@) =~= views(a@).take(0));
                while i < a.len()
                    invariant
                        i <= a@.len(),
                        views(out@) == views(a@).take(i as int),
                    decreases a@.len() - i,
                {
                    let ghost before = views(out@);
                    let o = a[i].clone();
                    out.push(o);
                    assert(views(out@) =~= before.push(o@));
                    assert(views(out@) =~= views(a@).take(i + 1));
                    i += 1;
                }
                assert(views(a@).take(i as int) =~= views(a@));
                out
            },
            None => {
                let mut out: Vec<Object> = Vec::new();
                out.push(k.clone());
                assert(views(out@) =~= seq![k@]);
                out
            },
        }
    }

    /// Copy a structure element with what is below it that belongs to content of a kept page. Gives its
    /// new number, or none where nothing of it is kept. The content that is kept is added to `content`,
    /// with its page, its content number and its element.
    pub fn import_struct_elem(
        &mut self,
        src: usize,
        item: &Object,
        parent_id: usize,
        content: &mut Vec<(usize, i64, usize)>,
        depth: usize,
    ) -> (r: Option<usize>)
        requires
            src < old(self).env().docs.len(),
        ensures
            final(self).env() == old(self).env(),
            ({
                let (s, m, id) = struct_elem(
                    old(self).env(),
                    old(self)@,
                    marks_view(old(content)@),
                    src as nat,
                    item@,
                    parent_id as nat,
                    depth as nat,
                );
                &&& final(self)@ == s
                &&& marks_view(final(content)@) == m
                &&& match r {
                    Some(n) => id == Some(n as nat),
                    None => id is None,
                }
            }),
        decreases MAX_DEPTH + 2 - depth, 0nat,
    {
        if depth > MAX_DEPTH {
            return None;
        }
        let ed = match self.resolve(src, item) {
            Some(o) => match o.as_dict() {
                Some(d) => d,
                None => return None,
            },
            None => return None,
        };
        let page = self.kept_page(src, ed);
        let items = match ed.get("K") {
            Some(k) => self.struct_k_items(src, k),
            None => {
                let none: Vec<Object> = Vec::new();
                assert(views(none@) =~= Seq::empty());
                none
            },
        };
        let my_id = self.allocate();
        let kids = self.import_struct_kids(src, &items, page, my_id, content, depth);
        assert(views(kids@).len() == kids@.len());
        if kids.len() == 0 {
            return None;
        }
        self.set_pin(my_id, true);
        let doc: &PdfDocument = self.sources[src];
        let d = element_dict_of(doc, ed, parent_id, page, kids);
        self.put(my_id, Object::Dictionary(d));
        self.struct_elements.bump();
        Some(my_id)
    }

    fn import_struct_kids(
        &mut self,
        src: usize,
        items: &Vec<Object>,
        page: Option<usize>,
        my_id: usize,
        content: &mut Vec<(usize, i64, usize)>,
        depth: usize,
    ) -> (r: Vec<Object>)
        requires
            src < old(self).env().docs.len(),
            depth <= MAX_DEPTH,
        ensures
            final(self).env() == old(self).env(),
            (final(self)@, marks_view(final(content)@), views(r@)) == struct_kids(
                old(self).env(),
                old(self)@,
                marks_view(old(content)@),
                src as nat,
                views(items@),
                match page {
                    Some(p) => Some(p as nat),
                    None => None,
                },
                my_id as nat,
                depth as nat,
            ),
        decreases MAX_DEPTH + 1 - depth, 2nat,
    {
        let mut kids: Vec<Object> = Vec::new();
        let mut i: usize = 0;
        let ghost all = views(items@);
        assert(all.take(0) =~= Seq::empty());
        assert(views(kids@) =~= Seq::empty());
        while i < items.len()
            invariant
                i <= items@.len(),
                all == views(items@),
                depth <= MAX_DEPTH,
                src < self.env().docs.len(),
                self.env() == old(self).env(),
                (self@, marks_view(content@), views(kids@)) == struct_kids(
                    old(self).env(),
                    old(self)@,
                    marks_view(old(content)@),
                    src as nat,
                    all.take(i as int),
                    match page {
                        Some(p) => Some(p as nat),
                        None => None,
                    },
                    my_id as nat,
                    depth as nat,
                ),
            decreases items@.len() - i,
        {
            proof {
                let t = all.take(i + 1);
                assert(t.drop_last() =~= all.take(i as int));
                assert(t.last() == items@[i as int]@);
            }
            let kid = self.import_struct_kid(src, &items[i], page, my_id, content, depth);
            if let Some(o) = kid {
                let ghost before = views(kids@);
                kids.push(o);
                assert(views(kids@) =~= before.push(o@));
            }
            i += 1;
        }
        assert(all.take(i as int) =~= all);
        kids
    }

    fn import_struct_kid(
        &mut self,
        src: usize,
        item: &Object,
        page: Option<usize>,
        my_id: usize,
        content: &mut Vec<(usize, i64, usize)>,
        depth: usize,
    ) -> (r: Option<Object>)
        requires
            src < old(self).env().docs.len(),
            depth <= MAX_DEPTH,
        ensures
            final(self).env() == old(self).env(),
            ({
                let (s, m, kid) = struct_kid(
                    old(self).env(),
                    old(self)@,
                    marks_view(old(content)@),
                    src as nat,
                    item@,
                    match page {
                        Some(p) => Some(p as nat),
                        None => None,
                    },
                    my_id as nat,
                    depth as nat,
                );
                &&& final(self)@ == s
                &&& marks_view(final(content)@) == m
                &&& match r {
                    Some(o) => kid == Some(o@),
                    None => kid is None,
                }
            }),
        decreases MAX_DEPTH + 1 - depth, 1nat,
    {
        let ghost before = marks_view(content@);
        match item {
            Object::Integer(mcid) => match page {
                Some(p) => {
                    content.push((p, *mcid, my_id));
                    assert(marks_view(content@) =~= before.push((p as nat, *mcid, my_id as nat)));
                    return Some(Object::Integer(*mcid));
                },
                None => return None,
            },
            Object::Dictionary(d) => {
                if d.is_name("Type", "MCR") {
                    let mcid = match d.get("MCID") {
                        Some(o) => o.as_integer(),
                        None => None,
                    };
                    let on = if d.contains_key("Pg") {
                        self.kept_page(src, d)
                    } else {
                        page
                    };
                    return match (on, mcid) {
                        (Some(p), Some(mcid)) => {
                            content.push((p, mcid, my_id));
                            assert(marks_view(content@) =~= before.push((p as nat, mcid, my_id as nat)));
                            Some(mark_dict_of(p, mcid))
                        },
                        _ => None,
                    };
                }
                if d.is_name("Type", "OBJR") {
                    return None;
                }
            },
            _ => {},
        }
        match self.import_struct_elem(src, item, my_id, content, depth + 1) {
            Some(c) => Some(Object::reference(c)),
            None => None,
        }
    }

    /// Give each page with marks its key, and make the pairs of key and row of the parent tree.
    fn build_parent_nums(&mut self, content: &Vec<(usize, i64, usize)>) -> (r: Vec<Object>)
        ensures
            final(self).env() == old(self).env(),
            (final(self)@, views(r@)) == parent_nums(
                old(self)@,
                marks_view(content@),
                old(self)@.page_ids,
                old(self)@.page_ids.len(),
            ),
    {
        broadcast use array_view;

        let groups = group_marks(content);
        let ghost marks = marks_view(content@);
        let ghost pages = old(self)@.page_ids;
        let mut nums: Vec<Object> = Vec::new();
        let mut k: usize = 0;
        assert(views(nums@) =~= Seq::empty());
        let page_ids: Vec<usize> = self.page_ids.clone();
        assert(nats(page_ids@) =~= pages);
        while k < page_ids.len()
            invariant
                k <= page_ids@.len(),
                pages == nats(page_ids@),
                self.env() == old(self).env(),
                forall|pg: usize|
                    (#[trigger] marks_on(marks, pg as nat)) == (if groups@.contains_key(pg) {
                        page_marks_view(groups@[pg]@)
                    } else {
                        Seq::empty()
                    }),
                (self@, views(nums@)) == parent_nums(old(self)@, marks, pages, k as nat),
            decreases page_ids@.len() - k,
        {
            let pg = page_ids[k];
            let ghost s1 = self@;
            let ghost before = views(nums@);
            assert(marks_on(marks, pages[k as int]) == marks_on(marks, pg as nat));
            if let Some(entries) = groups.get(&pg) {
                assert(page_marks_view(entries@).len() == entries@.len());
                if entries.len() > 0 {
                    let key: i64 = (nums.len() / 2) as i64;
                    let row = parent_row_of(entries);
                    proof {
                        array_view(row);
                    }
                    self.edit(pg, "StructParents", Object::Integer(key));
                    nums.push(Object::Integer(key));
                    let row = Object::Array(row);
                    nums.push(row);
                    assert(views(nums@) =~= before.push(Obj::Integer(key)).push(
                        Obj::Array(parent_row(page_marks_view(entries@))),
                    ));
                }
            }
            k += 1;
        }
        nums
    }

    fn finish_struct_root(
        &mut self,
        src: usize,
        source_root: &Dict,
        root_id: usize,
        kids: &Vec<usize>,
        content: &Vec<(usize, i64, usize)>,
    )
        requires
            src < old(self).env().docs.len(),
            kids@.len() > 0,
        ensures
            final(self).env() == old(self).env(),
            final(self)@ == finish_root(
                old(self).env(),
                old(self)@,
                marks_view(content@),
                src as nat,
                source_root@,
                root_id as nat,
                nats(kids@),
            ),
    {
        broadcast use array_view;

        let nums = self.build_parent_nums(content);
        let next_key: i64 = (nums.len() / 2) as i64;
        assert(views(nums@).len() == nums@.len());
        let pt_id = self.allocate();
        self.set_pin(pt_id, true);
        let mut pt = Dict::new();
        pt.insert("Nums", Object::Array(nums));
        self.put(pt_id, Object::Dictionary(pt));

        let mut root = Dict::new();
        root.insert("Type", Object::name("StructTreeRoot"));
        root.insert("ParentTree", Object::reference(pt_id));
        root.insert("ParentTreeNextKey", Object::Integer(next_key));
        let k = if kids.len() == 1 {
            Object::reference(kids[0])
        } else {
            refs_array(kids)
        };
        assert(k@ == k_value(refs(nats(kids@))));
        root.insert("K", k);
        let keys: [&str; 2] = ["RoleMap", "ClassMap"];
        assert(keys_of(keys@) =~= seq!["RoleMap"@, "ClassMap"@]);
        root = self.carry(src, source_root, &keys, 1, root);
        self.put(root_id, Object::Dictionary(root));
    }

    /// Build the structure tree. Gives its number, or none where no element is kept.
    pub fn build_struct_tree(&mut self, src: usize) -> (r: Option<usize>)
        requires
            src < old(self).env().docs.len(),
        ensures
            final(self).env() == old(self).env(),
            ({
                let (s, id) = struct_tree(old(self).env(), old(self)@, src as nat);
                &&& final(self)@ == s
                &&& match r {
                    Some(n) => id == Some(n as nat),
                    None => id is None,
                }
            }),
    {
        let doc: &'a PdfDocument = self.sources[src];
        let source_root = match self.source_catalog(src) {
            Some(cat) => match cat.get_ref("StructTreeRoot") {
                Some(r) => match doc.load_object(r) {
                    Some(o) => o.as_dict(),
                    None => None,
                },
                None => None,
            },
            None => None,
        };
        let source_root = match source_root {
            Some(d) => d,
            None => return None,
        };
        let items = match source_root.get("K") {
            Some(k) => self.struct_k_items(src, k),
            None => {
                let none: Vec<Object> = Vec::new();
                assert(views(none@) =~= Seq::empty());
                none
            },
        };
        let root_id = self.allocate();
        self.set_pin(root_id, true);
        let ghost s1 = self@;
        let mut content: Vec<(usize, i64, usize)> = Vec::new();
        let mut kids: Vec<usize> = Vec::new();
        let mut i: usize = 0;
        let ghost all = views(items@);
        assert(all.take(0) =~= Seq::empty());
        assert(marks_view(content@) =~= Seq::empty());
        assert(nats(kids@) =~= Seq::empty());
        while i < items.len()
            invariant
                i <= items@.len(),
                all == views(items@),
                src < self.env().docs.len(),
                self.env() == old(self).env(),
                (self@, marks_view(content@), nats(kids@)) == struct_tops(
                    old(self).env(),
                    s1,
                    src as nat,
                    all.take(i as int),
                    root_id as nat,
                ),
            decreases items@.len() - i,
        {
            proof {
                let t = all.take(i + 1);
                assert(t.drop_last() =~= all.take(i as int));
                assert(t.last() == items@[i as int]@);
            }
            let kid = self.import_struct_elem(src, &items[i], root_id, &mut content, 0);
            if let Some(c) = kid {
                let ghost before = nats(kids@);
                kids.push(c);
                assert(nats(kids@) =~= before.push(c as nat));
            }
            i += 1;
        }
        assert(all.take(i as int) =~= all);
        assert(nats(kids@).len() == kids@.len());
        if kids.len() == 0 {
            self.set_pin(root_id, false);
            return None;
        }
        self.finish_struct_root(src, source_root, root_id, &kids, &content);
        Some(root_id)
    }
}

} // verus!
