//! The pages of a source document, by the numbers of their objects.

use std::collections::HashSet;
use vstd::prelude::*;
use crate::document::PdfDocument;
use crate::object::{
    array_view, dict_get, dict_is_name, dict_ref, obj_array, obj_dict, obj_ref, views, Obj, Object, ObjectRef,
};
use super::dests::catalog;
use super::MAX_DEPTH;

verus! {

/// Collect the leaves of the page tree below the node `id`, in order. A node is visited once.
pub open spec fn collect_leaves(
    doc: PdfDocument,
    id: nat,
    found: Seq<nat>,
    visited: Set<nat>,
    depth: nat,
) -> (Seq<nat>, Set<nat>)
    decreases MAX_DEPTH + 2 - depth, 0nat, 0nat,
{
    if depth > MAX_DEPTH || visited.contains(id) {
        (found, visited)
    } else {
        let node = match doc.lookup(id) {
            Some(o) => obj_dict(o),
            None => None,
        };
        match node {
            None => (found, visited.insert(id)),
            Some(d) => if dict_is_name(d, "Type"@, "Pages"@) {
                let kids = match dict_get(d, "Kids"@) {
                    Some(k) => match obj_array(k) {
                        Some(a) => a,
                        None => Seq::empty(),
                    },
                    None => Seq::empty(),
                };
                collect_kids(doc, kids, kids.len(), found, visited.insert(id), depth + 1)
            } else {
                (found.push(id), visited.insert(id))
            },
        }
    }
}

/// Collect the leaves below the first `k` kids, in order.
pub open spec fn collect_kids(
    doc: PdfDocument,
    kids: Seq<Obj>,
    k: nat,
    found: Seq<nat>,
    visited: Set<nat>,
    depth: nat,
) -> (Seq<nat>, Set<nat>)
    decreases MAX_DEPTH + 2 - depth, 1nat, k,
{
    if k == 0 {
        (found, visited)
    } else {
        let (f, v) = collect_kids(doc, kids, (k - 1) as nat, found, visited, depth);
        match obj_ref(kids[k - 1]) {
            Some(id) => collect_leaves(doc, id, f, v, depth),
            None => (f, v),
        }
    }
}

/// The leaves of the page tree of a document, in order.
pub open spec fn leaves(doc: PdfDocument) -> Seq<nat> {
    match catalog(doc) {
        Some(cat) => match dict_ref(cat, "Pages"@) {
            Some(id) => collect_leaves(doc, id, Seq::empty(), Set::empty(), 0).0,
            None => Seq::empty(),
        },
        None => Seq::empty(),
    }
}

/// A set of object numbers, by their values.
pub open spec fn number_set(s: Set<usize>) -> Set<nat> {
    Set::new(|n: nat| n <= usize::MAX && s.contains(n as usize))
}

fn collect_leaf_ids(
    doc: &PdfDocument,
    node_ref: ObjectRef,
    out: &mut Vec<usize>,
    visited: &mut HashSet<usize>,
    depth: usize,
)
    ensures
        (super::nats(final(out)@), number_set(final(visited)@)) == collect_leaves(
            *doc,
            node_ref.id as nat,
            super::nats(old(out)@),
            number_set(old(visited)@),
            depth as nat,
        ),
    decreases MAX_DEPTH + 2 - depth,
{
    broadcast use array_view;

    if depth > MAX_DEPTH || visited.contains(&node_ref.id) {
        return;
    }
    visited.insert(node_ref.id);
    let ghost v1 = number_set(visited@);
    assert(v1 =~= number_set(old(visited)@).insert(node_ref.id as nat));
    let dict = match doc.load_object(node_ref) {
        Some(o) => match o.as_dict() {
            Some(d) => d,
            None => return,
        },
        None => return,
    };
    if !dict.is_name("Type", "Pages") {
        out.push(node_ref.id);
        assert(super::nats(out@) =~= super::nats(old(out)@).push(node_ref.id as nat));
        return;
    }
    let none: Vec<Object> = Vec::new();
    let kids: &Vec<Object> = match dict.get("Kids") {
        Some(k) => match k.as_array() {
            Some(a) => a,
            None => &none,
        },
        None => &none,
    };
    let ghost all = views(kids@);
    assert(views(none@) =~= Seq::empty());
    assert(all == (match dict_get(dict@, "Kids"@) {
        Some(k) => match obj_array(k) {
            Some(a) => a,
            None => Seq::empty(),
        },
        None => Seq::empty(),
    }));
    let mut i: usize = 0;
    while i < kids.len()
        invariant
            i <= kids@.len(),
            depth <= MAX_DEPTH,
            all == views(kids@),
            (super::nats(out@), number_set(visited@)) == collect_kids(
                *doc,
                all,
                i as nat,
                super::nats(old(out)@),
                v1,
                (depth + 1) as nat,
            ),
        decreases kids@.len() - i,
    {
        assert(all[i as int] == kids@[i as int]@);
        if let Some(kref) = kids[i].as_reference() {
            collect_leaf_ids(doc, kref, out, visited, depth + 1);
        }
        i += 1;
    }
}

/// The numbers of the page objects of a document, in order.
pub fn all_page_leaf_ids(doc: &PdfDocument) -> (r: Vec<usize>)
    ensures
        super::nats(r@) == leaves(*doc),
{
    let mut out: Vec<usize> = Vec::new();
    let mut visited: HashSet<usize> = HashSet::new();
    assert(super::nats(out@) =~= Seq::empty());
    assert(number_set(visited@) =~= Set::empty());
    let pages = match doc.trailer().as_dict() {
        Some(t) => match t.get_ref("Root") {
            Some(root) => match doc.load_object(root) {
                Some(o) => match o.as_dict() {
                    Some(cat) => cat.get_ref("Pages"),
                    None => None,
                },
                None => None,
            },
            None => None,
        },
        None => None,
    };
    if let Some(pages_ref) = pages {
        collect_leaf_ids(doc, pages_ref, &mut out, &mut visited, 0);
    }
    out
}

} // verus!
