//! Which pages are chosen, where references to them lead, and what is reported.

use vstd::prelude::*;
use crate::document::{Failure, PdfDocument};
use crate::object::{dict_get, obj_ref, Entries, Obj};
use crate::text::decimal_text;
use super::dedup::{any_collapsed, dedup_round, dedup_slots, live_count, round_shrinks};
use super::denotes::gathered;
use super::dests::catalog;
use super::finish::{gather, reduce, tidied};
use super::found::is_catalog;
use super::leaves::{collect_kids, collect_leaves, leaves};
use super::rebuild::{
    bad_source, build_pages, dropped_page, page_numbers, plan, planned, single_picks, subset, Picks,
};
use super::strays::tidy_count;
use super::unsigned::{unsigned_cells, unsigned_count};
use super::whole::file_objects;
use super::{default_options, Cell, SignaturePolicy, SubsetOptions, Summary};

verus! {

/// Is the object a dictionary that is no node of a page tree?
pub open spec fn is_leaf(doc: PdfDocument, id: nat) -> bool {
    match doc.lookup(id) {
        Some(Obj::Dictionary(d)) => dict_get(d, "Type"@) != Some(Obj::Name("Pages"@)),
        _ => false,
    }
}

/// Is the object a node of a page tree with the given kids?
pub open spec fn is_node(doc: PdfDocument, id: nat, kids: Seq<Obj>) -> bool {
    match doc.lookup(id) {
        Some(Obj::Dictionary(d)) => dict_get(d, "Type"@) == Some(Obj::Name("Pages"@)) && dict_get(d, "Kids"@) == Some(
            Obj::Array(kids),
        ),
        _ => false,
    }
}

/// A leaf that was not met yet is collected, after those that were found.
pub proof fn leaf_is_collected(doc: PdfDocument, id: nat, found: Seq<nat>, visited: Set<nat>, depth: nat)
    requires
        depth <= 256,
        is_leaf(doc, id),
    ensures
        !visited.contains(id) ==> collect_leaves(doc, id, found, visited, depth) == (found.push(id), visited.insert(id)),
        visited.contains(id) ==> collect_leaves(doc, id, found, visited, depth) == (found, visited),
{
}

proof fn kids_collected(doc: PdfDocument, kids: Seq<Obj>, ids: Seq<nat>, k: nat, found: Seq<nat>, visited: Set<nat>, depth: nat)
    requires
        depth <= 256,
        k <= ids.len() == kids.len(),
        forall|i: int| 0 <= i < ids.len() ==> obj_ref(#[trigger] kids[i]) == Some(ids[i]),
        forall|i: int| 0 <= i < ids.len() ==> is_leaf(doc, #[trigger] ids[i]) && !visited.contains(ids[i]),
        ids.no_duplicates(),
    ensures
        collect_kids(doc, kids, k, found, visited, depth).0 == found + ids.take(k as int),
        forall|n: nat| #[trigger]
            collect_kids(doc, kids, k, found, visited, depth).1.contains(n) <==> visited.contains(n) || ids.take(
                k as int,
            ).contains(n),
    decreases k,
{
    if k > 0 {
        let front = (k - 1) as nat;
        kids_collected(doc, kids, ids, front, found, visited, depth);
        let (f, v) = collect_kids(doc, kids, front, found, visited, depth);
        let id = ids[k - 1];
        assert(obj_ref(kids[k - 1]) == Some(id));
        assert(!ids.take(front as int).contains(id)) by {
            if ids.take(front as int).contains(id) {
                let i = choose|i: int| 0 <= i < front && ids.take(front as int)[i] == id;
                assert(ids[i] == id);
            }
        }
        leaf_is_collected(doc, id, f, v, depth);
        assert(ids.take(k as int) =~= ids.take(front as int).push(id));
        assert((found + ids.take(front as int)).push(id) =~= found + ids.take(k as int));
        assert forall|n: nat| #[trigger]
            collect_kids(doc, kids, k, found, visited, depth).1.contains(n) <==> visited.contains(n) || ids.take(
                k as int,
            ).contains(n) by {
            assert(ids.take(front as int).push(id).contains(n) <==> ids.take(front as int).contains(n) || n == id) by {
                if ids.take(front as int).contains(n) {
                    let i = choose|i: int| 0 <= i < front && ids.take(front as int)[i] == n;
                    assert(ids.take(front as int).push(id)[i] == n);
                }
                assert(ids.take(front as int).push(id)[front as int] == id);
            }
        }
    } else {
        assert(found + ids.take(0) =~= found);
    }
}

/// The leaves below a node of the page tree, at whatever depth it lies, are collected in the order of
/// its kids, after those that were found.
pub proof fn node_is_its_kids(
    doc: PdfDocument,
    id: nat,
    kids: Seq<Obj>,
    ids: Seq<nat>,
    found: Seq<nat>,
    visited: Set<nat>,
    depth: nat,
)
    requires
        depth <= 255,
        is_node(doc, id, kids),
        !visited.contains(id),
        ids.len() == kids.len(),
        forall|i: int| 0 <= i < ids.len() ==> obj_ref(#[trigger] kids[i]) == Some(ids[i]),
        forall|i: int| 0 <= i < ids.len() ==> is_leaf(doc, #[trigger] ids[i]) && !visited.contains(ids[i]),
        ids.no_duplicates(),
    ensures
        collect_leaves(doc, id, found, visited, depth).0 == found + ids,
{
    assert forall|i: int| 0 <= i < ids.len() implies is_leaf(doc, #[trigger] ids[i]) && !visited.insert(id).contains(
        ids[i],
    ) by {
        assert(ids[i] != id);
    }
    kids_collected(doc, kids, ids, ids.len(), found, visited.insert(id), depth + 1);
    assert(ids.take(ids.len() as int) =~= ids);
}

/// The pages of a document whose page tree is one node are its kids, in order.
pub proof fn pages_are_the_kids(doc: PdfDocument, cat: Entries, root: nat, gen: u16, kids: Seq<Obj>, ids: Seq<nat>)
    requires
        is_catalog(doc, cat),
        dict_get(cat, "Pages"@) == Some(Obj::Reference(root, gen)),
        is_node(doc, root, kids),
        ids.len() == kids.len(),
        forall|i: int| 0 <= i < ids.len() ==> obj_ref(#[trigger] kids[i]) == Some(ids[i]),
        forall|i: int| 0 <= i < ids.len() ==> is_leaf(doc, #[trigger] ids[i]),
        ids.no_duplicates(),
    ensures
        leaves(doc) == ids,
{
    assert(catalog(doc) == Some(cat));
    node_is_its_kids(doc, root, kids, ids, Seq::empty(), Set::empty(), 0);
    assert(Seq::<nat>::empty() + ids =~= ids);
}

proof fn numbers_of_pages(docs: Seq<PdfDocument>, picks: Picks, k: nat, key: (nat, nat))
    requires
        k <= picks.len(),
    ensures
        ({
            let pages = page_numbers(docs, picks, k);
            &&& pages.contains_key(key) <==> exists|j: int| 0 <= j < k && #[trigger] chooses(docs, picks, j, key)
            &&& forall|j: int|
                0 <= j < k && #[trigger] chooses(docs, picks, j, key) && (forall|i: int|
                    j < i < k ==> !#[trigger] chooses(docs, picks, i, key)) ==> pages[key] == j + 1
        }),
    decreases k,
{
    if k > 0 {
        let front = (k - 1) as nat;
        numbers_of_pages(docs, picks, front, key);
        let before = page_numbers(docs, picks, front);
        let pages = page_numbers(docs, picks, k);
        if chooses(docs, picks, k - 1, key) {
            assert(pages[key] == k);
        } else {
            assert(pages.contains_key(key) <==> before.contains_key(key));
        }
        assert forall|j: int|
            0 <= j < k && #[trigger] chooses(docs, picks, j, key) && (forall|i: int|
                j < i < k ==> !#[trigger] chooses(docs, picks, i, key)) implies pages[key] == j + 1 by {
            if j < k - 1 {
                assert(!chooses(docs, picks, k - 1, key));
                assert(before[key] == j + 1);
            }
        }
    }
}

/// Is the choice at position `j` the page whose object has that source and number?
pub open spec fn chooses(docs: Seq<PdfDocument>, picks: Picks, j: int, key: (nat, nat)) -> bool {
    let all = leaves(docs[picks[j].0 as int]);
    picks[j].0 == key.0 && picks[j].1 < all.len() && all[picks[j].1 as int] == key.1
}

/// References to a chosen page lead to its place in the output, the last where it is chosen more than
/// once; those to any other page lead nowhere.
pub proof fn references_follow_the_choice(
    docs: Seq<PdfDocument>,
    picks: Picks,
    opts: SubsetOptions,
    key: (nat, nat),
    p: int,
)
    ensures
        ({
            let env = plan(docs, picks, opts);
            &&& env.pages.contains_key(key) <==> exists|j: int|
                0 <= j < picks.len() && #[trigger] chooses(docs, picks, j, key)
            &&& forall|j: int|
                0 <= j < picks.len() && #[trigger] chooses(docs, picks, j, key) && (forall|i: int|
                    j < i < picks.len() ==> !#[trigger] chooses(docs, picks, i, key)) ==> env.pages[key] == j + 1
            &&& key.0 < docs.len() && 0 <= p < leaves(docs[key.0 as int]).len() && leaves(docs[key.0 as int])[p] == key.1
                && !env.pages.contains_key(key) ==> env.severed.contains(key)
            &&& env.severed.contains(key) ==> exists|i: int|
                0 <= i < leaves(docs[key.0 as int]).len() && #[trigger] leaves(docs[key.0 as int])[i] == key.1
                    && !picks.contains((key.0, i as nat))
            &&& env.docs == docs && env.opts == opts
        }),
{
    numbers_of_pages(docs, picks, picks.len(), key);
    let env = plan(docs, picks, opts);
    if key.0 < docs.len() && 0 <= p < leaves(docs[key.0 as int]).len() && leaves(docs[key.0 as int])[p] == key.1
        && !env.pages.contains_key(key) {
        if picks.contains((key.0, p as nat)) {
            let j = choose|j: int| 0 <= j < picks.len() && picks[j] == (key.0, p as nat);
            assert(chooses(docs, picks, j, key));
        }
        assert(leaves(docs[key.0 as int])[p] == key.1);
        assert(dropped_page(docs, picks, key.0, key.1, leaves(docs[key.0 as int]).len()));
    }
}

/// Why a choice cannot be met: there is none, it names a source or a page that is not there.
pub proof fn impossible_choices_are_told(docs: Seq<PdfDocument>, picks: Picks, opts: SubsetOptions)
    ensures
        picks.len() == 0 ==> subset(docs, picks, opts) == Err::<(Seq<u8>, Summary), Failure>(
            Failure::InvalidPdf("no pages selected"@),
        ),
        picks.len() > 0 && picks[0].0 >= docs.len() ==> subset(docs, picks, opts) == Err::<
            (Seq<u8>, Summary),
            Failure,
        >(Failure::InvalidPdf("source index "@ + decimal_text(picks[0].0) + " out of range"@)),
        picks.len() > 0 && (forall|j: int| 0 <= j < picks.len() ==> (#[trigger] picks[j]).0 < docs.len()) && picks[0].1
            >= docs[picks[0].0 as int].page_seq().len() ==> subset(docs, picks, opts) == Err::<
            (Seq<u8>, Summary),
            Failure,
        >(Failure::PageNotFound(picks[0].1)),
{
    if picks.len() > 0 && forall|j: int| 0 <= j < picks.len() ==> (#[trigger] picks[j]).0 < docs.len() {
        no_bad_source(docs.len(), picks, 0);
    }
}

proof fn no_bad_source(sources: nat, picks: Picks, from: nat)
    requires
        forall|j: int| 0 <= j < picks.len() ==> (#[trigger] picks[j]).0 < sources,
    ensures
        bad_source(sources, picks, from) is None,
    decreases picks.len() - from,
{
    if from < picks.len() {
        assert(picks[from as int].0 < sources);
        no_bad_source(sources, picks, from + 1);
    }
}

/// By default links, outlines, forms and structure are kept, forms are trimmed, equal objects are
/// collapsed, and a signature becomes a plain annotation.
pub proof fn defaults_keep_what_can_be_kept()
    ensures
        default_options().keep_links,
        default_options().keep_outlines,
        default_options().keep_acroform,
        default_options().keep_struct_tree,
        default_options().trim_forms,
        default_options().dedup,
        default_options().on_signature == SignaturePolicy::PreserveVisual,
{
}

/// Pages chosen from one document are those of its only source, in the order given.
pub proof fn single_choices_keep_their_order(pages: Seq<usize>, i: int)
    ensures
        single_picks(pages).len() == pages.len(),
        0 <= i < pages.len() ==> single_picks(pages)[i] == (0nat, pages[i] as nat),
{
}

proof fn collapsing_only_drops(slots: Seq<Cell>)
    ensures
        live_count(dedup_slots(slots)) <= live_count(slots),
    decreases live_count(slots),
{
    if any_collapsed(slots) {
        round_shrinks(slots);
        collapsing_only_drops(dedup_round(slots));
    }
}

/// The report counts what was done: the objects that are written, those that were collapsed, the
/// entries, elements and links that were counted as they were met, and the fields of the form.
pub proof fn report_counts_what_was_done(docs: Seq<PdfDocument>, picks: Picks, opts: SubsetOptions)
    requires
        subset(docs, picks, opts) is Ok,
    ensures
        ({
            let report = subset(docs, picks, opts)->Ok_0.1;
            let env = plan(docs, picks, opts);
            let st = gathered(docs, picks, opts);
            let parts = gather(env, build_pages(env, planned(picks.len()), picks, 0)->Ok_0).1;
            &&& report.objects_written == file_objects(docs, picks, opts).len()
            &&& report.objects_deduped == live_count(st.slots) - live_count(reduce(env, st).slots)
            &&& report.outline_entries == st.outline_entries
            &&& report.struct_elements == st.struct_elements
            &&& report.links_severed == st.links_severed
            &&& report.dropped_signatures == st.dropped_signatures
            &&& report.warnings == st.warnings
            &&& parts.form is Some ==> report.form_fields == st.tops.len()
            &&& parts.form is None ==> report.form_fields == 0
        }),
{
    let env = plan(docs, picks, opts);
    let st = gathered(docs, picks, opts);
    unsigned_count(st.slots);
    tidy_count(unsigned_cells(st.slots), st.page_ids);
    collapsing_only_drops(tidied(st));
}

} // verus!
