//! What holds of the file as a whole: every reference leads to an object, every object is reached
//! from the catalog or the document information, and the page tree lists the chosen pages in order.

use vstd::prelude::*;
use crate::document::PdfDocument;
use crate::object::{
    dict_get, dict_get_insert, dict_get_remove, dict_insert, dict_ref, dict_remove, new_ref, obj_dict, Entries,
    Obj,
};
use super::acroform::acroform;
use super::closed::{
    acroform_closed, carry_closed, closed, closed_more, dict_leads, edit_closed, entries_lead, entries_stay,
    filled, get_mentions, grown, grown_trans, import_closed, insert_leads, known, leads,
    page_closed, page_number, pages_awaited, pinned_put_closed, refs_lead, remove_mentions, rewritten,
    settled, slot_closed,
};
use super::compact::{compact_objects, compacted, object_under_new_number, rank_table};
use super::copy::{carry, refs};
use super::dedup::{
    alike, any_collapsed, collapse_table, collapsed, dedup_keeps_pinned, dedup_no_duplicates, dedup_round,
    dedup_slots, form_at, free, live, live_count, rep, rep_is_first, round_shrinks,
};
use super::dests::catalog;
use super::faithful::is_page;
use super::finish::{
    assemble, catalog_dict, extra_keys, gather, gather_extras, held, import_info, info_number, pages_dict,
    reduce, roots, set_parents, tidied, with_ref, without, Parts,
};
use super::linked::{outlines_closed, tree_closed};
use super::outlines::outlines;
use super::pages::build_page;
use super::reach::{
    is_path, leads_to, reached, reached_step, refers, root_reached, sweep, sweep_keeps_reached,
    sweep_no_orphans,
};
use super::rebuild::{build_pages, page_numbers, plan, planned, subset, Picks};
use super::refs::{entries_mention, mentions, rename, rename_entries, rename_mentions, renumbered};
use super::serialize::pdf_bytes;
use super::sound::page_row;
use super::struct_tree::struct_tree;
use super::strays::lengthless;
use super::unsigned::{
    all_unsigned, empty_unsigned, holds_signature, insert_unsigned, remove_entries_unsigned, remove_unsigned,
    rename_unsigned, unsigned, unsigned_holds_none, unsigned_mentions,
};
use super::{empty_state, next_id, object_at, put, with_slot, Cell, Env, State, SubsetOptions};

verus! {

/// Does each reference to the object `n` await it?
pub open spec fn unseen_by(slots: Seq<Cell>, awaited: Set<nat>, n: nat) -> bool {
    forall|a: nat| #[trigger] refers(slots, a, n) ==> awaited.contains(n)
}

proof fn extras_closed(env: Env, st: State, awaited: Set<nat>, info: Option<nat>)
    requires
        closed(st, awaited),
        pages_awaited(env, awaited),
        info is Some ==> known(st, awaited, info->0),
    ensures
        ({
            let (s, n) = gather_extras(env, st, info);
            &&& closed(s, awaited)
            &&& grown(st, s)
            &&& settled(s, n)
            &&& n > st.slots.len()
            &&& unseen_by(s.slots, awaited, n)
        }),
{
    let (s1, d) = match catalog(env.docs[0]) {
        Some(cat) => carry(env, st, 0, cat, extra_keys(), 1, Seq::empty()),
        None => (st, Seq::empty()),
    };
    if let Some(cat) = catalog(env.docs[0]) {
        carry_closed(env, st, awaited, 0, cat, extra_keys(), 1, Seq::empty());
    }
    let d1 = match info {
        Some(i) => dict_insert(d, "Info"@, new_ref(i)),
        None => d,
    };
    if let Some(i) = info {
        insert_leads(s1, awaited, d, "Info"@, new_ref(i));
    }
    dict_leads(s1, awaited, d1);
    let o = Obj::Dictionary(d1);
    pinned_put_closed(s1, awaited, o);
    let n = next_id(s1);
    let s = gather_extras(env, st, info).0;
    grown_trans(st, s1, s);
    assert forall|a: nat| #[trigger] refers(s.slots, a, n) implies awaited.contains(n) by {
        if a == n {
            assert(mentions(o, n));
            assert(known(s1, awaited, n));
        } else {
            assert(live(s1.slots, a));
            assert(leads(s1, awaited, s1.slots[a - 1].object->0));
            assert(mentions(s1.slots[a - 1].object->0, n));
            assert(known(s1, awaited, n));
        }
    }
}

proof fn gather_closed(env: Env, st: State, awaited: Set<nat>)
    requires
        closed(st, awaited),
        pages_awaited(env, awaited),
    ensures
        ({
            let (s, parts) = gather(env, st);
            &&& closed(s, awaited)
            &&& grown(st, s)
            &&& parts.outlines is Some ==> settled(s, parts.outlines->0) && parts.outlines->0 < parts.extras
            &&& parts.tree is Some ==> settled(s, parts.tree->0) && parts.tree->0 < parts.extras
            &&& parts.form is Some ==> settled(s, parts.form->0) && parts.form->0 < parts.extras
            &&& settled(s, parts.extras)
            &&& st.slots.len() < parts.extras
            &&& unseen_by(s.slots, awaited, parts.extras)
        }),
{
    let (s1, info) = import_info(env, st, 0);
    if let Some(t) = obj_dict(env.docs[0].root()) {
        if let Some(id) = dict_ref(t, "Info"@) {
            if !is_page(env, (0, id)) {
                import_closed(env, st, awaited, 0, id, 0);
            }
        }
    }
    let (s2, o2) = if env.opts.keep_outlines {
        outlines(env, s1, 0)
    } else {
        (s1, None)
    };
    if env.opts.keep_outlines {
        outlines_closed(env, s1, awaited, 0);
    }
    grown_trans(st, s1, s2);
    let (s3, o3) = if env.opts.keep_struct_tree {
        struct_tree(env, s2, 0)
    } else {
        (s2, None)
    };
    if env.opts.keep_struct_tree {
        tree_closed(env, s2, awaited, 0);
    }
    grown_trans(st, s2, s3);
    let (s4, o4) = if env.opts.keep_acroform {
        acroform(env, s3, 0)
    } else {
        (s3, None)
    };
    acroform_closed(env, s3, awaited, 0);
    grown_trans(st, s3, s4);
    grown_trans(s2, s3, s4);
    grown_trans(s1, s2, s4);
    extras_closed(env, s4, awaited, info);
    let s5 = gather_extras(env, s4, info).0;
    grown_trans(st, s4, s5);
    grown_trans(s2, s4, s5);
    grown_trans(s3, s4, s5);
    if let Some(n) = o2 {
        assert(live(s2.slots, n));
    }
    if let Some(n) = o3 {
        assert(live(s3.slots, n));
    }
}

/// The numbers of the pages.
pub open spec fn page_places(pages: nat) -> Set<nat> {
    Set::new(|m: nat| 1 <= m <= pages)
}

/// The new numbers of pages count from one.
pub proof fn page_numbers_range(docs: Seq<PdfDocument>, picks: Picks, k: nat)
    ensures
        forall|key: (nat, nat)| #[trigger]
            page_numbers(docs, picks, k).contains_key(key) ==> 1 <= page_numbers(docs, picks, k)[key] <= k,
    decreases k,
{
    if k > 0 {
        page_numbers_range(docs, picks, (k - 1) as nat);
        let before = page_numbers(docs, picks, (k - 1) as nat);
        let now = page_numbers(docs, picks, k);
        assert forall|key: (nat, nat)| #[trigger] now.contains_key(key) implies 1 <= now[key] <= k by {
            if before.contains_key(key) {
                assert(1 <= before[key] <= k - 1);
            }
        }
    }
}

/// Are the first `k` of the pages built, and the places of all of them pinned?
pub open spec fn pages_built(st: State, pages: nat, k: nat) -> bool {
    &&& pages <= st.slots.len()
    &&& forall|i: int| 0 <= i < pages ==> (#[trigger] st.slots[i]).pinned
    &&& forall|n: nat| 1 <= n <= k ==> #[trigger] live(st.slots, n)
    &&& st.page_ids == page_row(k)
}

proof fn places_awaited(docs: Seq<PdfDocument>, opts: SubsetOptions, picks: Picks)
    ensures
        pages_awaited(plan(docs, picks, opts), page_places(picks.len())),
{
    let env = plan(docs, picks, opts);
    page_numbers_range(docs, picks, picks.len());
    assert forall|m: nat| #[trigger] page_number(env, m) implies page_places(picks.len()).contains(m) by {
        let key = choose|key: (nat, nat)| #[trigger] env.pages.contains_key(key) && env.pages[key] == m;
        assert(1 <= env.pages[key] <= picks.len());
    }
}

proof fn page_step(docs: Seq<PdfDocument>, opts: SubsetOptions, st: State, picks: Picks, k: nat)
    requires
        k < picks.len(),
        closed(st, page_places(picks.len())),
        pages_built(st, picks.len(), k),
        build_page(plan(docs, picks, opts), st, picks[k as int].0, picks[k as int].1, k + 1) is Ok,
    ensures
        ({
            let env = plan(docs, picks, opts);
            let s = build_page(env, st, picks[k as int].0, picks[k as int].1, k + 1)->Ok_0;
            closed(s, page_places(picks.len())) && pages_built(s, picks.len(), k + 1)
        }),
{
    let env = plan(docs, picks, opts);
    let (src, page) = picks[k as int];
    let id = k + 1;
    let awaited = page_places(picks.len());
    places_awaited(docs, opts, picks);
    assert(awaited.insert(id) =~= awaited);
    page_closed(env, st, awaited, src, page, id);
    let s = build_page(env, st, src, page, id)->Ok_0;
    let same = State { page_ids: st.page_ids, ..s };
    assert forall|n: nat| 1 <= n <= id implies #[trigger] live(s.slots, n) by {
        if n <= k {
            assert(live(st.slots, n));
            assert(live(same.slots, n));
        }
    }
    assert forall|i: int| 0 <= i < picks.len() implies (#[trigger] s.slots[i]).pinned by {
        assert(st.slots[i].pinned);
        assert(same.slots[i].pinned);
    }
    assert(s.page_ids =~= page_row(id));
}

proof fn pages_closed(docs: Seq<PdfDocument>, opts: SubsetOptions, st: State, picks: Picks, k: nat)
    requires
        k <= picks.len(),
        closed(st, page_places(picks.len())),
        pages_built(st, picks.len(), k),
        build_pages(plan(docs, picks, opts), st, picks, k) is Ok,
    ensures
        ({
            let env = plan(docs, picks, opts);
            let s = build_pages(env, st, picks, k)->Ok_0;
            closed(s, page_places(picks.len())) && pages_built(s, picks.len(), picks.len())
        }),
    decreases picks.len() - k,
{
    let env = plan(docs, picks, opts);
    if k < picks.len() {
        page_step(docs, opts, st, picks, k);
        let s = build_page(env, st, picks[k as int].0, picks[k as int].1, k + 1)->Ok_0;
        pages_closed(docs, opts, s, picks, k + 1);
    }
}

/// Does every reference lead to an object other than `except`, or to one of `free`?
pub open spec fn sealed(slots: Seq<Cell>, free: Set<nat>, except: nat) -> bool {
    forall|a: nat, b: nat| #[trigger]
        refers(slots, a, b) ==> (live(slots, b) && b != except) || free.contains(b)
}

proof fn closed_sealed(st: State, awaited: Set<nat>, except: nat)
    requires
        closed(st, awaited),
        unseen_by(st.slots, awaited, except),
    ensures
        sealed(st.slots, awaited, except),
{
    assert forall|a: nat, b: nat| #[trigger] refers(st.slots, a, b) implies (live(st.slots, b) && b != except)
        || awaited.contains(b) by {
        assert(leads(st, awaited, st.slots[a - 1].object->0));
        assert(known(st, awaited, b));
    }
}

proof fn round_sealed(slots: Seq<Cell>, free: Set<nat>, except: nat)
    requires
        sealed(slots, free, except),
        live(slots, except),
        slots[except - 1].pinned,
    ensures
        sealed(dedup_round(slots), free, except),
{
    let after = dedup_round(slots);
    let table = collapse_table(slots);
    assert forall|a: nat, b: nat| #[trigger] refers(after, a, b) implies (live(after, b) && b != except)
        || free.contains(b) by {
        let o = slots[a - 1].object->0;
        assert(after[a - 1].object == Some(rename(o, table)));
        rename_mentions(o, table, b);
        let n = choose|n: nat| #[trigger] mentions(o, n) && renumbered(table, n) == b;
        assert(refers(slots, a, n));
        if live(slots, n) && n != except {
            if collapsed(slots, n) {
                rep_is_first(slots, n);
                let r = rep(slots, n);
                assert(table[n - 1] == r);
                assert(!collapsed(slots, r));
                assert(table[r - 1] == 0);
                assert(live(after, r));
            } else {
                assert(table[n - 1] == 0);
                assert(live(after, n));
            }
        } else if live(slots, n) {
            assert(!collapsed(slots, n));
            assert(table[n - 1] == 0);
        } else {
            assert(!collapsed(slots, n));
        }
    }
}

/// Collapsing equal objects leaves no reference that leads nowhere.
pub proof fn dedup_sealed(slots: Seq<Cell>, free: Set<nat>, except: nat)
    requires
        sealed(slots, free, except),
        live(slots, except),
        slots[except - 1].pinned,
    ensures
        sealed(dedup_slots(slots), free, except),
    decreases live_count(slots),
{
    if any_collapsed(slots) {
        round_shrinks(slots);
        round_sealed(slots, free, except);
        let next = dedup_round(slots);
        assert(!collapsed(slots, except));
        assert(collapse_table(slots)[except - 1] == 0);
        dedup_sealed(next, free, except);
    }
}

/// The state with nothing but its objects and its pages.
pub open spec fn bare(st: State) -> State {
    State { slots: st.slots, page_ids: st.page_ids, ..empty_state() }
}

proof fn set_parents_bare(st: State, page_ids: Seq<nat>, k: nat, pages: nat)
    ensures
        set_parents(bare(st), page_ids, k, pages) == bare(set_parents(st, page_ids, k, pages)),
    decreases k,
{
    if k > 0 {
        set_parents_bare(st, page_ids, (k - 1) as nat, pages);
    }
}

proof fn assemble_bare(st: State, parts: Parts)
    ensures
        assemble(bare(st), parts).0 == bare(assemble(st, parts).0),
        assemble(bare(st), parts).1 == assemble(st, parts).1,
        assemble(bare(st), parts).2 == assemble(st, parts).2,
{
    let s1 = without(st, parts.extras);
    let pages = next_id(s1);
    let s3 = with_slot(with_slot(s1));
    assert(without(bare(st), parts.extras) == bare(s1));
    assert(with_slot(with_slot(bare(s1))) == bare(s3));
    set_parents_bare(s3, st.page_ids, st.page_ids.len(), pages);
}

proof fn set_parents_closed(st: State, awaited: Set<nat>, page_ids: Seq<nat>, k: nat, pages: nat)
    requires
        closed(st, awaited),
        known(st, awaited, pages),
    ensures
        closed(set_parents(st, page_ids, k, pages), awaited),
        grown(st, set_parents(st, page_ids, k, pages)),
    decreases k,
{
    if k > 0 {
        set_parents_closed(st, awaited, page_ids, (k - 1) as nat, pages);
        let s = set_parents(st, page_ids, (k - 1) as nat, pages);
        edit_closed(s, awaited, page_ids[k - 1], "Parent"@, new_ref(pages));
        grown_trans(st, s, set_parents(st, page_ids, k, pages));
    }
}

/// May the structures be put into a file: are they there, and does nothing refer to the
/// dictionary that holds what the catalog gets?
pub open spec fn parts_ready(st: State, free: Set<nat>, parts: Parts) -> bool {
    &&& sealed(st.slots, free, parts.extras)
    &&& parts.outlines is Some ==> live(st.slots, parts.outlines->0) && parts.outlines->0 != parts.extras
    &&& parts.tree is Some ==> live(st.slots, parts.tree->0) && parts.tree->0 != parts.extras
    &&& parts.form is Some ==> live(st.slots, parts.form->0) && parts.form->0 != parts.extras
    &&& forall|i: int|
        0 <= i < st.page_ids.len() ==> live(st.slots, #[trigger] st.page_ids[i]) && st.page_ids[i]
            != parts.extras
}

proof fn catalog_leads(st: State, free: Set<nat>, extras: Entries, pages: nat, parts: Parts)
    requires
        entries_lead(st, free, extras),
        known(st, free, pages),
        parts.outlines is Some ==> known(st, free, parts.outlines->0),
        parts.tree is Some ==> known(st, free, parts.tree->0),
        parts.form is Some ==> known(st, free, parts.form->0),
    ensures
        leads(st, free, Obj::Dictionary(catalog_dict(extras, pages, parts))),
{
    let rest = dict_remove(extras, "Info"@);
    assert forall|m: nat| #[trigger] entries_mention(rest, m) implies known(st, free, m) by {
        remove_mentions(extras, "Info"@, m);
    }
    let d0 = dict_insert(rest, "Type"@, Obj::Name("Catalog"@));
    insert_leads(st, free, rest, "Type"@, Obj::Name("Catalog"@));
    let d1 = dict_insert(d0, "Pages"@, new_ref(pages));
    insert_leads(st, free, d0, "Pages"@, new_ref(pages));
    let d2 = with_ref(d1, "Outlines"@, parts.outlines);
    if let Some(n) = parts.outlines {
        insert_leads(st, free, d1, "Outlines"@, new_ref(n));
    }
    let d3 = with_ref(d2, "StructTreeRoot"@, parts.tree);
    if let Some(n) = parts.tree {
        insert_leads(st, free, d2, "StructTreeRoot"@, new_ref(n));
    }
    let marked = dict_insert(Seq::empty(), "Marked"@, Obj::Boolean(true));
    insert_leads(st, free, Seq::empty(), "Marked"@, Obj::Boolean(true));
    dict_leads(st, free, marked);
    let d4 = if parts.tree is Some {
        dict_insert(d3, "MarkInfo"@, Obj::Dictionary(marked))
    } else {
        d3
    };
    insert_leads(st, free, d3, "MarkInfo"@, Obj::Dictionary(marked));
    if let Some(n) = parts.form {
        insert_leads(st, free, d4, "AcroForm"@, new_ref(n));
    }
    dict_leads(st, free, catalog_dict(extras, pages, parts));
}

proof fn pages_lead(st: State, free: Set<nat>, page_ids: Seq<nat>)
    requires
        forall|i: int| 0 <= i < page_ids.len() ==> known(st, free, #[trigger] page_ids[i]),
    ensures
        leads(st, free, Obj::Dictionary(pages_dict(page_ids))),
{
    let d0 = dict_insert(Seq::empty(), "Type"@, Obj::Name("Pages"@));
    insert_leads(st, free, Seq::empty(), "Type"@, Obj::Name("Pages"@));
    let d1 = dict_insert(d0, "Count"@, Obj::Integer(page_ids.len() as i64));
    insert_leads(st, free, d0, "Count"@, Obj::Integer(page_ids.len() as i64));
    refs_lead(st, free, page_ids);
    insert_leads(st, free, d1, "Kids"@, Obj::Array(refs(page_ids)));
    dict_leads(st, free, pages_dict(page_ids));
}

proof fn assemble_sealed(st: State, free: Set<nat>, parts: Parts)
    requires
        parts_ready(st, free, parts),
    ensures
        ({
            let (s, cat, info) = assemble(st, parts);
            &&& sealed(s.slots, free, 0)
            &&& live(s.slots, cat)
            &&& info is Some ==> live(s.slots, info->0) || free.contains(info->0)
        }),
{
    assemble_bare(st, parts);
    let b = bare(st);
    let extras = held(b, parts.extras);
    let s1 = without(b, parts.extras);
    assert forall|m: nat| live(st.slots, m) && m != parts.extras implies #[trigger] live(s1.slots, m) by {}
    assert(closed(s1, free)) by {
        assert forall|n: nat| #[trigger] live(s1.slots, n) implies leads(s1, free, s1.slots[n - 1].object->0) by {
            let o = s1.slots[n - 1].object->0;
            assert(live(st.slots, n) && st.slots[n - 1].object->0 == o);
            assert forall|m: nat| #[trigger] mentions(o, m) implies known(s1, free, m) by {
                assert(refers(st.slots, n, m));
            }
        }
    }
    assert(entries_lead(s1, free, extras)) by {
        assert forall|m: nat| #[trigger] entries_mention(extras, m) implies known(s1, free, m) by {
            assert(mentions(Obj::Dictionary(extras), m));
            assert(refers(st.slots, parts.extras, m));
        }
    }
    let pages = next_id(s1);
    let s2 = with_slot(s1);
    slot_closed(s1, free, s2);
    let cat = next_id(s2);
    let s3 = with_slot(s2);
    slot_closed(s2, free, s3);
    grown_trans(s1, s2, s3);
    let more = free.insert(pages);
    closed_more(s3, free, more);
    let n = b.page_ids.len();
    set_parents_closed(s3, more, b.page_ids, n, pages);
    let s4 = set_parents(s3, b.page_ids, n, pages);
    grown_trans(s1, s3, s4);
    assert forall|i: int| 0 <= i < b.page_ids.len() implies known(s4, more, #[trigger] b.page_ids[i]) by {
        assert(live(s1.slots, st.page_ids[i]));
    }
    pages_lead(s4, more, b.page_ids);
    let po = Obj::Dictionary(pages_dict(b.page_ids));
    filled(s4, free, pages, po);
    let s5 = put(s4, pages, po);
    grown_trans(s1, s4, s5);
    entries_stay(s1, s5, free, extras);
    assert(parts.outlines is Some ==> live(s1.slots, parts.outlines->0));
    assert(parts.tree is Some ==> live(s1.slots, parts.tree->0));
    assert(parts.form is Some ==> live(s1.slots, parts.form->0));
    catalog_leads(s5, free, extras, pages, parts);
    let co = Obj::Dictionary(catalog_dict(extras, pages, parts));
    rewritten(s5, free, cat, co);
    let s6 = put(s5, cat, co);
    grown_trans(s1, s5, s6);
    assert forall|a: nat, c: nat| #[trigger] refers(s6.slots, a, c) implies (live(s6.slots, c) && c != 0)
        || free.contains(c) by {
        assert(leads(s6, free, s6.slots[a - 1].object->0));
        assert(known(s6, free, c));
    }
    if let Some(i) = dict_ref(extras, "Info"@) {
        let v = dict_get(extras, "Info"@)->0;
        assert(mentions(v, i));
        get_mentions(extras, "Info"@, i);
        assert(known(s1, free, i));
    }
}

/// Dropping what is not reached leaves no reference that leads nowhere.
pub proof fn sweep_sealed(slots: Seq<Cell>, free: Set<nat>, from: Seq<nat>)
    requires
        sealed(slots, free, 0),
    ensures
        sealed(sweep(slots, from), free, 0),
{
    let after = sweep(slots, from);
    assert forall|a: nat, b: nat| #[trigger] refers(after, a, b) implies (live(after, b) && b != 0)
        || free.contains(b) by {
        assert(reached(slots, from, a));
        assert(refers(slots, a, b));
        if live(slots, b) {
            reached_step(slots, from, a, b);
            sweep_keeps_reached(slots, from, b);
        }
    }
}

/// Every object of the output is one of those that are left.
pub proof fn object_has_old_number(slots: Seq<Cell>, q: nat) -> (id: nat)
    requires
        1 <= q <= compacted(slots).len(),
    ensures
        live(slots, id),
        rank_table(slots)[id - 1] == q,
        compacted(slots)[q - 1] == rename(slots[id - 1].object->0, rank_table(slots)),
{
    let id = old_number(slots, rank_table(slots), slots.len(), q);
    object_under_new_number(slots, id);
    id
}

proof fn old_number(slots: Seq<Cell>, table: Seq<nat>, k: nat, q: nat) -> (id: nat)
    requires
        k <= slots.len(),
        table == rank_table(slots),
        1 <= q <= compact_objects(slots, table, k).len(),
    ensures
        1 <= id <= k,
        live(slots, id),
        table[id - 1] == q,
    decreases k,
{
    super::compact::compact_len(slots, table, k);
    let t = slots.take(k as int);
    assert(t.drop_last() =~= slots.take(k - 1));
    super::compact::compact_len(slots, table, (k - 1) as nat);
    if slots[k - 1].object is Some && q == compact_objects(slots, table, k).len() {
        assert(slots.take(k - 1 + 1) =~= t);
        k
    } else {
        old_number(slots, table, (k - 1) as nat, q)
    }
}

/// With no reference that leads nowhere before the numbering there is none after it.
pub proof fn compact_sealed(slots: Seq<Cell>, q: nat, b: nat)
    requires
        sealed(slots, Set::empty(), 0),
        1 <= q <= compacted(slots).len(),
        mentions(compacted(slots)[q - 1], b),
    ensures
        1 <= b <= compacted(slots).len(),
{
    let table = rank_table(slots);
    let id = object_has_old_number(slots, q);
    let o = slots[id - 1].object->0;
    rename_mentions(o, table, b);
    let n = choose|n: nat| #[trigger] mentions(o, n) && renumbered(table, n) == b;
    assert(refers(slots, id, n));
    object_under_new_number(slots, n);
}

/// All objects before those that are not reached are dropped, with the numbers of the catalog and
/// of the document information.
pub open spec fn assembled(docs: Seq<PdfDocument>, picks: Picks, opts: SubsetOptions) -> (
    Seq<Cell>,
    nat,
    Option<nat>,
) {
    let env = plan(docs, picks, opts);
    let built = build_pages(env, planned(picks.len()), picks, 0)->Ok_0;
    let (st, parts) = gather(env, built);
    let (all, cat, info) = assemble(reduce(env, st), parts);
    (all.slots, cat, info)
}

/// The objects that are left, under their old numbers.
pub open spec fn left_over(docs: Seq<PdfDocument>, picks: Picks, opts: SubsetOptions) -> Seq<Cell> {
    let (all, cat, info) = assembled(docs, picks, opts);
    sweep(all, roots(cat, info))
}

/// The objects of the file, from number one on.
pub open spec fn file_objects(docs: Seq<PdfDocument>, picks: Picks, opts: SubsetOptions) -> Seq<Obj> {
    compacted(left_over(docs, picks, opts))
}

/// The number of the catalog in the file.
pub open spec fn file_root(docs: Seq<PdfDocument>, picks: Picks, opts: SubsetOptions) -> nat {
    renumbered(rank_table(left_over(docs, picks, opts)), assembled(docs, picks, opts).1)
}

/// The number of the document information in the file.
pub open spec fn file_info(docs: Seq<PdfDocument>, picks: Picks, opts: SubsetOptions) -> Option<nat> {
    info_number(left_over(docs, picks, opts), assembled(docs, picks, opts).2)
}

/// The file is made of its objects, and the report counts them.
pub proof fn file_holds_objects(docs: Seq<PdfDocument>, picks: Picks, opts: SubsetOptions)
    requires
        subset(docs, picks, opts) is Ok,
    ensures
        subset(docs, picks, opts)->Ok_0.0 == pdf_bytes(
            file_objects(docs, picks, opts),
            file_root(docs, picks, opts),
            file_info(docs, picks, opts),
        ),
        subset(docs, picks, opts)->Ok_0.1.objects_written == file_objects(docs, picks, opts).len(),
{
}

proof fn settled_stays(st: State, env: Env, n: nat)
    requires
        settled(st, n),
    ensures
        live(reduce(env, st).slots, n),
        reduce(env, st).slots[n - 1].pinned,
{
    let slots = tidied(st);
    assert(live(slots, n) && slots[n - 1].pinned);
    dedup_keeps_pinned(slots);
}

proof fn lengthless_mentions(o: Obj, m: nat)
    ensures
        mentions(lengthless(o), m) ==> mentions(o, m),
{
    if let Obj::Stream(d, _) = o {
        if entries_mention(dict_remove(d, "Length"@), m) {
            remove_mentions(d, "Length"@, m);
        }
    }
}

/// Taking out what must not be written leaves no reference that leads nowhere.
proof fn tidied_sealed(st: State, free: Set<nat>, except: nat)
    requires
        sealed(st.slots, free, except),
    ensures
        sealed(tidied(st), free, except),
{
    let slots = st.slots;
    let after = tidied(st);
    assert forall|a: nat, b: nat| #[trigger] refers(after, a, b) implies (live(after, b) && b != except)
        || free.contains(b) by {
        lengthless_mentions(unsigned(slots[a - 1].object->0), b);
        assert(mentions(unsigned(slots[a - 1].object->0), b));
        unsigned_mentions(slots[a - 1].object->0, b);
        assert(refers(slots, a, b));
    }
}

/// When all is gathered, the parts that the catalog refers to are there, and so are the pages, pinned.
pub proof fn parts_are_ready(docs: Seq<PdfDocument>, picks: Picks, opts: SubsetOptions)
    requires
        subset(docs, picks, opts) is Ok,
    ensures
        ({
            let env = plan(docs, picks, opts);
            let built = build_pages(env, planned(picks.len()), picks, 0)->Ok_0;
            let (st, parts) = gather(env, built);
            &&& parts_ready(reduce(env, st), Set::empty(), parts)
            &&& reduce(env, st).page_ids == page_row(picks.len())
            &&& forall|i: int|
                0 <= i < picks.len() ==> reduce(env, st).slots[(#[trigger] page_row(picks.len())[i]) - 1].pinned
                    && st.slots[page_row(picks.len())[i] - 1].pinned
        }),
{
    let env = plan(docs, picks, opts);
    let free = page_places(picks.len());
    let none = Set::<nat>::empty();
    let start = planned(picks.len());
    assert(start.page_ids =~= page_row(0));
    pages_closed(docs, opts, start, picks, 0);
    let built = build_pages(env, start, picks, 0)->Ok_0;
    places_awaited(docs, opts, picks);
    gather_closed(env, built, free);
    let (st, parts) = gather(env, built);
    let after = reduce(env, st);
    gathered_sealed(docs, picks, opts);
    if env.opts.dedup {
        let slots = tidied(st);
        assert(live(slots, parts.extras) && slots[parts.extras - 1].pinned);
        dedup_sealed(slots, none, parts.extras);
    }
    assert forall|i: int| 0 <= i < after.page_ids.len() implies live(after.slots, #[trigger] after.page_ids[i])
        && after.page_ids[i] != parts.extras && after.slots[after.page_ids[i] - 1].pinned
        && st.slots[after.page_ids[i] - 1].pinned by {
        let n = page_row(picks.len())[i];
        assert(live(built.slots, n));
        assert(built.slots[n - 1].pinned);
        assert(st.slots[n - 1].pinned);
        settled_stays(st, env, n);
    }
    if let Some(n) = parts.outlines {
        settled_stays(st, env, n);
    }
    if let Some(n) = parts.tree {
        settled_stays(st, env, n);
    }
    if let Some(n) = parts.form {
        settled_stays(st, env, n);
    }
}

/// What was pinned when the pages were built is pinned when all is gathered.
pub proof fn gathering_keeps_pins(docs: Seq<PdfDocument>, picks: Picks, opts: SubsetOptions, n: nat)
    requires
        subset(docs, picks, opts) is Ok,
    ensures
        ({
            let env = plan(docs, picks, opts);
            let built = build_pages(env, planned(picks.len()), picks, 0)->Ok_0;
            let st = gather(env, built).0;
            &&& built.slots.len() <= st.slots.len()
            &&& 1 <= n <= built.slots.len() && built.slots[n - 1].pinned ==> st.slots[n - 1].pinned
        }),
{
    let env = plan(docs, picks, opts);
    let start = planned(picks.len());
    assert(start.page_ids =~= page_row(0));
    pages_closed(docs, opts, start, picks, 0);
    let built = build_pages(env, start, picks, 0)->Ok_0;
    places_awaited(docs, opts, picks);
    gather_closed(env, built, page_places(picks.len()));
}

/// No reference that was gathered leads nowhere.
pub proof fn gathered_sealed(docs: Seq<PdfDocument>, picks: Picks, opts: SubsetOptions)
    requires
        subset(docs, picks, opts) is Ok,
    ensures
        ({
            let env = plan(docs, picks, opts);
            let (st, parts) = gather(env, build_pages(env, planned(picks.len()), picks, 0)->Ok_0);
            sealed(tidied(st), Set::empty(), parts.extras)
        }),
{
    let env = plan(docs, picks, opts);
    let free = page_places(picks.len());
    let none = Set::<nat>::empty();
    let start = planned(picks.len());
    assert(start.page_ids =~= page_row(0));
    pages_closed(docs, opts, start, picks, 0);
    let built = build_pages(env, start, picks, 0)->Ok_0;
    places_awaited(docs, opts, picks);
    gather_closed(env, built, free);
    let (st, parts) = gather(env, built);
    closed_sealed(st, free, parts.extras);
    assert(sealed(st.slots, none, parts.extras)) by {
        assert forall|a: nat, b: nat| #[trigger] refers(st.slots, a, b) implies live(st.slots, b) && b
            != parts.extras by {
            if free.contains(b) {
                assert(live(built.slots, b));
            }
        }
    }
    tidied_sealed(st, none, parts.extras);
}

/// No reference of what is assembled leads nowhere.
pub proof fn assembled_sealed(docs: Seq<PdfDocument>, picks: Picks, opts: SubsetOptions)
    requires
        subset(docs, picks, opts) is Ok,
    ensures
        ({
            let (all, cat, info) = assembled(docs, picks, opts);
            &&& sealed(all, Set::empty(), 0)
            &&& live(all, cat)
            &&& info is Some ==> live(all, info->0)
        }),
{
    let env = plan(docs, picks, opts);
    let built = build_pages(env, planned(picks.len()), picks, 0)->Ok_0;
    let (st, parts) = gather(env, built);
    parts_are_ready(docs, picks, opts);
    assemble_sealed(reduce(env, st), Set::empty(), parts);
}

/// Dropping what is not reached and numbering the rest leaves references that lead to objects, and
/// keeps the catalog and the document information.
pub proof fn output_sealed(all: Seq<Cell>, cat: nat, info: Option<nat>)
    requires
        sealed(all, Set::empty(), 0),
        live(all, cat),
        info is Some ==> live(all, info->0),
    ensures
        ({
            let slots = sweep(all, roots(cat, info));
            let objects = compacted(slots);
            &&& forall|q: int, m: nat|
                0 <= q < objects.len() && #[trigger] mentions(objects[q], m) ==> 1 <= m <= objects.len()
            &&& 1 <= renumbered(rank_table(slots), cat) <= objects.len()
            &&& info is Some ==> info_number(slots, info) is Some && 1 <= info_number(slots, info)->0
                <= objects.len()
        }),
{
    let from = roots(cat, info);
    let slots = sweep(all, from);
    sweep_sealed(all, Set::empty(), from);
    assert forall|q: int, m: nat|
        0 <= q < compacted(slots).len() && #[trigger] mentions(compacted(slots)[q], m) implies 1 <= m
        <= compacted(slots).len() by {
        compact_sealed(slots, (q + 1) as nat, m);
    }
    assert(from[0] == cat);
    root_reached(all, from, cat);
    sweep_keeps_reached(all, from, cat);
    object_under_new_number(slots, cat);
    if let Some(i) = info {
        assert(from[1] == i);
        root_reached(all, from, i);
        sweep_keeps_reached(all, from, i);
        object_under_new_number(slots, i);
    }
}

/// No reference leads nowhere: every reference in the file, the catalog and the document information
/// lead to an object of the file.
pub proof fn references_lead_to_objects(docs: Seq<PdfDocument>, picks: Picks, opts: SubsetOptions)
    requires
        subset(docs, picks, opts) is Ok,
    ensures
        ({
            let objects = file_objects(docs, picks, opts);
            let info = file_info(docs, picks, opts);
            &&& forall|q: int, m: nat|
                0 <= q < objects.len() && #[trigger] mentions(objects[q], m) ==> 1 <= m <= objects.len()
            &&& 1 <= file_root(docs, picks, opts) <= objects.len()
            &&& info is Some ==> 1 <= info->0 <= objects.len()
            &&& assembled(docs, picks, opts).2 is Some ==> info is Some
        }),
{
    let (all, cat, info) = assembled(docs, picks, opts);
    assembled_sealed(docs, picks, opts);
    output_sealed(all, cat, info);
}

/// The places that objects numbered from one on fill.
pub open spec fn cells_of(objects: Seq<Obj>) -> Seq<Cell> {
    objects.map_values(|o: Obj| Cell { object: Some(o), pinned: false })
}

proof fn step_renumbered(slots: Seq<Cell>, a: nat, b: nat)
    requires
        refers(slots, a, b),
        live(slots, b),
    ensures
        refers(cells_of(compacted(slots)), rank_table(slots)[a - 1], rank_table(slots)[b - 1]),
{
    let table = rank_table(slots);
    object_under_new_number(slots, a);
    object_under_new_number(slots, b);
    let o = slots[a - 1].object->0;
    assert(mentions(o, b) && renumbered(table, b) == table[b - 1]);
    rename_mentions(o, table, table[b - 1]);
}

proof fn path_live(slots: Seq<Cell>, path: Seq<nat>, k: int)
    requires
        is_path(slots, path),
        live(slots, path.last()),
        0 <= k < path.len(),
    ensures
        live(slots, path[k]),
{
    if k < path.len() - 1 {
        assert(refers(slots, path[k], path[k + 1]));
    }
}

/// A way through the objects is one through their new numbers.
proof fn path_renumbered(slots: Seq<Cell>, path: Seq<nat>)
    requires
        is_path(slots, path),
        live(slots, path.last()),
    ensures
        is_path(
            cells_of(compacted(slots)),
            Seq::new(path.len(), |i: int| rank_table(slots)[path[i] - 1]),
        ),
{
    let cells = cells_of(compacted(slots));
    let new_path = Seq::new(path.len(), |i: int| rank_table(slots)[path[i] - 1]);
    assert forall|i: int| 0 <= i < new_path.len() - 1 implies #[trigger] refers(
        cells,
        new_path[i],
        new_path[i + 1],
    ) by {
        assert(refers(slots, path[i], path[i + 1]));
        path_live(slots, path, i + 1);
        step_renumbered(slots, path[i], path[i + 1]);
    }
}

/// The numbering keeps that every object is reached: what was reached from the catalog or the
/// document information is so under the new numbers.
pub proof fn reached_renumbered(slots: Seq<Cell>, cat: nat, info: Option<nat>, id: nat)
    requires
        live(slots, id),
        reached(slots, roots(cat, info), id),
    ensures
        reached(
            cells_of(compacted(slots)),
            roots(renumbered(rank_table(slots), cat), info_number(slots, info)),
            rank_table(slots)[id - 1],
        ),
{
    let table = rank_table(slots);
    let from = roots(cat, info);
    let path = choose|path: Seq<nat>| leads_to(slots, from, path, id);
    let new_path = Seq::new(path.len(), |i: int| table[path[i] - 1]);
    path_renumbered(slots, path);
    path_live(slots, path, 0);
    object_under_new_number(slots, path[0]);
    let new_from = roots(renumbered(table, cat), info_number(slots, info));
    assert(new_from.contains(new_path[0])) by {
        let i = choose|i: int| 0 <= i < from.len() && from[i] == path[0];
        if i == 0 {
            assert(new_from[0] == new_path[0]);
        } else {
            assert(info == Some(path[0]));
            assert(new_from[1] == new_path[0]);
        }
    }
    assert(leads_to(cells_of(compacted(slots)), new_from, new_path, table[id - 1]));
}

/// No orphan survives: every object of the file is reached from the catalog or the document
/// information by references in the file.
pub proof fn file_has_no_orphans(docs: Seq<PdfDocument>, picks: Picks, opts: SubsetOptions, q: nat)
    requires
        subset(docs, picks, opts) is Ok,
        1 <= q <= file_objects(docs, picks, opts).len(),
    ensures
        reached(
            cells_of(file_objects(docs, picks, opts)),
            roots(file_root(docs, picks, opts), file_info(docs, picks, opts)),
            q,
        ),
{
    let (all, cat, info) = assembled(docs, picks, opts);
    let slots = left_over(docs, picks, opts);
    let id = object_has_old_number(slots, q);
    sweep_no_orphans(all, roots(cat, info), id);
    reached_renumbered(slots, cat, info, id);
}

/// What the catalog holds: its type, the page tree, each of the structures that there are, and of
/// the source's catalog what is copied as it is.
pub proof fn catalog_entries(extras: Entries, pages: nat, parts: Parts, key: Seq<char>)
    ensures
        dict_get(catalog_dict(extras, pages, parts), key) == (if key == "AcroForm"@ && parts.form is Some {
            Some(new_ref(parts.form->0))
        } else if key == "MarkInfo"@ && parts.tree is Some {
            Some(Obj::Dictionary(dict_insert(Seq::empty(), "Marked"@, Obj::Boolean(true))))
        } else if key == "StructTreeRoot"@ && parts.tree is Some {
            Some(new_ref(parts.tree->0))
        } else if key == "Outlines"@ && parts.outlines is Some {
            Some(new_ref(parts.outlines->0))
        } else if key == "Pages"@ {
            Some(new_ref(pages))
        } else if key == "Type"@ {
            Some(Obj::Name("Catalog"@))
        } else if key == "Info"@ {
            None
        } else {
            dict_get(extras, key)
        }),
{
    let rest = dict_remove(extras, "Info"@);
    dict_get_remove(extras, "Info"@, key);
    let d0 = dict_insert(rest, "Type"@, Obj::Name("Catalog"@));
    dict_get_insert(rest, "Type"@, Obj::Name("Catalog"@), key);
    let d1 = dict_insert(d0, "Pages"@, new_ref(pages));
    dict_get_insert(d0, "Pages"@, new_ref(pages), key);
    let d2 = with_ref(d1, "Outlines"@, parts.outlines);
    if let Some(n) = parts.outlines {
        dict_get_insert(d1, "Outlines"@, new_ref(n), key);
    }
    let d3 = with_ref(d2, "StructTreeRoot"@, parts.tree);
    if let Some(n) = parts.tree {
        dict_get_insert(d2, "StructTreeRoot"@, new_ref(n), key);
    }
    let marked = Obj::Dictionary(dict_insert(Seq::empty(), "Marked"@, Obj::Boolean(true)));
    let d4 = if parts.tree is Some {
        dict_insert(d3, "MarkInfo"@, marked)
    } else {
        d3
    };
    dict_get_insert(d3, "MarkInfo"@, marked, key);
    if let Some(n) = parts.form {
        dict_get_insert(d4, "AcroForm"@, new_ref(n), key);
    }
}

proof fn renamed_get(d: Entries, table: Seq<nat>, key: Seq<char>)
    ensures
        dict_get(rename_entries(d, table), key) == (match dict_get(d, key) {
            Some(v) => Some(rename(v, table)),
            None => None,
        }),
    decreases d.len(),
{
    if d.len() > 0 {
        let e = rename_entries(d, table);
        assert(e.skip(1) =~= rename_entries(d.skip(1), table));
        renamed_get(d.skip(1), table, key);
    }
}

/// The entries of the page tree.
pub proof fn pages_dict_entries(page_ids: Seq<nat>)
    ensures
        dict_get(pages_dict(page_ids), "Kids"@) == Some(Obj::Array(refs(page_ids))),
        dict_get(pages_dict(page_ids), "Count"@) == Some(Obj::Integer(page_ids.len() as i64)),
        dict_get(pages_dict(page_ids), "Type"@) == Some(Obj::Name("Pages"@)),
{
    reveal_strlit("Kids");
    reveal_strlit("Count");
    reveal_strlit("Type");
    let d0 = dict_insert(Seq::empty(), "Type"@, Obj::Name("Pages"@));
    let d1 = dict_insert(d0, "Count"@, Obj::Integer(page_ids.len() as i64));
    let kids = Obj::Array(refs(page_ids));
    assert("Kids"@[0] != "Type"@[0]);
    dict_get_insert(Seq::empty(), "Type"@, Obj::Name("Pages"@), "Type"@);
    dict_get_insert(d0, "Count"@, Obj::Integer(page_ids.len() as i64), "Type"@);
    dict_get_insert(d0, "Count"@, Obj::Integer(page_ids.len() as i64), "Count"@);
    dict_get_insert(d1, "Kids"@, kids, "Type"@);
    dict_get_insert(d1, "Kids"@, kids, "Count"@);
    dict_get_insert(d1, "Kids"@, kids, "Kids"@);
}

proof fn catalog_has_pages(extras: Entries, pages: nat, parts: Parts)
    ensures
        dict_get(catalog_dict(extras, pages, parts), "Pages"@) == Some(new_ref(pages)),
        dict_get(catalog_dict(extras, pages, parts), "Type"@) == Some(Obj::Name("Catalog"@)),
{
    reveal_strlit("AcroForm");
    reveal_strlit("MarkInfo");
    reveal_strlit("StructTreeRoot");
    reveal_strlit("Outlines");
    reveal_strlit("Pages");
    reveal_strlit("Type");
    catalog_entries(extras, pages, parts, "Pages"@);
    catalog_entries(extras, pages, parts, "Type"@);
}

/// The objects that the page tree is made of, before the numbering.
proof fn assembled_pages(st: State, free: Set<nat>, parts: Parts)
    requires
        parts_ready(st, free, parts),
    ensures
        ({
            let (s, cat, _) = assemble(st, parts);
            let pages = (st.slots.len() + 1) as nat;
            &&& cat == pages + 1
            &&& object_at(s, pages) == Some(Obj::Dictionary(pages_dict(st.page_ids)))
            &&& object_at(s, cat) == Some(
                Obj::Dictionary(catalog_dict(held(st, parts.extras), pages, parts)),
            )
            &&& forall|i: int| 0 <= i < st.page_ids.len() ==> live(s.slots, #[trigger] st.page_ids[i])
        }),
{
    let s1 = without(st, parts.extras);
    let pages = next_id(s1);
    let s3 = with_slot(with_slot(s1));
    let n = st.page_ids.len();
    set_parents_keeps(s3, st.page_ids, n, pages);
    let s4 = set_parents(s3, st.page_ids, n, pages);
    let s = assemble(st, parts).0;
    assert forall|i: int| 0 <= i < st.page_ids.len() implies live(s.slots, #[trigger] st.page_ids[i]) by {
        assert(live(st.slots, st.page_ids[i]) && st.page_ids[i] != parts.extras);
        assert(live(s3.slots, st.page_ids[i]));
        assert(live(s4.slots, st.page_ids[i]));
    }
}

proof fn set_parents_keeps(st: State, page_ids: Seq<nat>, k: nat, pages: nat)
    ensures
        set_parents(st, page_ids, k, pages).slots.len() == st.slots.len(),
        forall|n: nat| #[trigger]
            live(st.slots, n) ==> live(set_parents(st, page_ids, k, pages).slots, n),
    decreases k,
{
    if k > 0 {
        set_parents_keeps(st, page_ids, (k - 1) as nat, pages);
        let s = set_parents(st, page_ids, (k - 1) as nat, pages);
        let t = set_parents(st, page_ids, k, pages);
        assert forall|n: nat| #[trigger] live(st.slots, n) implies live(t.slots, n) by {
            assert(live(s.slots, n));
        }
    }
}

/// Is the object `root` a catalog that leads to a page tree whose pages are the objects `kids`?
pub open spec fn has_page_tree(objects: Seq<Obj>, root: nat, kids: Seq<nat>) -> bool {
    exists|c: Entries, p: nat, d: Entries| #[trigger] page_tree(objects, root, kids, c, p, d)
}

/// Is `c` the catalog, under the number `root`, and `d` its page tree, under the number `p`?
pub open spec fn page_tree(
    objects: Seq<Obj>,
    root: nat,
    kids: Seq<nat>,
    c: Entries,
    p: nat,
    d: Entries,
) -> bool {
    &&& 1 <= root <= objects.len()
    &&& objects[root - 1] == Obj::Dictionary(c)
    &&& dict_get(c, "Type"@) == Some(Obj::Name("Catalog"@))
    &&& dict_get(c, "Pages"@) == Some(new_ref(p))
    &&& 1 <= p <= objects.len()
    &&& objects[p - 1] == Obj::Dictionary(d)
    &&& dict_get(d, "Type"@) == Some(Obj::Name("Pages"@))
    &&& dict_get(d, "Count"@) == Some(Obj::Integer(kids.len() as i64))
    &&& dict_get(d, "Kids"@) == Some(Obj::Array(refs(kids)))
    &&& forall|i: int| 0 <= i < kids.len() ==> 1 <= #[trigger] kids[i] <= objects.len()
}

proof fn tree_stays(all: Seq<Cell>, cat: nat, info: Option<nat>, c: Entries, pages: nat, page_ids: Seq<nat>)
    requires
        live(all, cat),
        all[cat - 1].object == Some(Obj::Dictionary(c)),
        dict_get(c, "Type"@) == Some(Obj::Name("Catalog"@)),
        dict_get(c, "Pages"@) == Some(new_ref(pages)),
        live(all, pages),
        all[pages - 1].object == Some(Obj::Dictionary(pages_dict(page_ids))),
        forall|i: int| 0 <= i < page_ids.len() ==> live(all, #[trigger] page_ids[i]),
    ensures
        ({
            let slots = sweep(all, roots(cat, info));
            &&& live(slots, cat)
            &&& live(slots, pages)
            &&& forall|i: int| 0 <= i < page_ids.len() ==> live(slots, #[trigger] page_ids[i])
        }),
{
    let from = roots(cat, info);
    let slots = sweep(all, from);
    let d = pages_dict(page_ids);
    pages_dict_entries(page_ids);
    assert(from[0] == cat);
    root_reached(all, from, cat);
    sweep_keeps_reached(all, from, cat);
    assert(mentions(new_ref(pages), pages));
    get_mentions(c, "Pages"@, pages);
    assert(mentions(Obj::Dictionary(c), pages));
    assert(refers(all, cat, pages));
    reached_step(all, from, cat, pages);
    sweep_keeps_reached(all, from, pages);
    assert forall|i: int| 0 <= i < page_ids.len() implies live(slots, #[trigger] page_ids[i]) by {
        let n = page_ids[i];
        assert(live(all, n));
        let a = Obj::Array(refs(page_ids));
        assert(a->Array_0[i] == new_ref(n));
        assert(mentions(a->Array_0[i], n));
        assert(mentions(a, n));
        get_mentions(d, "Kids"@, n);
        assert(mentions(Obj::Dictionary(d), n));
        assert(refers(all, pages, n));
        reached_step(all, from, pages, n);
        sweep_keeps_reached(all, from, n);
    }
}

proof fn numbered_page_tree(
    all: Seq<Cell>,
    cat: nat,
    info: Option<nat>,
    c: Entries,
    pages: nat,
    page_ids: Seq<nat>,
)
    requires
        live(all, cat),
        all[cat - 1].object == Some(Obj::Dictionary(c)),
        dict_get(c, "Type"@) == Some(Obj::Name("Catalog"@)),
        dict_get(c, "Pages"@) == Some(new_ref(pages)),
        live(all, pages),
        all[pages - 1].object == Some(Obj::Dictionary(pages_dict(page_ids))),
        forall|i: int| 0 <= i < page_ids.len() ==> live(all, #[trigger] page_ids[i]),
    ensures
        ({
            let slots = sweep(all, roots(cat, info));
            let table = rank_table(slots);
            has_page_tree(
                compacted(slots),
                renumbered(table, cat),
                page_ids.map_values(|n: nat| renumbered(table, n)),
            )
        }),
{
    let slots = sweep(all, roots(cat, info));
    let table = rank_table(slots);
    let objects = compacted(slots);
    let d = pages_dict(page_ids);
    pages_dict_entries(page_ids);
    let kids = page_ids.map_values(|n: nat| renumbered(table, n));
    tree_stays(all, cat, info, c, pages, page_ids);
    object_under_new_number(slots, cat);
    object_under_new_number(slots, pages);
    assert forall|i: int| 0 <= i < kids.len() implies 1 <= #[trigger] kids[i] <= objects.len() by {
        assert(live(slots, page_ids[i]));
        object_under_new_number(slots, page_ids[i]);
    }
    renamed_get(c, table, "Type"@);
    renamed_get(c, table, "Pages"@);
    renamed_get(d, table, "Type"@);
    renamed_get(d, table, "Count"@);
    renamed_get(d, table, "Kids"@);
    let renamed = rename(Obj::Array(refs(page_ids)), table);
    assert forall|i: int| 0 <= i < kids.len() implies renamed->Array_0[i] == #[trigger] refs(kids)[i] by {
        assert(refs(page_ids)[i] == new_ref(page_ids[i]));
        assert(rename(new_ref(page_ids[i]), table) == new_ref(renumbered(table, page_ids[i])));
    }
    assert(renamed->Array_0 =~= refs(kids));
    assert(page_tree(
        objects,
        renumbered(table, cat),
        kids,
        rename_entries(c, table),
        renumbered(table, pages),
        rename_entries(d, table),
    ));
}

/// The file has one page for each choice, in the order of the choices: its catalog leads to a page
/// tree that counts and lists them.
pub proof fn file_lists_pages_in_order(docs: Seq<PdfDocument>, picks: Picks, opts: SubsetOptions)
    requires
        subset(docs, picks, opts) is Ok,
    ensures
        has_page_tree(
            file_objects(docs, picks, opts),
            file_root(docs, picks, opts),
            page_row(picks.len()).map_values(
                |n: nat| renumbered(rank_table(left_over(docs, picks, opts)), n),
            ),
        ),
{
    let env = plan(docs, picks, opts);
    let built = build_pages(env, planned(picks.len()), picks, 0)->Ok_0;
    let (st, parts) = gather(env, built);
    let after = reduce(env, st);
    let free = Set::<nat>::empty();
    parts_are_ready(docs, picks, opts);
    assembled_pages(after, free, parts);
    assemble_sealed(after, free, parts);
    let (all, cat, info) = assemble(after, parts);
    let pages = (after.slots.len() + 1) as nat;
    let extras = held(after, parts.extras);
    catalog_has_pages(extras, pages, parts);
    numbered_page_tree(all.slots, cat, info, catalog_dict(extras, pages, parts), pages, after.page_ids);
}

proof fn tree_of_parts(st: State, parts: Parts)
    requires
        parts_ready(st, Set::empty(), parts),
    ensures
        ({
            let (s, cat, info) = assemble(st, parts);
            tree_left(s.slots, cat, sweep(s.slots, roots(cat, info)), st.page_ids)
        }),
{
    assembled_pages(st, Set::empty(), parts);
    assemble_sealed(st, Set::empty(), parts);
    let (s, cat, info) = assemble(st, parts);
    let pages = (st.slots.len() + 1) as nat;
    let extras = held(st, parts.extras);
    catalog_has_pages(extras, pages, parts);
    set_parents_keeps(
        with_slot(with_slot(without(st, parts.extras))),
        st.page_ids,
        st.page_ids.len(),
        pages,
    );
    tree_stays(s.slots, cat, info, catalog_dict(extras, pages, parts), pages, st.page_ids);
    let slots = sweep(s.slots, roots(cat, info));
    assert forall|n: nat| #[trigger] live(slots, n) implies slots[n - 1] == s.slots[n - 1] by {}
}

/// Are the node of the page tree, the catalog and the pages among the objects that are left of `all`?
pub open spec fn tree_left(all: Seq<Cell>, cat: nat, slots: Seq<Cell>, page_ids: Seq<nat>) -> bool {
    &&& 2 <= cat == all.len()
    &&& all[cat - 2].object == Some(Obj::Dictionary(pages_dict(page_ids)))
    &&& all[cat - 1].object is Some
    &&& all[cat - 1].object->0 is Dictionary
    &&& dict_get(all[cat - 1].object->0->Dictionary_0, "Type"@) == Some(Obj::Name("Catalog"@))
    &&& live(slots, (cat - 1) as nat)
    &&& forall|i: int| 0 <= i < page_ids.len() ==> live(slots, #[trigger] page_ids[i])
    &&& slots.len() == all.len()
    &&& forall|n: nat| #[trigger] live(slots, n) ==> slots[n - 1] == all[n - 1]
}

/// The page tree before the numbering: its node, the catalog and the pages are left.
pub proof fn page_tree_stands(docs: Seq<PdfDocument>, picks: Picks, opts: SubsetOptions)
    requires
        subset(docs, picks, opts) is Ok,
    ensures
        tree_left(
            assembled(docs, picks, opts).0,
            assembled(docs, picks, opts).1,
            left_over(docs, picks, opts),
            page_row(picks.len()),
        ),
{
    let env = plan(docs, picks, opts);
    let built = build_pages(env, planned(picks.len()), picks, 0)->Ok_0;
    let (st, parts) = gather(env, built);
    parts_are_ready(docs, picks, opts);
    tree_of_parts(reduce(env, st), parts);
}

proof fn set_parents_elsewhere(st: State, page_ids: Seq<nat>, k: nat, pages: nat, n: nat)
    requires
        k <= page_ids.len(),
        1 <= n <= st.slots.len(),
        !page_ids.contains(n),
    ensures
        set_parents(st, page_ids, k, pages).slots.len() == st.slots.len(),
        set_parents(st, page_ids, k, pages).slots[n - 1] == st.slots[n - 1],
    decreases k,
{
    if k > 0 {
        set_parents_elsewhere(st, page_ids, (k - 1) as nat, pages, n);
        assert(page_ids.contains(page_ids[k - 1]));
    }
}

/// What may be collapsed is in the file as it was after the collapsing.
proof fn copies_stand(docs: Seq<PdfDocument>, picks: Picks, opts: SubsetOptions, n: nat)
    requires
        subset(docs, picks, opts) is Ok,
        free(left_over(docs, picks, opts), n),
        n + 2 <= left_over(docs, picks, opts).len(),
    ensures
        ({
            let env = plan(docs, picks, opts);
            let built = build_pages(env, planned(picks.len()), picks, 0)->Ok_0;
            let slots = reduce(env, gather(env, built).0).slots;
            n <= slots.len() && slots[n - 1] == left_over(docs, picks, opts)[n - 1]
        }),
{
    let env = plan(docs, picks, opts);
    let built = build_pages(env, planned(picks.len()), picks, 0)->Ok_0;
    let (st, parts) = gather(env, built);
    let after = reduce(env, st);
    parts_are_ready(docs, picks, opts);
    let all = assembled(docs, picks, opts).0;
    assert(live(all, n));
    let s1 = without(after, parts.extras);
    let pages = next_id(s1);
    let s3 = with_slot(with_slot(s1));
    let count = after.page_ids.len();
    set_parents_keeps(s3, after.page_ids, count, pages);
    assert(n <= after.slots.len());
    if after.page_ids.contains(n) {
        let i = choose|i: int| 0 <= i < after.page_ids.len() && after.page_ids[i] == n;
        assert(page_row(picks.len())[i] == n);
        pins_stay(s3, after.page_ids, count, pages);
        assert(all[n - 1].pinned);
    }
    set_parents_elsewhere(s3, after.page_ids, count, pages, n);
}

proof fn pins_stay(st: State, page_ids: Seq<nat>, k: nat, pages: nat)
    ensures
        set_parents(st, page_ids, k, pages).slots.len() == st.slots.len(),
        forall|i: int|
            0 <= i < st.slots.len() ==> (#[trigger] set_parents(st, page_ids, k, pages).slots[i]).pinned
                == st.slots[i].pinned,
    decreases k,
{
    if k > 0 {
        pins_stay(st, page_ids, (k - 1) as nat, pages);
        let s = set_parents(st, page_ids, (k - 1) as nat, pages);
        let t = set_parents(st, page_ids, k, pages);
        assert forall|i: int| 0 <= i < st.slots.len() implies (#[trigger] t.slots[i]).pinned
            == st.slots[i].pinned by {
            assert(s.slots[i].pinned == st.slots[i].pinned);
        }
    }
}

/// Nothing is in the file twice: where equal objects are collapsed, no two objects that are left and
/// may be collapsed have the same canonical form. Each page, form field, outline entry and structure
/// element may not, and the page tree and the catalog, which come last, are built after that.
pub proof fn file_has_no_duplicates(
    docs: Seq<PdfDocument>,
    picks: Picks,
    opts: SubsetOptions,
    a: nat,
    b: nat,
)
    requires
        subset(docs, picks, opts) is Ok,
        opts.dedup,
        a != b,
        free(left_over(docs, picks, opts), a),
        free(left_over(docs, picks, opts), b),
        a + 2 <= left_over(docs, picks, opts).len(),
        b + 2 <= left_over(docs, picks, opts).len(),
    ensures
        form_at(left_over(docs, picks, opts), a) != form_at(left_over(docs, picks, opts), b),
{
    let env = plan(docs, picks, opts);
    let built = build_pages(env, planned(picks.len()), picks, 0)->Ok_0;
    let st = gather(env, built).0;
    let slots = dedup_slots(tidied(st));
    copies_stand(docs, picks, opts, a);
    copies_stand(docs, picks, opts, b);
    dedup_no_duplicates(tidied(st));
    assert(!alike(slots, a, b));
}

proof fn dedup_unsigned(slots: Seq<Cell>)
    requires
        all_unsigned(slots),
    ensures
        all_unsigned(dedup_slots(slots)),
    decreases live_count(slots),
{
    if any_collapsed(slots) {
        let next = dedup_round(slots);
        let table = collapse_table(slots);
        assert forall|n: nat| #[trigger] live(next, n) implies !holds_signature(next[n - 1].object->0) by {
            assert(live(slots, n));
            rename_unsigned(slots[n - 1].object->0, table);
        }
        round_shrinks(slots);
        dedup_unsigned(next);
    }
}

proof fn put_unsigned(st: State, n: nat, o: Obj)
    requires
        all_unsigned(st.slots),
        !holds_signature(o),
    ensures
        all_unsigned(put(st, n, o).slots),
{
    let s = put(st, n, o);
    assert forall|m: nat| #[trigger] live(s.slots, m) implies !holds_signature(s.slots[m - 1].object->0) by {
        if m != n {
            assert(live(st.slots, m));
        }
    }
}

/// The keys of a page, of the page tree and of the catalog are none of those of a signature.
proof fn no_signature_key(key: Seq<char>)
    requires
        key == "Parent"@ || key == "Type"@ || key == "Count"@ || key == "Kids"@ || key == "Pages"@ || key
            == "Outlines"@ || key == "StructTreeRoot"@ || key == "MarkInfo"@ || key == "Marked"@ || key
            == "AcroForm"@,
    ensures
        key != "ByteRange"@ && key != "Contents"@,
{
    reveal_strlit("ByteRange");
    reveal_strlit("Contents");
    reveal_strlit("Parent");
    reveal_strlit("Type");
    reveal_strlit("Count");
    reveal_strlit("Kids");
    reveal_strlit("Pages");
    reveal_strlit("Outlines");
    reveal_strlit("StructTreeRoot");
    reveal_strlit("MarkInfo");
    reveal_strlit("Marked");
    reveal_strlit("AcroForm");
    assert("ByteRange"@.len() == 9 && "Contents"@.len() == 8 && "Contents"@[0] == 'C');
    assert("Parent"@.len() == 6 && "Type"@.len() == 4 && "Count"@.len() == 5 && "Kids"@.len() == 4);
    assert("Pages"@.len() == 5 && "StructTreeRoot"@.len() == 14 && "Marked"@.len() == 6);
    assert("Outlines"@[0] == 'O' && "Outlines"@.len() == 8);
    assert("MarkInfo"@[0] == 'M' && "MarkInfo"@.len() == 8);
    assert("AcroForm"@[0] == 'A' && "AcroForm"@.len() == 8);
}

proof fn set_parents_unsigned(st: State, page_ids: Seq<nat>, k: nat, pages: nat)
    requires
        all_unsigned(st.slots),
    ensures
        all_unsigned(set_parents(st, page_ids, k, pages).slots),
    decreases k,
{
    if k > 0 {
        set_parents_unsigned(st, page_ids, (k - 1) as nat, pages);
        let s = set_parents(st, page_ids, (k - 1) as nat, pages);
        let n = page_ids[k - 1];
        if let Some(Obj::Dictionary(d)) = object_at(s, n) {
            assert(live(s.slots, n));
            no_signature_key("Parent"@);
            insert_unsigned(d, "Parent"@, new_ref(pages));
            put_unsigned(s, n, Obj::Dictionary(dict_insert(d, "Parent"@, new_ref(pages))));
        }
    }
}

proof fn with_ref_unsigned(d: Entries, key: Seq<char>, id: Option<nat>)
    requires
        !holds_signature(Obj::Dictionary(d)),
        key != "ByteRange"@ && key != "Contents"@,
    ensures
        !holds_signature(Obj::Dictionary(with_ref(d, key, id))),
{
    if let Some(n) = id {
        insert_unsigned(d, key, new_ref(n));
    }
}

proof fn pages_dict_unsigned(page_ids: Seq<nat>)
    ensures
        !holds_signature(Obj::Dictionary(pages_dict(page_ids))),
{
    let d0: Entries = Seq::empty();
    no_signature_key("Type"@);
    no_signature_key("Count"@);
    no_signature_key("Kids"@);
    reveal_strlit("Pages");
    reveal_strlit("Sig");
    assert("Pages"@.len() == 5 && "Sig"@.len() == 3);
    empty_unsigned();
    insert_unsigned(d0, "Type"@, Obj::Name("Pages"@));
    let d1 = dict_insert(d0, "Type"@, Obj::Name("Pages"@));
    let count = Obj::Integer(page_ids.len() as i64);
    insert_unsigned(d1, "Count"@, count);
    let kids = Obj::Array(refs(page_ids));
    assert forall|i: int| 0 <= i < refs(page_ids).len() implies !holds_signature(#[trigger] refs(page_ids)[i]) by {
        assert(refs(page_ids)[i] == new_ref(page_ids[i]));
    }
    assert(!holds_signature(kids));
    insert_unsigned(dict_insert(d1, "Count"@, count), "Kids"@, kids);
}

proof fn catalog_unsigned(extras: Entries, pages: nat, parts: Parts)
    requires
        !holds_signature(Obj::Dictionary(extras)),
    ensures
        !holds_signature(Obj::Dictionary(catalog_dict(extras, pages, parts))),
{
    no_signature_key("Type"@);
    no_signature_key("Pages"@);
    no_signature_key("Outlines"@);
    no_signature_key("StructTreeRoot"@);
    no_signature_key("MarkInfo"@);
    no_signature_key("Marked"@);
    no_signature_key("AcroForm"@);
    let rest = dict_remove(extras, "Info"@);
    remove_unsigned(extras, "Info"@);
    let kind = Obj::Name("Catalog"@);
    reveal_strlit("Catalog");
    reveal_strlit("Sig");
    assert("Catalog"@.len() == 7 && "Sig"@.len() == 3);
    insert_unsigned(rest, "Type"@, kind);
    let d0 = dict_insert(rest, "Type"@, kind);
    insert_unsigned(d0, "Pages"@, new_ref(pages));
    let d1 = dict_insert(d0, "Pages"@, new_ref(pages));
    with_ref_unsigned(d1, "Outlines"@, parts.outlines);
    let d2 = with_ref(d1, "Outlines"@, parts.outlines);
    with_ref_unsigned(d2, "StructTreeRoot"@, parts.tree);
    let d3 = with_ref(d2, "StructTreeRoot"@, parts.tree);
    let none: Entries = Seq::empty();
    empty_unsigned();
    insert_unsigned(none, "Marked"@, Obj::Boolean(true));
    let mark = Obj::Dictionary(dict_insert(none, "Marked"@, Obj::Boolean(true)));
    insert_unsigned(d3, "MarkInfo"@, mark);
    let d4 = if parts.tree is Some {
        dict_insert(d3, "MarkInfo"@, mark)
    } else {
        d3
    };
    with_ref_unsigned(d4, "AcroForm"@, parts.form);
}

proof fn assemble_unsigned(st: State, parts: Parts)
    requires
        all_unsigned(st.slots),
    ensures
        all_unsigned(assemble(st, parts).0.slots),
{
    let extras = held(st, parts.extras);
    assert(!holds_signature(Obj::Dictionary(extras))) by {
        empty_unsigned();
        if let Some(Obj::Dictionary(d)) = object_at(st, parts.extras) {
            assert(live(st.slots, parts.extras));
        }
    }
    let s1 = without(st, parts.extras);
    let pages = next_id(s1);
    let s3 = with_slot(with_slot(s1));
    let cat = (pages + 1) as nat;
    assert forall|n: nat| #[trigger] live(s3.slots, n) implies !holds_signature(s3.slots[n - 1].object->0) by {
        assert(live(st.slots, n));
    }
    let n = st.page_ids.len();
    set_parents_unsigned(s3, st.page_ids, n, pages);
    let s4 = set_parents(s3, st.page_ids, n, pages);
    pages_dict_unsigned(st.page_ids);
    let po = Obj::Dictionary(pages_dict(st.page_ids));
    put_unsigned(s4, pages, po);
    catalog_unsigned(extras, pages, parts);
    put_unsigned(put(s4, pages, po), cat, Obj::Dictionary(catalog_dict(extras, pages, parts)));
}

/// No signature survives: there is no signature dictionary in any object of the file, whatever the
/// sources hold.
pub proof fn file_has_no_signature(docs: Seq<PdfDocument>, picks: Picks, opts: SubsetOptions, q: nat)
    requires
        subset(docs, picks, opts) is Ok,
        1 <= q <= file_objects(docs, picks, opts).len(),
    ensures
        !holds_signature(file_objects(docs, picks, opts)[q - 1]),
{
    let env = plan(docs, picks, opts);
    let built = build_pages(env, planned(picks.len()), picks, 0)->Ok_0;
    let (st, parts) = gather(env, built);
    let plain = tidied(st);
    assert forall|n: nat| #[trigger] live(plain, n) implies !holds_signature(plain[n - 1].object->0) by {
        let o = unsigned(st.slots[n - 1].object->0);
        unsigned_holds_none(st.slots[n - 1].object->0);
        if let Obj::Stream(d, _) = o {
            remove_entries_unsigned(d, "Length"@);
        }
    }
    if opts.dedup {
        dedup_unsigned(plain);
    }
    assemble_unsigned(reduce(env, st), parts);
    let all = assembled(docs, picks, opts).0;
    let slots = left_over(docs, picks, opts);
    let id = object_has_old_number(slots, q);
    assert(live(all, id));
    rename_unsigned(slots[id - 1].object->0, rank_table(slots));
}

} // verus!
