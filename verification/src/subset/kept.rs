//! What a page and a form field of the output keep of those of the source, key by key.

use vstd::prelude::*;
use crate::document::{resolve, Content, PdfDocument};
use crate::object::{
    dict_get, dict_get_insert, dict_has, dict_insert, obj_dict, Entries, Obj,
};
use super::again::{annots_remember, body_remembers, gather_remembers, page_remembers};
use super::copy::{carry, remap};
use super::denotes::gathered;
use super::dests::sub_array;
use super::faithful::{extends, ids_placed, remap_copies, same_copy, same_copy_extends, same_entries};
use super::finish::gather;
use super::named::{body_names_led, body_quiet, operator_led, operator_stays, resources_quiet};
use super::paged::{dict_at, entry_at, gather_keeps, link_key};
use super::pages::{build_page, geometry_keys, page_body, process_annots};
use super::rebuild::{build_pages, plan, planned, subset, Picks};
use super::refs::{entries_mention, mentions};
use super::relinked::{forms_linked, page_links};
use super::resources::trimmed_resources;
use super::sound::{copied_right, page_row, page_stays_right, resources_advance};
use super::usage::all_use;
use super::{Env, State, SubsetOptions};

verus! {

/// Does `o` refer to no object?
pub open spec fn stands_alone(o: Obj) -> bool {
    forall|m: nat| !#[trigger] mentions(o, m)
}

/// Does `o`, standing at the given depth, hold nothing deeper than the depth to which objects are
/// copied?
pub open spec fn fits(o: Obj, depth: nat) -> bool
    decreases o,
{
    depth <= 256 && match o {
        Obj::Array(items) => forall|i: int| 0 <= i < items.len() ==> fits(#[trigger] items[i], depth + 1),
        Obj::Dictionary(d) => entries_fit(d, depth + 1),
        Obj::Stream(d, _) => entries_fit(d, depth + 1),
        _ => true,
    }
}

/// Do all values fit?
pub open spec fn entries_fit(d: Entries, depth: nat) -> bool
    decreases d,
{
    forall|i: int| 0 <= i < d.len() ==> fits((#[trigger] d[i]).1, depth)
}

/// The copy of what refers to no object is that very thing.
pub proof fn alone_copied_as_is(env: Env, ids: Map<(nat, nat), nat>, src: nat, o: Obj, c: Obj, depth: nat)
    requires
        same_copy(env, ids, src, o, c, depth),
        stands_alone(o),
        fits(o, depth),
    ensures
        c == o,
    decreases o,
{
    match o {
        Obj::Reference(id, _) => {
            assert(mentions(o, id));
        },
        Obj::Array(items) => {
            assert(decreases_to!(o => o->Array_0));
            assert forall|i: int| 0 <= i < items.len() implies c->Array_0[i] == #[trigger] items[i] by {
                assert(decreases_to!(items => items[i]));
                assert(stands_alone(items[i])) by {
                    assert forall|m: nat| !#[trigger] mentions(items[i], m) by {
                        assert(!mentions(o, m));
                    }
                }
                alone_copied_as_is(env, ids, src, items[i], c->Array_0[i], depth + 1);
            }
            assert(c->Array_0 =~= items);
        },
        Obj::Dictionary(d) => {
            assert(decreases_to!(o => o->Dictionary_0));
            assert forall|m: nat| !#[trigger] entries_mention(d, m) by {
                assert(!mentions(o, m));
            }
            alone_entries(env, ids, src, d, c->Dictionary_0, depth + 1);
        },
        Obj::Stream(d, _) => {
            assert(decreases_to!(o => o->Stream_0));
            assert forall|m: nat| !#[trigger] entries_mention(d, m) by {
                assert(!mentions(o, m));
            }
            alone_entries(env, ids, src, d, c->Stream_0, depth + 1);
        },
        _ => {},
    }
}

proof fn alone_entries(env: Env, ids: Map<(nat, nat), nat>, src: nat, d: Entries, e: Entries, depth: nat)
    requires
        same_entries(env, ids, src, d, e, depth),
        forall|m: nat| !#[trigger] entries_mention(d, m),
        entries_fit(d, depth),
    ensures
        e == d,
    decreases d,
{
    assert forall|i: int| 0 <= i < d.len() implies e[i] == #[trigger] d[i] by {
        assert(decreases_to!(d => d[i]));
        assert(decreases_to!(d[i] => d[i].1));
        assert(stands_alone(d[i].1)) by {
            assert forall|m: nat| !#[trigger] mentions(d[i].1, m) by {
                assert(!entries_mention(d, m));
            }
        }
        alone_copied_as_is(env, ids, src, d[i].1, e[i].1, depth);
    }
    assert(e =~= d);
}

/// Does `to` have the key exactly where `from` has it, with a copy of the value, copied at the given
/// depth?
pub open spec fn entry_kept(
    env: Env,
    ids: Map<(nat, nat), nat>,
    src: nat,
    from: Entries,
    to: Entries,
    key: Seq<char>,
    depth: nat,
) -> bool {
    &&& dict_has(to, key) <==> dict_has(from, key)
    &&& dict_get(from, key) matches Some(v) ==> same_copy(env, ids, src, v, dict_get(to, key)->0, depth)
}

/// An entry that was kept stays kept as numbers are given out, wherever the dictionary still holds it.
pub proof fn entry_stays(
    env: Env,
    a: Map<(nat, nat), nat>,
    b: Map<(nat, nat), nat>,
    src: nat,
    from: Entries,
    d: Entries,
    e: Entries,
    key: Seq<char>,
    depth: nat,
)
    requires
        entry_kept(env, a, src, from, d, key, depth),
        extends(a, b),
        dict_get(e, key) == dict_get(d, key),
    ensures
        entry_kept(env, b, src, from, e, key, depth),
{
    if let Some(v) = dict_get(from, key) {
        same_copy_extends(env, a, b, src, v, dict_get(d, key)->0, depth);
    }
}

/// What is carried over is kept, each key with a copy of its value, and carrying changes nothing that
/// was there.
pub proof fn carried(
    env: Env,
    st: State,
    src: nat,
    from: Entries,
    keys: Seq<Seq<char>>,
    depth: nat,
    into: Entries,
    key: Seq<char>,
)
    requires
        ids_placed(st),
    ensures
        ({
            let (s, out) = carry(env, st, src, from, keys, depth, into);
            &&& ids_placed(s)
            &&& extends(st.ids, s.ids)
            &&& s == (State { slots: s.slots, ids: s.ids, ..st })
            &&& st.slots.len() <= s.slots.len()
            &&& forall|i: int| 0 <= i < st.slots.len() ==> (#[trigger] s.slots[i]) == st.slots[i]
            &&& keys.contains(key) && !dict_has(into, key) ==> entry_kept(env, s.ids, src, from, out, key, depth)
            &&& !keys.contains(key) ==> dict_get(out, key) == dict_get(into, key)
        }),
    decreases keys.len(),
{
    if keys.len() > 0 {
        let front = keys.drop_last();
        carried(env, st, src, from, front, depth, into, key);
        let (s1, out) = carry(env, st, src, from, front, depth, into);
        assert(keys[keys.len() - 1] == keys.last());
        assert(keys.contains(key) <==> front.contains(key) || key == keys.last()) by {
            if front.contains(key) {
                let i = choose|i: int| 0 <= i < front.len() && front[i] == key;
                assert(keys[i] == key);
            }
            if keys.contains(key) {
                let i = choose|i: int| 0 <= i < keys.len() && keys[i] == key;
                if i < front.len() {
                    assert(front[i] == key);
                }
            }
        }
        if let Some(v) = dict_get(from, keys.last()) {
            remap_copies(env, s1, src, v, depth);
            let (s2, o) = remap(env, s1, src, v, depth);
            dict_get_insert(out, keys.last(), o, key);
            if front.contains(key) && !dict_has(into, key) && key != keys.last() {
                entry_stays(env, s1.ids, s2.ids, src, from, out, dict_insert(out, keys.last(), o), key, depth);
            }
            assert forall|i: int| 0 <= i < st.slots.len() implies (#[trigger] s2.slots[i]) == st.slots[i] by {
                assert(s1.slots[i] == st.slots[i]);
            }
        } else if key == keys.last() && !front.contains(key) {
            assert(dict_get(out, key) == dict_get(into, key));
        }
    }
}

/// Does the page `d` keep what says how the source page lies and what of it is shown?
pub open spec fn page_kept(env: Env, ids: Map<(nat, nat), nat>, src: nat, page: Entries, d: Entries) -> bool {
    &&& entry_kept(env, ids, src, page, d, "MediaBox"@, 1)
    &&& entry_kept(env, ids, src, page, d, "CropBox"@, 1)
    &&& entry_kept(env, ids, src, page, d, "BleedBox"@, 1)
    &&& entry_kept(env, ids, src, page, d, "TrimBox"@, 1)
    &&& entry_kept(env, ids, src, page, d, "ArtBox"@, 1)
    &&& entry_kept(env, ids, src, page, d, "Rotate"@, 1)
    &&& entry_kept(env, ids, src, page, d, "UserUnit"@, 1)
    &&& entry_kept(env, ids, src, page, d, "Group"@, 1)
    &&& entry_kept(env, ids, src, page, d, "Contents"@, 1)
}

/// The keys of a page are apart from one another.
pub proof fn page_keys_apart()
    ensures
        forall|i: int|
            0 <= i < geometry_keys().len() ==> {
                let key = #[trigger] geometry_keys()[i];
                key != "Type"@ && key != "Resources"@ && key != "Contents"@ && key != "Annots"@ && !link_key(key)
            },
        "Contents"@ != "Type"@ && "Contents"@ != "Resources"@ && "Contents"@ != "Annots"@ && !link_key("Contents"@),
        "Resources"@ != "Annots"@ && !link_key("Resources"@),
{
    reveal_strlit("MediaBox");
    reveal_strlit("CropBox");
    reveal_strlit("BleedBox");
    reveal_strlit("TrimBox");
    reveal_strlit("ArtBox");
    reveal_strlit("Rotate");
    reveal_strlit("UserUnit");
    reveal_strlit("Group");
    reveal_strlit("Type");
    reveal_strlit("Resources");
    reveal_strlit("Contents");
    reveal_strlit("Annots");
    reveal_strlit("Prev");
    reveal_strlit("Next");
    reveal_strlit("StructParents");
    reveal_strlit("Kids");
    reveal_strlit("Parent");
    assert("MediaBox"@.len() == 8 && "MediaBox"@[0] == 'M');
    assert("CropBox"@.len() == 7);
    assert("BleedBox"@.len() == 8 && "BleedBox"@[0] == 'B');
    assert("TrimBox"@.len() == 7);
    assert("ArtBox"@.len() == 6 && "ArtBox"@[1] == 'r');
    assert("Rotate"@.len() == 6 && "Rotate"@[0] == 'R');
    assert("UserUnit"@.len() == 8 && "UserUnit"@[0] == 'U');
    assert("Group"@.len() == 5);
    assert("Type"@.len() == 4 && "Resources"@.len() == 9 && "Contents"@.len() == 8 && "Contents"@[0] == 'C');
    assert("Annots"@.len() == 6 && "Annots"@[0] == 'A' && "Annots"@[1] == 'n');
    assert("Prev"@.len() == 4 && "Next"@.len() == 4 && "StructParents"@.len() == 13 && "Kids"@.len() == 4);
    assert("Parent"@.len() == 6 && "Parent"@[0] == 'P');
}

/// The keys of the geometry.
pub proof fn geometry_has()
    ensures
        geometry_keys().len() >= 8,
        geometry_keys().contains("MediaBox"@),
        geometry_keys().contains("CropBox"@),
        geometry_keys().contains("BleedBox"@),
        geometry_keys().contains("TrimBox"@),
        geometry_keys().contains("ArtBox"@),
        geometry_keys().contains("Rotate"@),
        geometry_keys().contains("UserUnit"@),
        geometry_keys().contains("Group"@),
{
    let k = geometry_keys();
    assert(k[0] == "MediaBox"@ && k[1] == "CropBox"@ && k[2] == "BleedBox"@ && k[3] == "TrimBox"@);
    assert(k[4] == "ArtBox"@ && k[5] == "Rotate"@ && k[6] == "UserUnit"@ && k[7] == "Group"@);
}

proof fn body_entry(env: Env, st: State, src: nat, page: Entries, content: Content, key: Seq<char>)
    requires
        ids_placed(st),
        geometry_keys().contains(key) || key == "Contents"@,
    ensures
        ({
            let (s, d) = page_body(env, st, src, page, content);
            entry_kept(env, s.ids, src, page, d, key, 1)
        }),
{
    let doc = env.docs[src as int];
    page_keys_apart();
    if geometry_keys().contains(key) {
        let i = choose|i: int| 0 <= i < geometry_keys().len() && geometry_keys()[i] == key;
        assert(geometry_keys()[i] == key);
    }
    if geometry_keys().contains("Contents"@) {
        let i = choose|i: int| 0 <= i < geometry_keys().len() && geometry_keys()[i] == "Contents"@;
        assert(geometry_keys()[i] == "Contents"@);
    }
    let none: Entries = Seq::empty();
    let kind = Obj::Name("Page"@);
    let d0 = dict_insert(none, "Type"@, kind);
    dict_get_insert(none, "Type"@, kind, key);
    assert(dict_get(none, key) is None);
    let (s1, d1) = carry(env, st, src, page, geometry_keys(), 1, d0);
    carried(env, st, src, page, geometry_keys(), 1, d0, key);
    let (s2, d2) = match dict_get(page, "Resources"@) {
        Some(r) => match resolve(doc, r) {
            Some(res) => {
                let used = all_use(doc, res, content);
                let (s, t) = trimmed_resources(env, s1, src, res, used, 0);
                (s, dict_insert(d1, "Resources"@, t))
            },
            None => (s1, d1),
        },
        None => (s1, d1),
    };
    if let Some(r) = dict_get(page, "Resources"@) {
        if let Some(res) = resolve(doc, r) {
            let used = all_use(doc, res, content);
            resources_advance(env, s1, src, res, used, 0);
            dict_get_insert(d1, "Resources"@, trimmed_resources(env, s1, src, res, used, 0).1, key);
        }
    }
    let keys = seq!["Contents"@];
    assert(keys[0] == "Contents"@);
    let (s3, d3) = carry(env, s2, src, page, keys, 1, d2);
    carried(env, s2, src, page, keys, 1, d2, key);
    if key != "Contents"@ {
        assert(!keys.contains(key));
        entry_stays(env, s1.ids, s3.ids, src, page, d1, d3, key, 1);
    }
}

proof fn body_kept(env: Env, st: State, src: nat, page: Entries, content: Content)
    requires
        ids_placed(st),
    ensures
        ({
            let (s, d) = page_body(env, st, src, page, content);
            page_kept(env, s.ids, src, page, d)
        }),
{
    geometry_has();
    body_entry(env, st, src, page, content, "MediaBox"@);
    body_entry(env, st, src, page, content, "CropBox"@);
    body_entry(env, st, src, page, content, "BleedBox"@);
    body_entry(env, st, src, page, content, "TrimBox"@);
    body_entry(env, st, src, page, content, "ArtBox"@);
    body_entry(env, st, src, page, content, "Rotate"@);
    body_entry(env, st, src, page, content, "UserUnit"@);
    body_entry(env, st, src, page, content, "Group"@);
    body_entry(env, st, src, page, content, "Contents"@);
}

/// Is the key one of those under which a page has what it keeps of the source page?
spec fn kept_key(key: Seq<char>) -> bool {
    geometry_keys().contains(key) || key == "Contents"@ || key == "Resources"@
}

proof fn kept_keys_apart(key: Seq<char>)
    requires
        kept_key(key),
    ensures
        key != "Annots"@ && !link_key(key),
{
    page_keys_apart();
    if geometry_keys().contains(key) {
        let i = choose|i: int| 0 <= i < geometry_keys().len() && geometry_keys()[i] == key;
        assert(geometry_keys()[i] == key);
    }
}

proof fn page_kept_stays(
    env: Env,
    a: Map<(nat, nat), nat>,
    b: Map<(nat, nat), nat>,
    src: nat,
    page: Entries,
    d: Entries,
    e: Entries,
)
    requires
        page_kept(env, a, src, page, d),
        extends(a, b),
        forall|key: Seq<char>| kept_key(key) ==> #[trigger] dict_get(e, key) == dict_get(d, key),
    ensures
        page_kept(env, b, src, page, e),
{
    geometry_has();
    entry_stays(env, a, b, src, page, d, e, "MediaBox"@, 1);
    entry_stays(env, a, b, src, page, d, e, "CropBox"@, 1);
    entry_stays(env, a, b, src, page, d, e, "BleedBox"@, 1);
    entry_stays(env, a, b, src, page, d, e, "TrimBox"@, 1);
    entry_stays(env, a, b, src, page, d, e, "ArtBox"@, 1);
    entry_stays(env, a, b, src, page, d, e, "Rotate"@, 1);
    entry_stays(env, a, b, src, page, d, e, "UserUnit"@, 1);
    entry_stays(env, a, b, src, page, d, e, "Group"@, 1);
    entry_stays(env, a, b, src, page, d, e, "Contents"@, 1);
}

/// Is the object of number `n` the page of the source, with all that the page keeps and that its
/// content names?
pub open spec fn page_right(env: Env, st: State, src: nat, page_index: nat, n: nat) -> bool {
    let source = env.docs[src as int].page_seq()[page_index as int];
    let page = obj_dict(source.object@)->0;
    let d = st.slots[n - 1].object->0->Dictionary_0;
    &&& dict_at(st.slots, n)
    &&& obj_dict(source.object@) is Some
    &&& page_kept(env, st.ids, src, page, d)
    &&& resources_quiet(env.docs[src as int], page, d)
    &&& source.content is Operators ==> forall|i: int|
        0 <= i < source.content.operators().len() ==> operator_led(
            env,
            st,
            src,
            page,
            d,
            #[trigger] source.content.operators()[i],
        )
}

proof fn page_right_stays(env: Env, a: State, b: State, src: nat, page_index: nat, n: nat)
    requires
        page_right(env, a, src, page_index, n),
        extends(a.ids, b.ids),
        extends(a.forms, b.forms),
        dict_at(b.slots, n),
        forall|key: Seq<char>| kept_key(key) ==> #[trigger] entry_at(b.slots, n, key) == entry_at(a.slots, n, key),
    ensures
        page_right(env, b, src, page_index, n),
{
    let source = env.docs[src as int].page_seq()[page_index as int];
    let page = obj_dict(source.object@)->0;
    let d = a.slots[n - 1].object->0->Dictionary_0;
    let e = b.slots[n - 1].object->0->Dictionary_0;
    assert forall|key: Seq<char>| kept_key(key) implies #[trigger] dict_get(e, key) == dict_get(d, key) by {
        assert(entry_at(b.slots, n, key) == entry_at(a.slots, n, key));
    }
    page_kept_stays(env, a.ids, b.ids, src, page, d, e);
    assert(kept_key("Resources"@));
    if source.content is Operators {
        let ops = source.content.operators();
        assert forall|i: int| 0 <= i < ops.len() implies operator_led(env, b, src, page, e, #[trigger] ops[i]) by {
            operator_stays(env, a, b, src, page, d, e, ops[i]);
        }
    }
}

/// A page that was built keeps what the source page has, and has what its content names.
pub proof fn built_page_right(env: Env, st: State, src: nat, page_index: nat, page_id: nat)
    requires
        ids_placed(st),
        1 <= page_id <= st.slots.len(),
        build_page(env, st, src, page_index, page_id) is Ok,
    ensures
        page_right(env, build_page(env, st, src, page_index, page_id)->Ok_0, src, page_index, page_id),
{
    let doc = env.docs[src as int];
    let source = doc.page_seq()[page_index as int];
    let page = obj_dict(source.object@)->0;
    let content = source.content;
    let (s1, d1) = page_body(env, st, src, page, content);
    body_kept(env, st, src, page, content);
    body_quiet(env, st, src, page, content);
    body_remembers(env, st, src, page, content);
    let annots = match sub_array(doc, page, "Annots"@) {
        Some(entries) => process_annots(env, s1, src, entries, page_id, page_index, Seq::empty()),
        None => Ok((s1, Seq::empty())),
    };
    if let Some(entries) = sub_array(doc, page, "Annots"@) {
        annots_remember(env, s1, src, entries, page_id, page_index, Seq::empty());
    }
    let (s2, kept) = annots->Ok_0;
    let d2 = if kept.len() > 0 {
        dict_insert(d1, "Annots"@, Obj::Array(kept))
    } else {
        d1
    };
    let s = build_page(env, st, src, page_index, page_id)->Ok_0;
    assert(s.slots[page_id - 1].object == Some(Obj::Dictionary(d2)));
    assert forall|key: Seq<char>| kept_key(key) implies #[trigger] dict_get(d2, key) == dict_get(d1, key) by {
        kept_keys_apart(key);
        dict_get_insert(d1, "Annots"@, Obj::Array(kept), key);
    }
    page_kept_stays(env, s1.ids, s.ids, src, page, d1, d2);
    assert(kept_key("Resources"@));
    if content is Operators {
        let ops = content.operators();
        assert forall|i: int| 0 <= i < ops.len() implies operator_led(env, s, src, page, d2, #[trigger] ops[i]) by {
            body_names_led(env, st, src, page, content, i);
            operator_stays(env, s1, s, src, page, d1, d2, ops[i]);
        }
    }
}

proof fn pages_are_right(env: Env, st: State, picks: Picks, k: nat)
    requires
        k <= picks.len(),
        copied_right(env, st, picks.len(), k),
        forms_linked(st, picks.len()),
        forall|n: nat| 1 <= n <= k ==> #[trigger] page_right(env, st, picks[n - 1].0, picks[n - 1].1, n),
        build_pages(env, st, picks, k) is Ok,
    ensures
        ({
            let s = build_pages(env, st, picks, k)->Ok_0;
            &&& forall|n: nat|
                1 <= n <= picks.len() ==> #[trigger] page_right(env, s, picks[n - 1].0, picks[n - 1].1, n)
            &&& copied_right(env, s, picks.len(), picks.len())
            &&& picks.len() <= s.slots.len()
        }),
    decreases picks.len() - k,
{
    if k < picks.len() {
        let (src, page) = picks[k as int];
        page_stays_right(env, st, picks, k);
        page_links(env, st, src, page, k + 1, picks.len());
        page_remembers(env, st, src, page, k + 1);
        built_page_right(env, st, src, page, k + 1);
        let s = build_page(env, st, src, page, k + 1)->Ok_0;
        assert forall|n: nat| 1 <= n <= k + 1 implies #[trigger] page_right(
            env,
            s,
            picks[n - 1].0,
            picks[n - 1].1,
            n,
        ) by {
            if n <= k {
                assert(page_right(env, st, picks[n - 1].0, picks[n - 1].1, n));
                assert(s.slots[n - 1] == st.slots[n - 1]);
                page_right_stays(env, st, s, picks[n - 1].0, picks[n - 1].1, n);
            }
        }
        pages_are_right(env, s, picks, k + 1);
    }
}

/// When all is gathered, each chosen page keeps what its source page has, and has what its content
/// names.
pub proof fn gathered_pages_right(docs: Seq<PdfDocument>, picks: Picks, opts: SubsetOptions, n: nat)
    requires
        subset(docs, picks, opts) is Ok,
        1 <= n <= picks.len(),
    ensures
        page_right(
            plan(docs, picks, opts),
            gathered(docs, picks, opts),
            picks[n - 1].0,
            picks[n - 1].1,
            n,
        ),
{
    let env = plan(docs, picks, opts);
    let start = planned(picks.len());
    assert(start.page_ids =~= page_row(0));
    pages_are_right(env, start, picks, 0);
    let built = build_pages(env, start, picks, 0)->Ok_0;
    let st = gather(env, built).0;
    gather_keeps(picks.len(), env, built);
    gather_remembers(env, built);
    let (src, page) = picks[n - 1];
    assert(page_right(env, built, src, page, n));
    assert forall|key: Seq<char>| kept_key(key) implies #[trigger] entry_at(st.slots, n, key) == entry_at(
        built.slots,
        n,
        key,
    ) by {
        kept_keys_apart(key);
    }
    page_right_stays(env, built, st, src, page, n);
}

} // verus!
